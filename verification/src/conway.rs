use vstd::prelude::*;

verus! {

/// A rectangular board stored row by row.
#[derive(Clone, PartialEq, Eq)]
pub struct Grid<T> {
    rows: usize,
    cols: usize,
    grid: Vec<T>,
}

/// `cell` alone if `present`, otherwise nothing.
pub open spec fn when(present: bool, cell: (usize, usize)) -> Seq<(usize, usize)> {
    if present {
        seq![cell]
    } else {
        Seq::empty()
    }
}

/// The cells next to `(row, col)` on a board of `rows` by `cols` cells: the row
/// above from left to right, then the left and the right neighbour, then the row below.
pub open spec fn neighbour_cells(rows: usize, cols: usize, row: usize, col: usize) -> Seq<
    (usize, usize),
> {
    let up = row > 0;
    let down = row < rows - 1;
    let left = col > 0;
    let right = col < cols - 1;
    when(up && left, ((row - 1) as usize, (col - 1) as usize)) + when(
        up,
        ((row - 1) as usize, col),
    ) + when(up && right, ((row - 1) as usize, (col + 1) as usize)) + when(
        left,
        (row, (col - 1) as usize),
    ) + when(right, (row, (col + 1) as usize)) + when(
        down && left,
        ((row + 1) as usize, (col - 1) as usize),
    ) + when(down, ((row + 1) as usize, col)) + when(
        down && right,
        ((row + 1) as usize, (col + 1) as usize),
    )
}

impl<T: Clone + Default> Grid<T> {
    /// Number of rows.
    pub closed spec fn rows(self) -> usize {
        self.rows
    }

    /// Number of columns.
    pub closed spec fn cols(self) -> usize {
        self.cols
    }

    /// The stored cells, one row after the other.
    pub closed spec fn cells(self) -> Seq<T> {
        self.grid@
    }

    /// Where the cell `(row, col)` is stored.
    pub open spec fn offset(self, row: usize, col: usize) -> int {
        self.cols() * row + col
    }

    /// There are as many stored cells as the board has places.
    pub open spec fn well_formed(self) -> bool {
        self.cells().len() == self.rows() * self.cols()
    }

    /// A board of `rows` by `cols` cells, each a clone of the default value.
    pub fn new(rows: usize, cols: usize) -> (g: Self)
        requires
            rows * cols <= usize::MAX,
        ensures
            g.rows() == rows,
            g.cols() == cols,
            g.well_formed(),
            exists|d: T|
                call_ensures(T::default, (), d) && forall|i: int|
                    0 <= i < g.cells().len() ==> cloned(d, #[trigger] g.cells()[i]),
    {
        let d = T::default();
        let g = Self { rows, cols, grid: vec![d; rows * cols] };
        proof {
            assert(call_ensures(T::default, (), d) && forall|i: int|
                0 <= i < g.cells().len() ==> cloned(d, #[trigger] g.cells()[i]));
        }
        g
    }

    /// A board that stores a clone of each cell of `grid`, read as `rows` rows of `cols` cells.
    pub fn from_slice(grid: &[T], rows: usize, cols: usize) -> (g: Self)
        ensures
            g.rows() == rows,
            g.cols() == cols,
            g.cells().len() == grid@.len(),
            forall|i: int| 0 <= i < grid@.len() ==> cloned(grid@[i], #[trigger] g.cells()[i]),
    {
        let mut cells: Vec<T> = Vec::new();
        let mut i: usize = 0;
        while i < grid.len()
            invariant
                i <= grid@.len(),
                cells@.len() == i,
                forall|j: int| 0 <= j < i ==> cloned(grid@[j], #[trigger] cells@[j]),
            decreases grid@.len() - i,
        {
            cells.push(grid[i].clone());
            i += 1;
        }
        Self { rows, cols, grid: cells }
    }

    pub fn size(&self) -> (s: (usize, usize))
        ensures
            s == (self.rows(), self.cols()),
    {
        (self.rows, self.cols)
    }

    pub fn get(&self, row: usize, col: usize) -> (cell: &T)
        requires
            self.offset(row, col) < self.cells().len(),
        ensures
            *cell == self.cells()[self.offset(row, col)],
    {
        assert(0 <= self.cols * row) by (nonlinear_arith)
            requires
                0 <= self.cols,
                0 <= row,
        ;
        assert(self.grid@.len() == self.grid.len());
        &self.grid[self.cols * row + col]
    }

    pub fn set(&mut self, value: T, row: usize, col: usize)
        requires
            old(self).offset(row, col) < old(self).cells().len(),
        ensures
            final(self).rows() == old(self).rows(),
            final(self).cols() == old(self).cols(),
            final(self).cells() == old(self).cells().update(old(self).offset(row, col), value),
    {
        assert(0 <= self.cols * row) by (nonlinear_arith)
            requires
                0 <= self.cols,
                0 <= row,
        ;
        assert(self.grid@.len() == self.grid.len());
        let at = self.cols * row + col;
        self.grid[at] = value;
    }

    /// The cells next to `(row, col)` that lie on the board.
    pub fn neighbours(&self, row: usize, col: usize) -> (res: Vec<(usize, usize)>)
        requires
            self.rows() >= 1,
            self.cols() >= 1,
        ensures
            res@ == neighbour_cells(self.rows(), self.cols(), row, col),
            row < self.rows() && col < self.cols() ==> forall|n: int|
                0 <= n < res@.len() ==> (#[trigger] res@[n]).0 < self.rows() && res@[n].1
                    < self.cols(),
    {
        let mut res = vec![];

        if row > 0 {
            if col > 0 {
                res.push((row - 1, col - 1));
            }
            res.push((row - 1, col));

            if col < self.cols - 1 {
                res.push((row - 1, col + 1))
            }
        }
        if col > 0 {
            res.push((row, col - 1))
        }
        if col < self.cols - 1 {
            res.push((row, col + 1))
        }
        if row < self.rows - 1 {
            if col > 0 {
                res.push((row + 1, col - 1))
            }
            res.push((row + 1, col));

            if col < self.cols - 1 {
                res.push((row + 1, col + 1))
            }
        }
        proof {
            assert(res@ =~= neighbour_cells(self.rows(), self.cols(), row, col));
        }
        res
    }
}

/// The state of one cell of the game.
#[derive(Clone, Copy, PartialEq, Eq)]
pub enum Cell {
    Dead,
    Alive,
}

impl Default for Cell {
    fn default() -> (cell: Self)
        ensures
            cell == Cell::Dead,
    {
        Self::Dead
    }
}

/// How many of the cells `around` are alive on a board with `cols` columns.
pub open spec fn alive_among(cells: Seq<Cell>, cols: usize, around: Seq<(usize, usize)>) -> int
    decreases around.len(),
{
    if around.len() == 0 {
        0
    } else {
        let last = around.last();
        alive_among(cells, cols, around.drop_last()) + if cells[cols * last.0 + last.1]
            == Cell::Alive {
            1int
        } else {
            0int
        }
    }
}

/// A living cell dies with fewer than two or more than three living neighbours;
/// a dead cell comes to life with exactly three.
pub open spec fn changes(cell: Cell, alive: int) -> bool {
    match cell {
        Cell::Alive => alive < 2 || alive > 3,
        Cell::Dead => alive == 3,
    }
}

/// The other state.
pub open spec fn toggled(cell: Cell) -> Cell {
    match cell {
        Cell::Alive => Cell::Dead,
        Cell::Dead => Cell::Alive,
    }
}

/// The state of the cell `(row, col)` in the generation after `cells`.
pub open spec fn next_cell(cells: Seq<Cell>, rows: usize, cols: usize, row: usize, col: usize) -> Cell {
    let cell = cells[cols * row + col];
    if changes(cell, alive_among(cells, cols, neighbour_cells(rows, cols, row, col))) {
        toggled(cell)
    } else {
        cell
    }
}

/// `a` comes before `b` when the board is read row by row.
pub open spec fn reads_before(a: (usize, usize), b: (usize, usize)) -> bool {
    a.0 < b.0 || (a.0 == b.0 && a.1 < b.1)
}

/// A place on the board is stored inside the first `rows * cols` cells.
pub proof fn lemma_offset_on_board(rows: usize, cols: usize, row: usize, col: usize)
    requires
        row < rows,
        col < cols,
    ensures
        0 <= cols * row + col < rows * cols,
{
    assert(cols * row + cols <= rows * cols) by (nonlinear_arith)
        requires
            row + 1 <= rows,
            0 <= cols,
    ;
    assert(0 <= cols * row) by (nonlinear_arith)
        requires
            0 <= cols,
            0 <= row,
    ;
}

/// Two places in range that are stored at the same offset are the same place.
pub proof fn lemma_offset_injective(cols: usize, a: (usize, usize), b: (usize, usize))
    requires
        a.1 < cols,
        b.1 < cols,
        cols * a.0 + a.1 == cols * b.0 + b.1,
    ensures
        a == b,
{
    if a.0 < b.0 {
        assert(cols * a.0 + cols <= cols * b.0) by (nonlinear_arith)
            requires
                a.0 + 1 <= b.0,
                0 <= cols,
        ;
    } else if b.0 < a.0 {
        assert(cols * b.0 + cols <= cols * a.0) by (nonlinear_arith)
            requires
                b.0 + 1 <= a.0,
                0 <= cols,
        ;
    }
}

/// The game of life on a bounded board.
#[derive(PartialEq, Eq)]
pub struct GameOfLife {
    grid: Grid<Cell>,
}

impl GameOfLife {
    /// The board of the current generation.
    pub closed spec fn board(self) -> Grid<Cell> {
        self.grid
    }

    pub fn from_grid(grid: Grid<Cell>) -> (game: Self)
        ensures
            game.board() == grid,
    {
        Self { grid }
    }

    pub fn get_grid(&self) -> (grid: &Grid<Cell>)
        ensures
            *grid == self.board(),
    {
        &self.grid
    }

    /// The number of living cells among `around`.
    fn count_alive(&self, around: &Vec<(usize, usize)>) -> (alive: i32)
        requires
            self.grid.rows * self.grid.cols <= self.grid.grid@.len(),
            around@.len() <= 8,
            forall|n: int|
                0 <= n < around@.len() ==> (#[trigger] around@[n]).0 < self.grid.rows
                    && around@[n].1 < self.grid.cols,
        ensures
            alive == alive_among(self.grid.grid@, self.grid.cols, around@),
    {
        let mut alive_count: i32 = 0;
        let mut n: usize = 0;
        while n < around.len()
            invariant
                n <= around@.len() <= 8,
                self.grid.rows * self.grid.cols <= self.grid.grid@.len(),
                forall|n: int|
                    0 <= n < around@.len() ==> (#[trigger] around@[n]).0 < self.grid.rows
                        && around@[n].1 < self.grid.cols,
                0 <= alive_count <= n,
                alive_count == alive_among(self.grid.grid@, self.grid.cols, around@.take(n as int)),
            decreases around@.len() - n,
        {
            let (x, y) = around[n];
            proof {
                lemma_offset_on_board(self.grid.rows, self.grid.cols, x, y);
                assert(around@.take(n + 1).drop_last() =~= around@.take(n as int));
            }
            if let Cell::Alive = self.grid.get(x, y) {
                alive_count += 1;
            }
            n += 1;
        }
        proof {
            assert(around@.take(n as int) =~= around@);
        }
        alive_count
    }

    /// Replaces the generation on the board by the next one.
    pub fn step(&mut self)
        requires
            old(self).board().rows() * old(self).board().cols() <= old(self).board().cells().len(),
        ensures
            ({
                let before = old(self).board();
                let after = final(self).board();
                &&& after.rows() == before.rows()
                &&& after.cols() == before.cols()
                &&& after.cells().len() == before.cells().len()
                &&& forall|row: usize, col: usize|
                    row < before.rows() && col < before.cols() ==> #[trigger] after.cells()[before.offset(
                        row,
                        col,
                    )] == next_cell(before.cells(), before.rows(), before.cols(), row, col)
                &&& forall|at: int|
                    before.rows() * before.cols() <= at < before.cells().len() ==> after.cells()[at]
                        == before.cells()[at]
            }),
    {
        let ghost before = self.grid.grid@;
        let rows = self.grid.rows;
        let cols = self.grid.cols;
        let mut diff: Vec<(usize, usize)> = vec![];
        let mut i: usize = 0;
        while i < rows
            invariant
                i <= rows,
                rows == self.grid.rows,
                cols == self.grid.cols,
                self.grid.grid@ == before,
                rows * cols <= before.len(),
                forall|m: int|
                    0 <= m < diff@.len() ==> {
                        let at = #[trigger] diff@[m];
                        at.0 < i && at.1 < cols && changes(
                            before[cols * at.0 + at.1],
                            alive_among(before, cols, neighbour_cells(rows, cols, at.0, at.1)),
                        )
                    },
                forall|m: int, n: int|
                    0 <= m < n < diff@.len() ==> reads_before(#[trigger] diff@[m], #[trigger] diff@[n]),
                forall|x: usize, y: usize|
                    x < i && y < cols && changes(
                        before[cols * x + y],
                        #[trigger] alive_among(before, cols, neighbour_cells(rows, cols, x, y)),
                    ) ==> diff@.contains((x, y)),
            decreases rows - i,
        {
            let mut j: usize = 0;
            while j < cols
                invariant
                    i < rows,
                    j <= cols,
                    rows == self.grid.rows,
                    cols == self.grid.cols,
                    self.grid.grid@ == before,
                    rows * cols <= before.len(),
                    forall|m: int|
                        0 <= m < diff@.len() ==> {
                            let at = #[trigger] diff@[m];
                            reads_before(at, (i, j)) && at.1 < cols && changes(
                                before[cols * at.0 + at.1],
                                alive_among(before, cols, neighbour_cells(rows, cols, at.0, at.1)),
                            )
                        },
                    forall|m: int, n: int|
                        0 <= m < n < diff@.len() ==> reads_before(
                            #[trigger] diff@[m],
                            #[trigger] diff@[n],
                        ),
                    forall|x: usize, y: usize|
                        reads_before((x, y), (i, j)) && y < cols && changes(
                            before[cols * x + y],
                            #[trigger] alive_among(before, cols, neighbour_cells(rows, cols, x, y)),
                        ) ==> diff@.contains((x, y)),
                decreases cols - j,
            {
                let neighbours = self.grid.neighbours(i, j);
                let alive_count = self.count_alive(&neighbours);
                proof {
                    lemma_offset_on_board(rows, cols, i, j);
                }
                let ghost earlier = diff@;
                let changing = match self.grid.get(i, j) {
                    Cell::Alive => alive_count < 2 || alive_count > 3,
                    Cell::Dead => alive_count == 3,
                };
                if changing {
                    diff.push((i, j));
                }
                proof {
                    assert forall|x: usize, y: usize|
                        reads_before((x, y), (i, (j + 1) as usize)) && y < cols && changes(
                            before[cols * x + y],
                            #[trigger] alive_among(before, cols, neighbour_cells(rows, cols, x, y)),
                        ) implies diff@.contains((x, y)) by {
                        if x == i && y == j {
                            assert(diff@[diff@.len() - 1] == (x, y));
                        } else {
                            assert(earlier.contains((x, y)));
                            let m = choose|m: int| 0 <= m < earlier.len() && earlier[m] == (x, y);
                            assert(diff@[m] == (x, y));
                        }
                    }
                }
                j += 1;
            }
            i += 1;
        }

        let mut k: usize = 0;
        while k < diff.len()
            invariant
                k <= diff@.len(),
                rows == self.grid.rows,
                cols == self.grid.cols,
                self.grid.grid@.len() == before.len(),
                rows * cols <= before.len(),
                forall|m: int|
                    0 <= m < diff@.len() ==> (#[trigger] diff@[m]).0 < rows && diff@[m].1 < cols,
                forall|m: int, n: int|
                    0 <= m < n < diff@.len() ==> reads_before(#[trigger] diff@[m], #[trigger] diff@[n]),
                forall|x: usize, y: usize|
                    x < rows && y < cols ==> #[trigger] self.grid.grid@[cols * x + y] == if diff@.take(
                        k as int,
                    ).contains((x, y)) {
                        toggled(before[cols * x + y])
                    } else {
                        before[cols * x + y]
                    },
                forall|at: int|
                    rows * cols <= at < before.len() ==> self.grid.grid@[at] == before[at],
            decreases diff@.len() - k,
        {
            let (x, y) = diff[k];
            let ghost cells = self.grid.grid@;
            let ghost done = diff@.take(k as int);
            proof {
                lemma_offset_on_board(rows, cols, x, y);
                assert(!done.contains((x, y))) by {
                    if done.contains((x, y)) {
                        let m = choose|m: int| 0 <= m < done.len() && done[m] == (x, y);
                        assert(reads_before(diff@[m], diff@[k as int]));
                    }
                }
            }
            let flipped = match self.grid.get(x, y) {
                Cell::Alive => Cell::Dead,
                Cell::Dead => Cell::Alive,
            };
            self.grid.set(flipped, x, y);
            proof {
                let now = diff@.take(k + 1);
                assert(now.drop_last() =~= done);
                assert forall|x2: usize, y2: usize| x2 < rows && y2 < cols implies #[trigger] self.grid.grid@[cols
                    * x2 + y2] == if now.contains((x2, y2)) {
                    toggled(before[cols * x2 + y2])
                } else {
                    before[cols * x2 + y2]
                } by {
                    lemma_offset_on_board(rows, cols, x2, y2);
                    if (x2, y2) == (x, y) {
                        assert(now[k as int] == (x, y));
                    } else {
                        if cols * x2 + y2 == cols * x + y {
                            lemma_offset_injective(cols, (x2, y2), (x, y));
                        }
                        if done.contains((x2, y2)) {
                            let m = choose|m: int| 0 <= m < done.len() && done[m] == (x2, y2);
                            assert(now[m] == (x2, y2));
                        }
                        if now.contains((x2, y2)) {
                            let m = choose|m: int| 0 <= m < now.len() && now[m] == (x2, y2);
                            assert(done[m] == (x2, y2));
                        }
                    }
                }
            }
            k += 1;
        }
        proof {
            assert(diff@.take(k as int) =~= diff@);
            assert forall|row: usize, col: usize| row < rows && col < cols implies #[trigger] self.grid.grid@[cols
                * row + col] == next_cell(before, rows, cols, row, col) by {
                let alive = alive_among(before, cols, neighbour_cells(rows, cols, row, col));
                if diff@.contains((row, col)) {
                    let m = choose|m: int| 0 <= m < diff@.len() && diff@[m] == (row, col);
                    assert(changes(before[cols * row + col], alive));
                }
            }
        }
    }
}

} // verus!
