use bst::conway::{Cell, GameOfLife, Grid};

fn board(rows: usize, cols: usize, alive: &[(usize, usize)]) -> Grid<Cell> {
    let mut g: Grid<Cell> = Grid::new(rows, cols);
    for (r, c) in alive {
        g.set(Cell::Alive, *r, *c);
    }
    g
}

fn alive_cells(g: &Grid<Cell>) -> Vec<(usize, usize)> {
    let (rows, cols) = g.size();
    let mut out = Vec::new();
    for r in 0..rows {
        for c in 0..cols {
            if *g.get(r, c) == Cell::Alive {
                out.push((r, c));
            }
        }
    }
    out
}

#[test]
fn new_grid_holds_defaults() {
    let g: Grid<i32> = Grid::new(2, 3);
    assert_eq!(g.size(), (2, 3));
    for r in 0..2 {
        for c in 0..3 {
            assert_eq!(*g.get(r, c), 0);
        }
    }
    let cells: Grid<Cell> = Grid::new(1, 1);
    assert!(*cells.get(0, 0) == Cell::Dead);
    assert!(Cell::default() == Cell::Dead);
}

#[test]
fn grid_from_slice_is_row_major() {
    let g = Grid::from_slice(&[1, 2, 3, 4, 5, 6], 2, 3);
    assert_eq!(g.size(), (2, 3));
    assert_eq!(*g.get(0, 0), 1);
    assert_eq!(*g.get(0, 2), 3);
    assert_eq!(*g.get(1, 0), 4);
    assert_eq!(*g.get(1, 2), 6);
}

#[test]
fn grid_set_changes_one_cell() {
    let mut g = Grid::from_slice(&[1, 2, 3, 4], 2, 2);
    g.set(9, 1, 0);
    assert_eq!(*g.get(0, 0), 1);
    assert_eq!(*g.get(0, 1), 2);
    assert_eq!(*g.get(1, 0), 9);
    assert_eq!(*g.get(1, 1), 4);
}

#[test]
fn neighbours_in_the_middle() {
    let g: Grid<i32> = Grid::new(3, 3);
    assert_eq!(
        g.neighbours(1, 1),
        vec![(0, 0), (0, 1), (0, 2), (1, 0), (1, 2), (2, 0), (2, 1), (2, 2)]
    );
}

#[test]
fn neighbours_at_corners_and_edges() {
    let g: Grid<i32> = Grid::new(3, 4);
    assert_eq!(g.neighbours(0, 0), vec![(0, 1), (1, 0), (1, 1)]);
    assert_eq!(g.neighbours(2, 3), vec![(1, 2), (1, 3), (2, 2)]);
    assert_eq!(g.neighbours(0, 2), vec![(0, 1), (0, 3), (1, 1), (1, 2), (1, 3)]);
    assert_eq!(g.neighbours(1, 0), vec![(0, 0), (0, 1), (1, 1), (2, 0), (2, 1)]);
    let single: Grid<i32> = Grid::new(1, 1);
    assert_eq!(single.neighbours(0, 0), vec![]);
}

#[test]
fn blinker_oscillates() {
    let mut game = GameOfLife::from_grid(board(5, 5, &[(2, 1), (2, 2), (2, 3)]));
    game.step();
    assert_eq!(alive_cells(game.get_grid()), vec![(1, 2), (2, 2), (3, 2)]);
    game.step();
    assert_eq!(alive_cells(game.get_grid()), vec![(2, 1), (2, 2), (2, 3)]);
}

#[test]
fn block_is_still() {
    let cells = [(1, 1), (1, 2), (2, 1), (2, 2)];
    let mut game = GameOfLife::from_grid(board(4, 4, &cells));
    game.step();
    assert_eq!(alive_cells(game.get_grid()), cells.to_vec());
    assert!(game == GameOfLife::from_grid(board(4, 4, &cells)));
}

#[test]
fn lonely_and_crowded_cells_die() {
    let mut game = GameOfLife::from_grid(board(3, 3, &[(1, 1)]));
    game.step();
    assert_eq!(alive_cells(game.get_grid()), vec![]);

    let all: Vec<(usize, usize)> = (0..3).flat_map(|r| (0..3).map(move |c| (r, c))).collect();
    let mut game = GameOfLife::from_grid(board(3, 3, &all));
    game.step();
    assert_eq!(alive_cells(game.get_grid()), vec![(0, 0), (0, 2), (2, 0), (2, 2)]);
}

#[test]
fn three_neighbours_give_birth() {
    let mut game = GameOfLife::from_grid(board(3, 3, &[(0, 0), (0, 1), (1, 0)]));
    game.step();
    assert_eq!(alive_cells(game.get_grid()), vec![(0, 0), (0, 1), (1, 0), (1, 1)]);
}

#[test]
fn empty_board_steps() {
    let mut game = GameOfLife::from_grid(Grid::new(0, 0));
    game.step();
    assert_eq!(game.get_grid().size(), (0, 0));
}
