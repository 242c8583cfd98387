use vstd::prelude::*;

verus! {

/// All the ways to extend `comb` by `ln` elements of `arr` taken at increasing
/// positions from `start` on. A way that takes the element at a position comes
/// before every way that skips it.
pub open spec fn extensions(arr: Seq<i32>, start: int, ln: nat, comb: Seq<i32>) -> Seq<Seq<i32>>
    decreases ln, arr.len() - start,
{
    if ln == 0 {
        seq![comb]
    } else if start < 0 || start >= arr.len() {
        Seq::empty()
    } else {
        extensions(arr, start + 1, (ln - 1) as nat, comb.push(arr[start])) + extensions(
            arr,
            start + 1,
            ln,
            comb,
        )
    }
}

/// The contents of each row of `rows`.
pub open spec fn contents(rows: Seq<Vec<i32>>) -> Seq<Seq<i32>> {
    Seq::new(rows.len(), |i: int| rows[i]@)
}

/// The selections of `k` elements of `arr`, each in the order of `arr`, listed in
/// the lexicographic order of the positions taken.
pub fn combinations(arr: &[i32], k: usize) -> (res: Vec<Vec<i32>>)
    ensures
        contents(res@) == extensions(arr@, 0, k as nat, Seq::empty()),
{
    let mut res = vec![];
    combinations_rec(arr, 0, k, vec![], &mut res);
    proof {
        assert(contents(res@) =~= Seq::<Seq<i32>>::empty() + contents(res@));
    }
    res
}

/// Appends to `res` every way to extend `comb` by `ln` elements of `arr` taken from
/// position `start` on.
pub fn combinations_rec(
    arr: &[i32],
    start: usize,
    ln: usize,
    comb: Vec<i32>,
    res: &mut Vec<Vec<i32>>,
)
    ensures
        contents(final(res)@) == contents(old(res)@) + extensions(
            arr@,
            start as int,
            ln as nat,
            comb@,
        ),
    decreases ln,
{
    if ln == 0 {
        res.push(comb);
        proof {
            assert(contents(res@) =~= contents(old(res)@) + seq![comb@]);
        }
        return ;
    }
    let ghost all = extensions(arr@, start as int, ln as nat, comb@);
    let mut i: usize = start;
    proof {
        assert(contents(res@) + all =~= contents(old(res)@) + all);
    }
    while i < arr.len()
        invariant
            ln > 0,
            start <= i,
            contents(res@) + extensions(arr@, i as int, ln as nat, comb@) == contents(old(res)@)
                + all,
        decreases arr@.len() - i,
    {
        let ghost so_far = contents(res@);
        let mut tmp = comb.clone();
        tmp.push(arr[i]);
        proof {
            assert(tmp@ =~= comb@.push(arr@[i as int]));
        }
        combinations_rec(arr, i + 1, ln - 1, tmp, res);
        proof {
            let taking = extensions(arr@, i + 1, (ln - 1) as nat, comb@.push(arr@[i as int]));
            let skipping = extensions(arr@, i + 1, ln as nat, comb@);
            assert((so_far + taking) + skipping =~= so_far + (taking + skipping));
        }
        i += 1;
    }
    proof {
        assert(contents(res@) + Seq::<Seq<i32>>::empty() =~= contents(res@));
    }
}

} // verus!
