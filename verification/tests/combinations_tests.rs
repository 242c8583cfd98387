use bst::combinations::{combinations, combinations_rec};

#[test]
fn pairs_of_four() {
    assert_eq!(
        combinations(&[1, 2, 3, 4], 2),
        vec![vec![1, 2], vec![1, 3], vec![1, 4], vec![2, 3], vec![2, 4], vec![3, 4]]
    );
}

#[test]
fn choosing_none_gives_the_empty_selection() {
    assert_eq!(combinations(&[1, 2, 3], 0), vec![Vec::<i32>::new()]);
    assert_eq!(combinations(&[], 0), vec![Vec::<i32>::new()]);
}

#[test]
fn choosing_all_or_too_many() {
    assert_eq!(combinations(&[7, 8, 9], 3), vec![vec![7, 8, 9]]);
    assert_eq!(combinations(&[7, 8, 9], 4), Vec::<Vec<i32>>::new());
    assert_eq!(combinations(&[], 1), Vec::<Vec<i32>>::new());
}

#[test]
fn repeated_values_are_kept_apart() {
    assert_eq!(combinations(&[5, 5, 6], 2), vec![vec![5, 5], vec![5, 6], vec![5, 6]]);
}

#[test]
fn counts_are_binomial() {
    let arr = [1, 2, 3, 4, 5, 6, 7];
    let want = [1, 7, 21, 35, 35, 21, 7, 1];
    for k in 0..=7 {
        assert_eq!(combinations(&arr, k).len(), want[k]);
    }
}

#[test]
fn extending_a_started_selection() {
    let mut res = vec![vec![0]];
    combinations_rec(&[1, 2, 3, 4], 1, 2, vec![9], &mut res);
    assert_eq!(res, vec![vec![0], vec![9, 2, 3], vec![9, 2, 4], vec![9, 3, 4]]);
    combinations_rec(&[1, 2], 5, 1, vec![], &mut res);
    assert_eq!(res.len(), 4);
    combinations_rec(&[1, 2], 5, 0, vec![8], &mut res);
    assert_eq!(res[4], vec![8]);
}
