use bst::comm::common_lines;
use bst::prefix::longest_common_prefix;

fn lines(v: &[&str]) -> Vec<String> {
    v.iter().map(|s| s.to_string()).collect()
}

#[test]
fn prefix_of_no_strings() {
    assert_eq!(longest_common_prefix(vec![]), "");
}

#[test]
fn prefix_of_one_string() {
    assert_eq!(longest_common_prefix(vec!["alone"]), "alone");
}

#[test]
fn prefix_of_several() {
    assert_eq!(longest_common_prefix(vec!["flower", "flow", "flight"]), "fl");
    assert_eq!(longest_common_prefix(vec!["dog", "racecar", "car"]), "");
    assert_eq!(longest_common_prefix(vec!["interview", "inter", "internet"]), "inter");
    assert_eq!(longest_common_prefix(vec!["same", "same", "same"]), "same");
    assert_eq!(longest_common_prefix(vec!["ab", "abc", ""]), "");
    assert_eq!(longest_common_prefix(vec!["", "abc"]), "");
}

#[test]
fn prefix_counts_characters_not_bytes() {
    assert_eq!(longest_common_prefix(vec!["привет", "применение", "приз"]), "при");
    assert_eq!(longest_common_prefix(vec!["añb", "añc"]), "añ");
    assert_eq!(longest_common_prefix(vec!["é", "è"]), "");
}

#[test]
fn common_lines_in_order_of_second() {
    let first = lines(&["b", "a", "c"]);
    let second = lines(&["c", "x", "a"]);
    assert_eq!(common_lines(&first, &second), lines(&["c", "a"]));
}

#[test]
fn common_lines_are_reported_once() {
    let first = lines(&["a", "a", "b"]);
    let second = lines(&["a", "b", "a", "b", "a"]);
    assert_eq!(common_lines(&first, &second), lines(&["a", "b"]));
}

#[test]
fn common_lines_with_an_empty_side() {
    assert_eq!(common_lines(&lines(&[]), &lines(&["a"])), lines(&[]));
    assert_eq!(common_lines(&lines(&["a"]), &lines(&[])), lines(&[]));
    assert_eq!(common_lines(&lines(&["", "x"]), &lines(&["", "y"])), lines(&[""]));
}
