use linekit::uniq;
use std::collections::BTreeSet;

fn some_lines(lines: &[&str]) -> Vec<String> {
    lines.iter().map(|line| line.to_string()).collect()
}

#[test]
fn uniq_keeps_one_copy_in_ordinal_order() {
    assert_eq!(uniq(some_lines(&["b", "a", "b", "c", "a"])), some_lines(&["a", "b", "c"]));
}

#[test]
fn uniq_does_not_keep_the_order_of_first_appearance() {
    assert_eq!(uniq(some_lines(&["z", "y", "x"])), some_lines(&["x", "y", "z"]));
}

#[test]
fn uniq_of_nothing_is_nothing() {
    assert_eq!(uniq(Vec::new()), Vec::<String>::new());
}

#[test]
fn uniq_tells_lines_apart_exactly() {
    assert_eq!(
        uniq(some_lines(&["a", "A", "a ", "a", "", "", " a"])),
        some_lines(&["", " a", "A", "a", "a "])
    );
}

#[test]
fn uniq_is_as_long_as_the_input_only_without_repeats() {
    let distinct = some_lines(&["c", "a", "b"]);
    assert_eq!(uniq(distinct.clone()).len(), distinct.len());
    let repeated = some_lines(&["c", "a", "c"]);
    assert!(uniq(repeated.clone()).len() < repeated.len());
}

#[test]
fn uniq_agrees_with_an_ordered_set() {
    let lines = some_lines(&[
        "delta", "alpha", "", "charlie", "alpha", "  bravo", "Zulu", "alpha", "\u{e9}cole", "", "zz", "z",
        "\u{1F600}", "\u{e9}cole",
    ]);
    let expected: Vec<String> = lines.iter().cloned().collect::<BTreeSet<String>>().into_iter().collect();
    assert_eq!(uniq(lines), expected);
}

#[test]
fn uniq_twice_changes_nothing() {
    let once = uniq(some_lines(&["b", "a", "b", "c", "a", ""]));
    assert_eq!(uniq(once.clone()), once);
}
