use linekit::{sort, sort_btree, sort_heap, sort_key, InvalidInput, Order};
use std::collections::BTreeMap;

fn text_lines(lines: &[&str]) -> Vec<String> {
    lines.iter().map(|line| line.to_string()).collect()
}

fn sample_lines() -> Vec<String> {
    text_lines(&[
        "delta 4 x",
        "alpha 1 y",
        "",
        "charlie 3 z",
        "alpha 1 y",
        "  bravo\t2   w  ",
        "Zulu",
        "alpha",
        "\u{e9}cole 9",
        "a,b,,c",
        "b,a",
        "   ",
        "\u{1F600} smile",
        "alpha 2 q",
        "zz--yy--xx",
        "zz--aa",
        "ab",
        "a",
    ])
}

fn field_key(line: &str, column: usize, delimiter: Option<&str>) -> String {
    let fields: Vec<&str> = match delimiter {
        None => line.split_whitespace().collect(),
        Some(d) => line.split(d).collect(),
    };
    if 1 <= column && column <= fields.len() {
        fields[column - 1].to_string()
    } else {
        line.to_string()
    }
}

fn by_map(lines: &[String], order: Order, column: usize, delimiter: Option<&str>) -> Vec<String> {
    let mut map: BTreeMap<String, String> = BTreeMap::new();
    for line in lines {
        map.insert(field_key(line, column, delimiter), line.clone());
    }
    match order {
        Order::Asc => map.values().cloned().collect(),
        Order::Desc => map.values().rev().cloned().collect(),
    }
}

#[test]
fn sort_whole_lines_ascending_keeps_copies() {
    assert_eq!(sort_heap(text_lines(&["b", "a", "a"]), Order::Asc), text_lines(&["a", "a", "b"]));
}

#[test]
fn sort_whole_lines_descending_keeps_copies() {
    assert_eq!(sort_heap(text_lines(&["b", "a", "a"]), Order::Desc), text_lines(&["b", "a", "a"]));
}

#[test]
fn sort_without_column_sorts_whole_lines() {
    assert_eq!(
        sort(text_lines(&["b", "a", "a"]), Order::Asc, None, None),
        text_lines(&["a", "a", "b"])
    );
    assert_eq!(
        sort(text_lines(&["b", "a", "a"]), Order::Desc, None, Some(",".to_string())),
        text_lines(&["b", "a", "a"])
    );
}

#[test]
fn sort_by_column_keeps_the_last_line_of_a_key() {
    assert_eq!(
        sort_btree(text_lines(&["2,x", "1,y", "1,z"]), Order::Asc, 1, Some(",".to_string())),
        text_lines(&["1,z", "2,x"])
    );
}

#[test]
fn sort_by_column_descending() {
    assert_eq!(
        sort_btree(text_lines(&["2,x", "1,y", "1,z"]), Order::Desc, 1, Some(",".to_string())),
        text_lines(&["2,x", "1,z"])
    );
}

#[test]
fn sort_with_column_sorts_by_key() {
    assert_eq!(
        sort(text_lines(&["2,x", "1,y", "1,z"]), Order::Asc, Some(1), Some(",".to_string())),
        text_lines(&["1,z", "2,x"])
    );
}

#[test]
fn sort_by_whitespace_column() {
    assert_eq!(
        sort_btree(text_lines(&["x  3", "y\t1", "  z 2  "]), Order::Asc, 2, None),
        text_lines(&["y\t1", "  z 2  ", "x  3"])
    );
}

#[test]
fn sort_of_nothing_is_nothing() {
    assert_eq!(sort_heap(Vec::new(), Order::Asc), Vec::<String>::new());
    assert_eq!(sort_heap(Vec::new(), Order::Desc), Vec::<String>::new());
    assert_eq!(sort_btree(Vec::new(), Order::Asc, 1, None), Vec::<String>::new());
}

#[test]
fn sort_of_one_line_is_that_line() {
    assert_eq!(sort_heap(text_lines(&["only"]), Order::Desc), text_lines(&["only"]));
    assert_eq!(sort_btree(text_lines(&["only"]), Order::Desc, 3, None), text_lines(&["only"]));
}

#[test]
fn sort_is_ordinal_not_alphabetical() {
    assert_eq!(
        sort_heap(text_lines(&["b", "a", "B", "\u{e9}", "", "ab", "a ", "10", "9"]), Order::Asc),
        text_lines(&["", "10", "9", "B", "a", "a ", "ab", "b", "\u{e9}"])
    );
}

#[test]
fn sort_whole_lines_agrees_with_the_standard_sort() {
    let lines = sample_lines();
    let mut expected = lines.clone();
    expected.sort();
    assert_eq!(sort_heap(lines.clone(), Order::Asc), expected);
    expected.reverse();
    assert_eq!(sort_heap(lines, Order::Desc), expected);
}

#[test]
fn sort_of_many_lines_agrees_with_the_standard_sort() {
    let mut seed: u64 = 0x2545_f491_4f6c_dd1d;
    let mut lines: Vec<String> = Vec::new();
    for _ in 0..2000 {
        seed ^= seed << 13;
        seed ^= seed >> 7;
        seed ^= seed << 17;
        lines.push(format!("{:x}", seed % 997));
    }
    let mut expected = lines.clone();
    expected.sort();
    assert_eq!(sort_heap(lines, Order::Asc), expected);
}

#[test]
fn sort_by_column_agrees_with_an_ordered_map() {
    let lines = sample_lines();
    for column in 0..5usize {
        for delimiter in [None, Some(","), Some("--"), Some(" "), Some(""), Some("a")] {
            for order in [Order::Asc, Order::Desc] {
                assert_eq!(
                    sort_btree(lines.clone(), order, column, delimiter.map(|d| d.to_string())),
                    by_map(&lines, order, column, delimiter),
                    "column {} delimiter {:?}",
                    column,
                    delimiter
                );
            }
        }
    }
}

#[test]
fn line_with_fewer_fields_is_its_own_key() {
    assert_eq!(sort_key("one two", 3, None), "one two");
    assert_eq!(sort_key("a,b", 3, Some(",")), "a,b");
    assert_eq!(
        sort_btree(text_lines(&["b 1", "a", "c 0"]), Order::Asc, 2, None),
        text_lines(&["c 0", "b 1", "a"])
    );
}

#[test]
fn column_zero_takes_the_whole_line() {
    assert_eq!(sort_key("one two", 0, None), "one two");
    assert_eq!(sort_key("a,b", 0, Some(",")), "a,b");
}

#[test]
fn key_is_the_field_of_the_column() {
    assert_eq!(sort_key("one two three", 1, None), "one");
    assert_eq!(sort_key("one two three", 2, None), "two");
    assert_eq!(sort_key("one two three", 3, None), "three");
    assert_eq!(sort_key("  one \t two  ", 2, None), "two");
    assert_eq!(sort_key("a,b,,c", 1, Some(",")), "a");
    assert_eq!(sort_key("a,b,,c", 3, Some(",")), "");
    assert_eq!(sort_key("a,b,,c", 4, Some(",")), "c");
    assert_eq!(sort_key(",a", 1, Some(",")), "");
    assert_eq!(sort_key("a,", 2, Some(",")), "");
}

#[test]
fn delimiter_of_several_characters() {
    assert_eq!(sort_key("aXXXb", 1, Some("XX")), "a");
    assert_eq!(sort_key("aXXXb", 2, Some("XX")), "Xb");
    assert_eq!(sort_key("aXXXb", 3, Some("XX")), "aXXXb");
    assert_eq!(sort_key("XXXX", 3, Some("XX")), "");
    assert_eq!(sort_key("abc", 1, Some("abcd")), "abc");
}

#[test]
fn empty_delimiter_splits_between_characters() {
    assert_eq!(sort_key("abc", 1, Some("")), "");
    assert_eq!(sort_key("abc", 2, Some("")), "a");
    assert_eq!(sort_key("abc", 4, Some("")), "c");
    assert_eq!(sort_key("abc", 5, Some("")), "");
    assert_eq!(sort_key("abc", 6, Some("")), "abc");
    assert_eq!(sort_key("", 2, Some("")), "");
    assert_eq!(sort_key("", 3, Some("")), "");
}

#[test]
fn key_agrees_with_the_standard_split() {
    for line in sample_lines() {
        for column in 0..7usize {
            for delimiter in [None, Some(","), Some("--"), Some(" "), Some(""), Some("a"), Some("\u{e9}")] {
                assert_eq!(
                    sort_key(&line, column, delimiter),
                    field_key(&line, column, delimiter),
                    "line {:?} column {} delimiter {:?}",
                    line,
                    column,
                    delimiter
                );
            }
        }
    }
}

#[test]
fn key_of_text_beyond_ascii() {
    assert_eq!(sort_key("\u{e9}t\u{e9} \u{1F600}\u{3000}z", 2, None), "\u{1F600}");
    assert_eq!(sort_key("\u{e9}t\u{e9} \u{1F600}\u{3000}z", 3, None), "z");
    assert_eq!(sort_key("a\u{2192}b\u{2192}c", 2, Some("\u{2192}")), "b");
}

#[test]
fn sorting_twice_changes_nothing() {
    let lines = sample_lines();
    for order in [Order::Asc, Order::Desc] {
        let once = sort(lines.clone(), order, None, None);
        assert_eq!(sort(once.clone(), order, None, None), once);
        for column in 1..4usize {
            for delimiter in [None, Some(",".to_string())] {
                let once = sort(lines.clone(), order, Some(column), delimiter.clone());
                assert_eq!(sort(once.clone(), order, Some(column), delimiter.clone()), once);
            }
        }
    }
}

#[test]
fn order_from_its_name() {
    assert_eq!(Order::from_str("asc"), Ok(Order::Asc));
    assert_eq!(Order::from_str("desc"), Ok(Order::Desc));
}

#[test]
fn order_from_another_name_is_invalid() {
    assert_eq!(Order::from_str("up"), Err(InvalidInput));
    assert_eq!(Order::from_str(""), Err(InvalidInput));
    assert_eq!(Order::from_str("ASC"), Err(InvalidInput));
    assert_eq!(Order::from_str("asc "), Err(InvalidInput));
    assert_eq!(Order::from_str("des"), Err(InvalidInput));
}
