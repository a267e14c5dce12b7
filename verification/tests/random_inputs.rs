use linekit::{head, pass_to_stdout, skip, sort_btree, sort_heap, sort_key, tail, uniq, wc, Order};
use std::collections::{BTreeMap, BTreeSet};

struct Source {
    state: u64,
}

impl Source {
    fn next(&mut self, below: usize) -> usize {
        self.state ^= self.state << 13;
        self.state ^= self.state >> 7;
        self.state ^= self.state << 17;
        (self.state % below as u64) as usize
    }

    fn line(&mut self) -> String {
        let alphabet = ['a', 'b', 'c', ' ', ' ', '\t', ',', ',', '-', '\u{e9}', '\u{1F600}', '\u{3000}', 'Z', '0'];
        let length = self.next(9);
        (0..length).map(|_| alphabet[self.next(alphabet.len())]).collect()
    }

    fn lines(&mut self) -> Vec<String> {
        let length = self.next(12);
        (0..length).map(|_| self.line()).collect()
    }
}

fn split_key(line: &str, column: usize, delimiter: Option<&str>) -> String {
    let fields: Vec<&str> = match delimiter {
        None => line.split_whitespace().collect(),
        Some(d) => line.split(d).collect(),
    };
    if 1 <= column && column <= fields.len() {
        fields[column - 1].to_string()
    } else {
        line.to_string()
    }
}

#[test]
fn random_lines_sort_as_the_standard_sort_does() {
    let mut source = Source { state: 0x9e37_79b9_7f4a_7c15 };
    for _ in 0..500 {
        let lines = source.lines();
        let mut expected = lines.clone();
        expected.sort();
        assert_eq!(sort_heap(lines.clone(), Order::Asc), expected);
        expected.reverse();
        assert_eq!(sort_heap(lines, Order::Desc), expected);
    }
}

#[test]
fn random_lines_are_distinct_as_in_an_ordered_set() {
    let mut source = Source { state: 0x1234_5678_9abc_def1 };
    for _ in 0..500 {
        let lines = source.lines();
        let expected: Vec<String> = lines.iter().cloned().collect::<BTreeSet<String>>().into_iter().collect();
        assert_eq!(uniq(lines), expected);
    }
}

#[test]
fn random_lines_sort_by_key_as_in_an_ordered_map() {
    let mut source = Source { state: 0x0fed_cba9_8765_4321 };
    let delimiters = [None, Some(","), Some(" "), Some("-"), Some(",,"), Some("a"), Some(""), Some("\u{e9}")];
    for _ in 0..500 {
        let lines = source.lines();
        let column = source.next(5);
        let delimiter = delimiters[source.next(delimiters.len())];
        let mut map: BTreeMap<String, String> = BTreeMap::new();
        for line in &lines {
            map.insert(split_key(line, column, delimiter), line.clone());
        }
        let ascending: Vec<String> = map.values().cloned().collect();
        let descending: Vec<String> = map.values().rev().cloned().collect();
        assert_eq!(sort_btree(lines.clone(), Order::Asc, column, delimiter.map(|d| d.to_string())), ascending);
        assert_eq!(sort_btree(lines, Order::Desc, column, delimiter.map(|d| d.to_string())), descending);
    }
}

#[test]
fn random_keys_are_the_fields_of_the_standard_split() {
    let mut source = Source { state: 0x7777_1111_3333_5555 };
    let delimiters = [None, Some(","), Some(" "), Some("-"), Some(",,"), Some("ab"), Some(""), Some("\u{1F600}")];
    for _ in 0..2000 {
        let line = source.line();
        let column = source.next(12);
        let delimiter = delimiters[source.next(delimiters.len())];
        assert_eq!(
            sort_key(&line, column, delimiter),
            split_key(&line, column, delimiter),
            "line {:?} column {} delimiter {:?}",
            line,
            column,
            delimiter
        );
    }
}

#[test]
fn random_lines_are_cut_as_slices_are() {
    let mut source = Source { state: 0x2468_ace0_1357_9bdf };
    for _ in 0..500 {
        let lines = source.lines();
        let count = source.next(15);
        let first = count.min(lines.len());
        assert_eq!(head(lines.clone(), count)[..], lines[..first]);
        assert_eq!(skip(lines.clone(), count)[..], lines[first..]);
        assert_eq!(tail(lines.clone(), count)[..], lines[lines.len() - first..]);
    }
}

#[test]
fn random_lines_are_counted_as_the_standard_library_counts() {
    let mut source = Source { state: 0x0bad_cafe_dead_beef };
    for _ in 0..500 {
        let lines = source.lines();
        let words: usize = lines.iter().map(|line| line.split_whitespace().count()).sum();
        let bytes: usize = lines.iter().map(|line| line.len()).sum();
        assert_eq!(wc(&lines), format!("{} {} {}", lines.len(), words, bytes));
    }
}

#[test]
fn random_lines_are_written_each_with_a_line_feed() {
    let mut source = Source { state: 0x5151_5151_aaaa_0001 };
    for _ in 0..200 {
        let lines = source.lines();
        let expected: String = lines.iter().map(|line| format!("{}\n", line)).collect();
        assert_eq!(pass_to_stdout(&lines), expected);
    }
}
