use linekit::{input_limit, pass_to_stdout, run, Command, InvalidInput, Options, Order};

fn input_lines(lines: &[&str]) -> Vec<String> {
    lines.iter().map(|line| line.to_string()).collect()
}

fn no_options() -> Options {
    Options { lines: None, column: None, delimiter: None, order: None }
}

#[test]
fn command_from_its_name() {
    assert_eq!(Command::from_str("sort"), Ok(Command::Sort));
    assert_eq!(Command::from_str("head"), Ok(Command::Head));
    assert_eq!(Command::from_str("skip"), Ok(Command::Skip));
    assert_eq!(Command::from_str("tail"), Ok(Command::Tail));
    assert_eq!(Command::from_str("uniq"), Ok(Command::Uniq));
    assert_eq!(Command::from_str("wc"), Ok(Command::Wc));
}

#[test]
fn command_from_another_name_is_invalid() {
    assert_eq!(Command::from_str("cat"), Err(InvalidInput));
    assert_eq!(Command::from_str(""), Err(InvalidInput));
    assert_eq!(Command::from_str("Sort"), Err(InvalidInput));
    assert_eq!(Command::from_str("wc "), Err(InvalidInput));
}

#[test]
fn output_ends_every_line_with_a_line_feed() {
    assert_eq!(pass_to_stdout(&input_lines(&["a", "", "b c"])), "a\n\nb c\n");
}

#[test]
fn output_of_no_lines_is_empty() {
    assert_eq!(pass_to_stdout(&Vec::new()), "");
}

#[test]
fn run_head() {
    let options = Options { lines: Some(2), ..no_options() };
    assert_eq!(run(Command::Head, input_lines(&["a", "b", "c"]), options), "a\nb\n");
}

#[test]
fn run_skip() {
    let options = Options { lines: Some(2), ..no_options() };
    assert_eq!(run(Command::Skip, input_lines(&["a", "b", "c"]), options), "c\n");
}

#[test]
fn run_tail() {
    let options = Options { lines: Some(2), ..no_options() };
    assert_eq!(run(Command::Tail, input_lines(&["a", "b", "c"]), options), "b\nc\n");
}

#[test]
fn run_without_a_count_takes_zero() {
    assert_eq!(run(Command::Head, input_lines(&["a", "b"]), no_options()), "");
    assert_eq!(run(Command::Tail, input_lines(&["a", "b"]), no_options()), "");
    assert_eq!(run(Command::Skip, input_lines(&["a", "b"]), no_options()), "a\nb\n");
}

#[test]
fn run_uniq() {
    assert_eq!(run(Command::Uniq, input_lines(&["b", "a", "b"]), no_options()), "a\nb\n");
}

#[test]
fn run_wc_writes_no_line_feed() {
    assert_eq!(run(Command::Wc, input_lines(&["a b", "c"]), no_options()), "2 3 4");
}

#[test]
fn run_sort_is_ascending_without_an_order() {
    assert_eq!(run(Command::Sort, input_lines(&["b", "a", "a"]), no_options()), "a\na\nb\n");
}

#[test]
fn run_sort_descending() {
    let options = Options { order: Some(Order::Desc), ..no_options() };
    assert_eq!(run(Command::Sort, input_lines(&["b", "c", "a"]), options), "c\nb\na\n");
}

#[test]
fn run_sort_by_column() {
    let options = Options { column: Some(1), delimiter: Some(",".to_string()), ..no_options() };
    assert_eq!(run(Command::Sort, input_lines(&["2,x", "1,y", "1,z"]), options), "1,z\n2,x\n");
}

#[test]
fn only_head_can_do_with_a_part_of_the_input() {
    let options = Options { lines: Some(3), ..no_options() };
    assert_eq!(input_limit(Command::Head, &options), Some(3));
    assert_eq!(input_limit(Command::Head, &no_options()), Some(0));
    for command in [Command::Sort, Command::Skip, Command::Tail, Command::Uniq, Command::Wc] {
        assert_eq!(input_limit(command, &options), None);
    }
}

#[test]
fn head_of_the_needed_part_is_head_of_all() {
    let lines = input_lines(&["a", "b", "c", "d", "e"]);
    for count in 0..7usize {
        let options = Options { lines: Some(count), ..no_options() };
        let limit = input_limit(Command::Head, &options).unwrap();
        let part: Vec<String> = lines.iter().take(limit).cloned().collect();
        assert_eq!(run(Command::Head, part, options.clone()), run(Command::Head, lines.clone(), options));
    }
}
