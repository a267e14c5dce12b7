use linekit::{head, skip, tail, Window};

fn owned_lines(lines: &[&str]) -> Vec<String> {
    lines.iter().map(|line| line.to_string()).collect()
}

#[test]
fn head_keeps_the_first_lines() {
    assert_eq!(head(owned_lines(&["a", "b", "c", "d"]), 2), owned_lines(&["a", "b"]));
}

#[test]
fn head_of_zero_is_empty() {
    assert_eq!(head(owned_lines(&["a", "b"]), 0), Vec::<String>::new());
}

#[test]
fn head_beyond_the_end_keeps_all() {
    assert_eq!(head(owned_lines(&["a", "b"]), 7), owned_lines(&["a", "b"]));
    assert_eq!(head(owned_lines(&["a", "b"]), 2), owned_lines(&["a", "b"]));
}

#[test]
fn head_of_nothing_is_nothing() {
    assert_eq!(head(Vec::new(), 3), Vec::<String>::new());
}

#[test]
fn head_length_is_the_smaller_of_count_and_length() {
    for length in 0..6usize {
        for count in 0..8usize {
            let lines: Vec<String> = (0..length).map(|i| format!("line {}", i)).collect();
            let out = head(lines.clone(), count);
            assert_eq!(out.len(), count.min(length));
            assert_eq!(out[..], lines[..count.min(length)]);
        }
    }
}

#[test]
fn skip_drops_the_first_lines() {
    assert_eq!(skip(owned_lines(&["a", "b", "c", "d"]), 1), owned_lines(&["b", "c", "d"]));
}

#[test]
fn skip_of_zero_keeps_all() {
    assert_eq!(skip(owned_lines(&["a", "b"]), 0), owned_lines(&["a", "b"]));
}

#[test]
fn skip_of_all_or_more_is_empty() {
    assert_eq!(skip(owned_lines(&["a", "b"]), 2), Vec::<String>::new());
    assert_eq!(skip(owned_lines(&["a", "b"]), 3), Vec::<String>::new());
    assert_eq!(skip(owned_lines(&["a", "b"]), usize::MAX), Vec::<String>::new());
}

#[test]
fn skip_length_is_what_is_left() {
    for length in 0..6usize {
        for count in 0..8usize {
            let lines: Vec<String> = (0..length).map(|i| format!("line {}", i)).collect();
            let out = skip(lines.clone(), count);
            assert_eq!(out.len(), length.saturating_sub(count));
            assert_eq!(out[..], lines[count.min(length)..]);
        }
    }
}

#[test]
fn tail_keeps_the_last_lines() {
    assert_eq!(tail(owned_lines(&["a", "b", "c", "d"]), 2), owned_lines(&["c", "d"]));
}

#[test]
fn tail_of_zero_is_empty() {
    assert_eq!(tail(owned_lines(&["a", "b", "c"]), 0), Vec::<String>::new());
}

#[test]
fn tail_beyond_the_start_keeps_all() {
    assert_eq!(tail(owned_lines(&["a", "b"]), 2), owned_lines(&["a", "b"]));
    assert_eq!(tail(owned_lines(&["a", "b"]), 9), owned_lines(&["a", "b"]));
}

#[test]
fn tail_length_is_the_smaller_of_count_and_length() {
    for length in 0..6usize {
        for count in 0..8usize {
            let lines: Vec<String> = (0..length).map(|i| format!("line {}", i)).collect();
            let out = tail(lines.clone(), count);
            assert_eq!(out.len(), count.min(length));
            assert_eq!(out[..], lines[length - count.min(length)..]);
        }
    }
}

#[test]
fn empty_lines_pass_through() {
    assert_eq!(head(owned_lines(&["", "x", ""]), 2), owned_lines(&["", "x"]));
    assert_eq!(skip(owned_lines(&["", "x", ""]), 1), owned_lines(&["x", ""]));
    assert_eq!(tail(owned_lines(&["", "x", ""]), 2), owned_lines(&["x", ""]));
}

#[test]
fn window_gives_up_the_oldest_line() {
    let mut window = Window::new(2);
    window.push("a".to_string());
    window.push("b".to_string());
    window.push("c".to_string());
    assert_eq!(window.into_lines(), owned_lines(&["b", "c"]));
}

#[test]
fn window_below_capacity_keeps_all() {
    let mut window = Window::new(3);
    window.push("a".to_string());
    assert_eq!(window.into_lines(), owned_lines(&["a"]));
}

#[test]
fn window_without_capacity_stays_empty() {
    let mut window = Window::new(0);
    window.push("a".to_string());
    window.push("b".to_string());
    assert_eq!(window.into_lines(), Vec::<String>::new());
}

#[test]
fn new_window_is_empty() {
    assert_eq!(Window::new(4).into_lines(), Vec::<String>::new());
}
