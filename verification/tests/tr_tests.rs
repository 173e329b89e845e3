use std::collections::HashMap;

use carrot_utils::tr::{
    chtext, index_chars, index_lines, parse_tr_args, value_count, ChtextError, TrArgError,
};

fn sv(xs: &[&str]) -> Vec<String> {
    xs.iter().map(|x| x.to_string()).collect()
}

fn run(text: &str, swcs: &[&str], vals: &[&str], line_number: bool) -> (String, Option<ChtextError>) {
    let r = chtext(index_lines(text), index_chars(text), line_number, &sv(swcs), &sv(vals));
    (r.output, r.error)
}

#[test]
fn index_lines_maps_positions_to_lines() {
    let m = index_lines("x\ny\r\n");
    assert_eq!(m.len(), 2);
    assert_eq!(m[&0], "x");
    assert_eq!(m[&1], "y");
    assert!(index_lines("").is_empty());
}

#[test]
fn index_chars_maps_positions_to_chars() {
    let m = index_chars("aé\n");
    assert_eq!(m.len(), 3);
    assert_eq!(m[&0], "a");
    assert_eq!(m[&1], "é");
    assert_eq!(m[&2], "\n");
}

#[test]
fn top_prints_first_lines() {
    assert_eq!(run("x\ny\nz", &["t"], &["2"], false), ("x\ny\n".to_string(), None));
    assert_eq!(run("x\ny\nz", &["top"], &["3"], false), ("x\ny\nz\n".to_string(), None));
}

#[test]
fn top_with_line_numbers() {
    assert_eq!(run("x\ny\nz", &["t"], &["2"], true), ("1: x\n2: y\n".to_string(), None));
}

#[test]
fn reverse_prints_all_lines_last_first() {
    assert_eq!(run("x\ny\nz", &["r"], &[""], false), ("z\ny\nx\n".to_string(), None));
    assert_eq!(run("x\ny\nz", &["r"], &[""], true), ("1: z\n2: y\n3: x\n".to_string(), None));
}

#[test]
fn bottom_prints_down_to_the_count() {
    // Positions from the last one down to count - 1.
    assert_eq!(run("x\ny\nz", &["b"], &["2"], false), ("z\ny\n".to_string(), None));
    assert_eq!(run("x\ny\nz", &["bottom"], &["1"], false), ("z\ny\nx\n".to_string(), None));
}

#[test]
fn characters_from_either_end() {
    assert_eq!(run("abc", &["T"], &["2"], false), ("ab".to_string(), None));
    assert_eq!(run("abc", &["R"], &[""], false), ("cba".to_string(), None));
    assert_eq!(run("abc", &["B"], &["3"], true), ("c".to_string(), None));
    assert_eq!(run("abc", &["reverse-char"], &[""], false), ("cba".to_string(), None));
}

#[test]
fn switches_run_in_order() {
    assert_eq!(
        run("x\ny", &["t", "l", "T"], &["1", "", "2"], false),
        ("x\nx\n".to_string(), None)
    );
}

#[test]
fn zero_count_is_refused() {
    assert_eq!(run("x\ny", &["t", "t"], &["1", "0"], false), ("x\n".to_string(), Some(ChtextError::ZeroValue)));
    assert_eq!(run("x", &["w"], &["0"], false), (String::new(), Some(ChtextError::ZeroValue)));
}

#[test]
fn too_large_counts_are_refused() {
    assert_eq!(run("x\ny", &["t"], &["3"], false), (String::new(), Some(ChtextError::TooManyLines)));
    assert_eq!(run("xy", &["T"], &["3"], false), (String::new(), Some(ChtextError::TooManyChars)));
    assert_eq!(run("", &["r"], &[""], false), (String::new(), Some(ChtextError::TooManyLines)));
}

#[test]
fn missing_entry_is_reported() {
    let mut lines = HashMap::new();
    lines.insert(0usize, "x".to_string());
    lines.insert(5usize, "y".to_string());
    let r = chtext(lines.clone(), HashMap::new(), false, &sv(&["r"]), &sv(&[""]));
    assert_eq!(r.output, "");
    assert_eq!(r.error, Some(ChtextError::MissingEntry));
    let r = chtext(lines, HashMap::new(), false, &sv(&["t"]), &sv(&["2"]));
    assert_eq!(r.output, "x\n");
    assert_eq!(r.error, Some(ChtextError::MissingEntry));
}

#[test]
fn indexed_maps_never_miss_an_entry() {
    for text in ["", "a", "a\nb", "ab\ncd\nef\n"] {
        for (s, v) in [("r", ""), ("R", ""), ("t", "1"), ("T", "2"), ("b", "1"), ("B", "1"), ("bottom-char", "2")] {
            let (_, e) = run(text, &[s], &[v], false);
            assert_ne!(e, Some(ChtextError::MissingEntry));
        }
    }
}

#[test]
fn long_reverse_prints_like_r() {
    for text in ["a\nb\nc", "x", "p\r\nq\n"] {
        assert_eq!(run(text, &["reverse"], &[""], false), run(text, &["r"], &[""], false));
        assert_eq!(run(text, &["reverse"], &[""], true), run(text, &["r"], &[""], true));
    }
    assert_eq!(run("a\nb\nc", &["reverse"], &[""], false), ("c\nb\na\n".to_string(), None));
    assert_eq!(run("", &["reverse"], &[""], false), (String::new(), Some(ChtextError::TooManyLines)));
}

#[test]
fn numbers_count_printed_lines() {
    assert_eq!(run("a\nb\nc", &["r"], &[""], true), ("1: c\n2: b\n3: a\n".to_string(), None));
    assert_eq!(run("a\nb\nc", &["b"], &["2"], true), ("1: c\n2: b\n".to_string(), None));
    assert_eq!(run("a\nb\nc", &["t", "r"], &["1", ""], true), ("1: a\n1: c\n2: b\n3: a\n".to_string(), None));
}

#[test]
fn several_switches_print_in_turn() {
    let text = "a\nb\nc";
    let list: [(&str, &str); 5] = [("t", "2"), ("l", ""), ("R", ""), ("b", "3"), ("T", "1")];
    let mut expected = String::new();
    for (s, v) in list {
        expected.push_str(&run(text, &[s], &[v], true).0);
    }
    let swcs: Vec<&str> = list.iter().map(|p| p.0).collect();
    let vals: Vec<&str> = list.iter().map(|p| p.1).collect();
    assert_eq!(run(text, &swcs, &vals, true), (expected, None));
    assert_eq!(run(text, &["t", "t", "r"], &["1", "9", ""], false), ("a\n".to_string(), Some(ChtextError::TooManyLines)));
}

#[test]
fn counts_of_values() {
    assert_eq!(value_count(&"12".to_string()), 12);
    assert_eq!(value_count(&"".to_string()), 1);
    assert_eq!(value_count(&"x".to_string()), 1);
}

#[test]
fn tr_args() {
    assert_eq!(parse_tr_args(&sv(&["t", "l"]), &sv(&["3", ""]), 1, true), Ok(true));
    assert_eq!(parse_tr_args(&sv(&["line-number"]), &sv(&[""]), 1, true), Ok(false));
    assert_eq!(parse_tr_args(&sv(&["w"]), &sv(&["9"]), 1, true), Ok(false));
    assert_eq!(parse_tr_args(&sv(&["t", "q"]), &sv(&["1", ""]), 1, true), Err(TrArgError::UnknownSwitch(1)));
    assert_eq!(parse_tr_args(&sv(&["R"]), &sv(&["1"]), 1, true), Err(TrArgError::ValueNotAllowed(0)));
    assert_eq!(parse_tr_args(&sv(&["bottom"]), &sv(&[""]), 1, true), Err(TrArgError::ValueRequired(0)));
    assert_eq!(parse_tr_args(&sv(&["r"]), &sv(&[""]), 0, true), Err(TrArgError::NoInput));
}
