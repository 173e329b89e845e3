use std::collections::HashMap;

use carrot_utils::case::{change_case, parse_case_args, CaseArgError};
use carrot_utils::col::{columnize, parse_col_args, ColArgError, ColumnizeError};
use carrot_utils::count::{index_chars, index_lines, parse_count_args, printline, CountActions, CountArgError};
use carrot_utils::cut::{do_the_magic, parse_cut_args, CutArgError};
use carrot_utils::seek::{parse_seek_args, seek_source, seek_step, SeekArgError, SeekOptions, SeekSource};
use carrot_utils::shrink::{check_shrink_args, shrink, ShrinkArgError};
use carrot_utils::split::{empties_first, needs_confirmation, parse_tee_args, TeeArgError, TeeOptions};
use carrot_utils::text::IntErrorKind;

fn sv(xs: &[&str]) -> Vec<String> {
    xs.iter().map(|x| x.to_string()).collect()
}

// ---------------------------------------------------------------- case

#[test]
fn change_case_upper_and_lower() {
    assert_eq!(change_case("Hello, World".to_string(), 0), "HELLO, WORLD");
    assert_eq!(change_case("Hello, World".to_string(), 1), "hello, world");
    assert_eq!(change_case("Hello".to_string(), 7), "hello");
}

#[test]
fn change_case_expands_sharp_s() {
    assert_eq!(change_case("tschüß".to_string(), 0), "TSCHÜSS");
}

#[test]
fn case_args() {
    assert_eq!(parse_case_args(&sv(&["l"]), &sv(&[""]), 1, true), Ok(1));
    assert_eq!(parse_case_args(&sv(&["uppercase"]), &sv(&[""]), 0, false), Ok(0));
    assert_eq!(parse_case_args(&sv(&["l", "u"]), &sv(&["", ""]), 1, true), Err(CaseArgError::TooManySwitches));
    assert_eq!(parse_case_args(&sv(&["x"]), &sv(&[""]), 1, true), Err(CaseArgError::UnknownSwitch));
    assert_eq!(parse_case_args(&sv(&["up"]), &sv(&["1"]), 1, true), Err(CaseArgError::ValueNotAccepted));
    assert_eq!(parse_case_args(&sv(&["low"]), &sv(&[""]), 0, true), Err(CaseArgError::NoInput));
}

// ---------------------------------------------------------------- col

#[test]
fn columnize_one_row() {
    assert_eq!(columnize("aa b ccc", 12), Ok("aa  b   ccc\n\n".to_string()));
    assert_eq!(columnize("aa b ccc", 13), Ok("aa  b   ccc\n\n".to_string()));
}

#[test]
fn columnize_two_per_row() {
    assert_eq!(columnize("aa b ccc", 8), Ok("aa  b\nccc \n".to_string()));
    assert_eq!(columnize("aa b ccc dd", 8), Ok("aa  b\nccc dd\n\n".to_string()));
    assert_eq!(columnize("aa b ccc", 6), Ok("aa\nb\nccc\n\n".to_string()));
}

#[test]
fn columnize_too_narrow() {
    assert_eq!(columnize("aaaa b", 4), Err(ColumnizeError::TooNarrow));
    assert_eq!(columnize("", 0), Err(ColumnizeError::TooNarrow));
}

#[test]
fn columnize_counts_utf8_bytes() {
    // "é" is two bytes wide, so each column is three bytes wide.
    assert_eq!(columnize("é a", 10), Ok("é a  \n".to_string()));
}

#[test]
fn columnize_without_words() {
    assert_eq!(columnize("", 80), Ok("\n".to_string()));
    assert_eq!(columnize(" \n\t", 80), Ok("\n".to_string()));
    assert_eq!(columnize("ab", 3), Ok("ab\n\n".to_string()));
}

#[test]
fn columnize_fits_exactly_when_longest_word_fits() {
    assert_eq!(columnize("abcd ef", 5), Ok("abcd\nef\n\n".to_string()));
    assert_eq!(columnize("abcd ef", 4), Err(ColumnizeError::TooNarrow));
}

#[test]
fn columnize_rows_fit_the_width() {
    let text = "aaaaa bbbbb c dd eee ffff gggggg h ii jjj\nkk llll";
    for width in 7u16..40 {
        let out = columnize(text, width).unwrap();
        for line in out.split('\n') {
            assert!(line.len() <= width as usize, "{width}: {line:?}");
        }
        let words: Vec<&str> = out.split_whitespace().collect();
        assert_eq!(words, text.split_whitespace().collect::<Vec<_>>());
    }
    assert_eq!(columnize("aaaaa bbbbb", 10), Ok("aaaaa\nbbbbb\n\n".to_string()));
}

#[test]
fn col_args() {
    assert_eq!(parse_col_args(&sv(&[]), &sv(&[]), 80, 1, true), Ok(80));
    assert_eq!(parse_col_args(&sv(&["w", "width"]), &sv(&["10", "20"]), 80, 1, true), Ok(20));
    assert_eq!(parse_col_args(&sv(&["x"]), &sv(&["1"]), 80, 1, true), Err(ColArgError::UnknownSwitch(0)));
    assert_eq!(parse_col_args(&sv(&["w"]), &sv(&[""]), 80, 1, true), Err(ColArgError::ValueRequired(0)));
    assert_eq!(
        parse_col_args(&sv(&["w", "w"]), &sv(&["5", "70000"]), 80, 1, true),
        Err(ColArgError::BadWidth(1, IntErrorKind::PosOverflow))
    );
    assert_eq!(parse_col_args(&sv(&["w"]), &sv(&["5"]), 80, 0, true), Err(ColArgError::NoInput));
}

// ---------------------------------------------------------------- count

#[test]
fn printline_numbers_lines() {
    assert_eq!(printline("a\nb"), "1: a\n2: b\n");
    assert_eq!(printline(""), "");
    assert_eq!(printline("x\r\n\ny\n"), "1: x\n2: \n3: y\n");
}

#[test]
fn printline_prints_one_line_per_counted_line() {
    for t in ["", "a", "a\n", "a\n\nb", "1\r\n2\r\n3", "\n\n\n"] {
        let listing = printline(t);
        assert_eq!(listing.matches('\n').count(), index_lines(t));
    }
}

#[test]
fn counts() {
    assert_eq!(index_lines("a\nb\n"), 2);
    assert_eq!(index_lines(""), 0);
    assert_eq!(index_lines("\n"), 1);
    assert_eq!(index_chars("héllo"), 5);
    assert_eq!(index_chars(""), 0);
}

#[test]
fn count_args() {
    assert_eq!(
        parse_count_args(&sv(&["p", "chars"]), &sv(&["", ""]), 1, true),
        Ok(CountActions { print: true, lines: false, chars: true })
    );
    assert_eq!(parse_count_args(&sv(&["p"]), &sv(&["1"]), 1, true), Err(CountArgError::ValueNotAccepted));
    assert_eq!(parse_count_args(&sv(&["l", "q"]), &sv(&["", ""]), 1, true), Err(CountArgError::UnknownSwitch(1)));
    assert_eq!(parse_count_args(&sv(&[]), &sv(&[]), 1, true), Err(CountArgError::NoAction));
    assert_eq!(parse_count_args(&sv(&["lines"]), &sv(&[""]), 0, true), Err(CountArgError::NoInput));
}

// ---------------------------------------------------------------- cut

#[test]
fn magic_report() {
    assert_eq!(do_the_magic("abc", &" ".to_string(), &None, Some(2)), "Doing the magic for the text: abc");
}

#[test]
fn cut_args() {
    let o = parse_cut_args(&sv(&["sep", "x"]), &sv(&[",", "3"]), 1, true).unwrap();
    assert_eq!(o.separator, ",");
    assert_eq!(o.replace, None);
    assert_eq!(o.step, Some(3));
    let o = parse_cut_args(&sv(&["r"]), &sv(&["-"]), 1, true).unwrap();
    assert_eq!(o.separator, " ");
    assert_eq!(o.replace, Some("-".to_string()));
    assert_eq!(parse_cut_args(&sv(&["q"]), &sv(&["1"]), 1, true).err(), Some(CutArgError::UnknownSwitch(0)));
    assert_eq!(parse_cut_args(&sv(&["step"]), &sv(&[""]), 1, true).err(), Some(CutArgError::ValueRequired(0)));
    assert_eq!(
        parse_cut_args(&sv(&["x"]), &sv(&["-3"]), 1, true).err(),
        Some(CutArgError::BadStep(0, IntErrorKind::InvalidDigit))
    );
    assert_eq!(parse_cut_args(&sv(&["s"]), &sv(&[";"]), 1, true).err(), Some(CutArgError::NothingToDo));
    assert_eq!(parse_cut_args(&sv(&["x"]), &sv(&["1"]), 0, true).err(), Some(CutArgError::NoInput));
}

// ---------------------------------------------------------------- seek

#[test]
fn seek_steps() {
    assert_eq!(seek_step(0, "a\nb"), (2, None));
    assert_eq!(seek_step(2, "a\nb\nc\n"), (3, Some("c".to_string())));
    assert_eq!(seek_step(3, "a\nb"), (3, None));
    assert_eq!(seek_step(0, ""), (0, None));
}

#[test]
fn seek_count_never_goes_down() {
    let mut seen = 0;
    for t in ["a", "a\nb", "a", "", "a\nb\nc"] {
        let (next, _) = seek_step(seen, t);
        assert!(next >= seen);
        assert!(next >= t.lines().count());
        seen = next;
    }
    assert_eq!(seen, 3);
}

#[test]
fn seek_args() {
    assert_eq!(
        parse_seek_args(&sv(&["l", "s"]), &sv(&["", "0.5"]), &vec![false, true]),
        Ok(SeekOptions { show_all: false, sleep_at: Some(1) })
    );
    assert_eq!(
        parse_seek_args(&sv(&[]), &sv(&[]), &vec![]),
        Ok(SeekOptions { show_all: true, sleep_at: None })
    );
    assert_eq!(parse_seek_args(&sv(&["q"]), &sv(&[""]), &vec![false]), Err(SeekArgError::UnknownSwitch(0)));
    assert_eq!(parse_seek_args(&sv(&["q"]), &sv(&["1"]), &vec![true]), Err(SeekArgError::ValueNotAccepted(0)));
    assert_eq!(parse_seek_args(&sv(&["full"]), &sv(&["1"]), &vec![true]), Err(SeekArgError::ValueNotAccepted(0)));
    assert_eq!(parse_seek_args(&sv(&["sleep"]), &sv(&["x"]), &vec![false]), Err(SeekArgError::BadSleep(0)));
}

#[test]
fn seek_sources() {
    assert_eq!(seek_source(0, true), Err(SeekArgError::NoSource));
    assert_eq!(seek_source(1, false), Err(SeekArgError::TooManySources));
    assert_eq!(seek_source(2, true), Err(SeekArgError::TooManySources));
    assert_eq!(seek_source(0, false), Ok(SeekSource::Pipe));
    assert_eq!(seek_source(1, true), Ok(SeekSource::File));
}

// ---------------------------------------------------------------- shrink

#[test]
fn shrink_rows() {
    assert_eq!(shrink(3, "abcdefg"), "abc\ndef\ng");
    assert_eq!(shrink(2, "abcdefg"), "ab\ncd\nef\ng");
    assert_eq!(shrink(0, "ab"), "a\nb\n");
    assert_eq!(shrink(1, "abcd"), "a\nb\nc\nd\n");
    assert_eq!(shrink(3, "héllo"), "hél\nlo");
}

#[test]
fn shrink_rows_hold_the_width() {
    let text = "abcdefghijklmnopqrstuvwxyz";
    for width in 1..30 {
        let out = shrink(width, text);
        let rows: Vec<&str> = out.split('\n').collect();
        for (i, row) in rows.iter().enumerate() {
            assert!(row.chars().count() <= width);
            if i + 1 < rows.len() {
                assert_eq!(row.chars().count(), width);
            }
        }
        assert_eq!(out.replace('\n', ""), text);
    }
}

#[test]
fn shrink_keeps_short_text() {
    assert_eq!(shrink(5, "abc"), "abc");
    assert_eq!(shrink(3, "abc"), "abc\n");
    assert_eq!(shrink(usize::MAX, "abc"), "abc");
}

#[test]
fn shrink_args() {
    assert_eq!(check_shrink_args(&sv(&[]), 2, true), Ok(()));
    assert_eq!(check_shrink_args(&sv(&[]), 1, false), Ok(()));
    assert_eq!(check_shrink_args(&sv(&["v"]), 2, true), Err(ShrinkArgError::SwitchGiven));
    assert_eq!(check_shrink_args(&sv(&[]), 1, true), Err(ShrinkArgError::MissingArguments));
}

// ---------------------------------------------------------------- split

#[test]
fn tee_args() {
    assert_eq!(
        parse_tee_args(&sv(&["a", "o"]), &sv(&["", ""]), 1, false),
        Ok(TeeOptions { update_if_exists: false, ask: true })
    );
    assert_eq!(
        parse_tee_args(&sv(&["o", "update"]), &sv(&["", ""]), 2, false),
        Ok(TeeOptions { update_if_exists: true, ask: false })
    );
    assert_eq!(parse_tee_args(&sv(&[]), &sv(&[]), 0, false), Err(TeeArgError::NoFiles));
    assert_eq!(parse_tee_args(&sv(&["a"]), &sv(&["1"]), 1, false), Err(TeeArgError::ValueNotAccepted));
    assert_eq!(parse_tee_args(&sv(&["a", "z"]), &sv(&["", ""]), 1, false), Err(TeeArgError::UnknownSwitch(1)));
    assert_eq!(parse_tee_args(&sv(&[]), &sv(&[]), 1, true), Err(TeeArgError::NoPipe));
}

#[test]
fn tee_file_decisions() {
    let ask = TeeOptions { update_if_exists: false, ask: true };
    let quiet = TeeOptions { update_if_exists: true, ask: false };
    assert!(needs_confirmation(true, ask));
    assert!(!needs_confirmation(false, ask));
    assert!(!needs_confirmation(true, quiet));
    assert!(empties_first(true, ask));
    assert!(!empties_first(false, ask));
    assert!(!empties_first(true, quiet));
}

#[test]
fn hashmap_type_is_std() {
    let m: HashMap<usize, String> = carrot_utils::tr::index_lines("q");
    assert_eq!(m.len(), 1);
}
