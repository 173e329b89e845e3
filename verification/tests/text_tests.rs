use carrot_utils::text::{
    chars_of, is_white_space, lines, parse_unsigned, push_decimal, string_of, words, IntErrorKind,
};

fn line_strings(text: &str) -> Vec<String> {
    lines(text).iter().map(|l| l.iter().collect()).collect()
}

#[test]
fn lines_split_at_newlines_and_crlf() {
    assert_eq!(line_strings("a\nb\r\nc"), vec!["a", "b", "c"]);
}

#[test]
fn lines_ignore_final_line_ending() {
    assert_eq!(line_strings("a\n"), vec!["a"]);
    assert_eq!(line_strings("a\r\n"), vec!["a"]);
    assert_eq!(line_strings("a"), vec!["a"]);
}

#[test]
fn lines_of_empty_text_and_lone_newline() {
    assert_eq!(line_strings(""), Vec::<String>::new());
    assert_eq!(line_strings("\n"), vec![""]);
    assert_eq!(line_strings("\n\n"), vec!["", ""]);
}

#[test]
fn lines_keep_lone_carriage_return() {
    assert_eq!(line_strings("a\r"), vec!["a\r"]);
    assert_eq!(line_strings("a\rb\n"), vec!["a\rb"]);
}

#[test]
fn lines_agree_with_std() {
    for t in ["x\ny\n", "x\r\n\r\ny", "\r\n", "a\n\nb\n\n", "tail\r"] {
        let std_lines: Vec<String> = t.lines().map(|l| l.to_string()).collect();
        assert_eq!(line_strings(t), std_lines);
    }
}

#[test]
fn words_split_at_whitespace_with_utf8_widths() {
    let (ws, widths) = words("  aa\tbé \n c ");
    let ws: Vec<String> = ws.iter().map(|w| w.iter().collect()).collect();
    assert_eq!(ws, vec!["aa", "bé", "c"]);
    assert_eq!(widths, vec![2, 3, 1]);
}

#[test]
fn words_agree_with_std() {
    let t = "one\u{A0}two\u{3000}three  four\r\nfive";
    let (ws, widths) = words(t);
    let ws: Vec<String> = ws.iter().map(|w| w.iter().collect()).collect();
    let expected: Vec<String> = t.split_whitespace().map(|w| w.to_string()).collect();
    assert_eq!(ws, expected);
    let lens: Vec<usize> = expected.iter().map(|w| w.len()).collect();
    assert_eq!(widths, lens);
}

#[test]
fn words_of_blank_text() {
    let (ws, widths) = words(" \t\n ");
    assert!(ws.is_empty());
    assert!(widths.is_empty());
}

#[test]
fn chars_and_strings_round_trip() {
    let cs = chars_of("héllo");
    assert_eq!(cs.len(), 5);
    assert_eq!(string_of(&cs), "héllo");
}

#[test]
fn decimal_numbers() {
    let mut s = String::new();
    push_decimal(&mut s, 0);
    assert_eq!(s, "0");
    let mut s = String::from("n=");
    push_decimal(&mut s, 1234);
    assert_eq!(s, "n=1234");
}

#[test]
fn parse_plain_and_signed_numbers() {
    assert_eq!(parse_unsigned("42", usize::MAX), Ok(42));
    assert_eq!(parse_unsigned("+7", usize::MAX), Ok(7));
    assert_eq!(parse_unsigned("007", usize::MAX), Ok(7));
    assert_eq!(parse_unsigned("65535", 65535), Ok(65535));
}

#[test]
fn parse_errors() {
    assert_eq!(parse_unsigned("", usize::MAX), Err(IntErrorKind::Empty));
    assert_eq!(parse_unsigned("+", usize::MAX), Err(IntErrorKind::InvalidDigit));
    assert_eq!(parse_unsigned("-1", usize::MAX), Err(IntErrorKind::InvalidDigit));
    assert_eq!(parse_unsigned("12a", usize::MAX), Err(IntErrorKind::InvalidDigit));
    assert_eq!(parse_unsigned(" 1", usize::MAX), Err(IntErrorKind::InvalidDigit));
    assert_eq!(parse_unsigned("65536", 65535), Err(IntErrorKind::PosOverflow));
    assert_eq!(
        parse_unsigned("99999999999999999999999", usize::MAX),
        Err(IntErrorKind::PosOverflow)
    );
}

#[test]
fn parse_agrees_with_std() {
    for t in ["0", "+0", "1", "65535", "65536", "", "+", "-", "1_0", "x", "+12"] {
        let ours = parse_unsigned(t, 65535).map(|n| n as u16);
        let theirs = t.parse::<u16>().map_err(|e| format!("{:?}", e.kind()));
        match (ours, theirs) {
            (Ok(a), Ok(b)) => assert_eq!(a, b),
            (Err(a), Err(b)) => assert_eq!(format!("{:?}", a), b),
            (a, b) => panic!("{t}: {a:?} vs {b:?}"),
        }
    }
}

#[test]
fn decimal_reads_back() {
    for n in [0usize, 9, 10, 99, 100, 65535, 123456789] {
        let mut s = String::new();
        push_decimal(&mut s, n);
        assert_eq!(parse_unsigned(&s, usize::MAX), Ok(n));
    }
}

#[test]
fn white_space_agrees_with_std() {
    for u in 0u32..=0x10FFFF {
        if let Some(c) = char::from_u32(u) {
            assert_eq!(is_white_space(c), c.is_whitespace(), "U+{u:04X}");
        }
    }
}
