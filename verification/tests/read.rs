use ctx::commands::read::{parse_line_range, read_block, read_content, IntError, LineRangeError};

#[test]
fn line_ranges() {
    assert_eq!(parse_line_range(&None), Ok((None, None)));
    assert_eq!(parse_line_range(&Some("7".to_string())), Ok((Some(7), Some(7))));
    assert_eq!(parse_line_range(&Some("10-20".to_string())), Ok((Some(10), Some(20))));
    assert_eq!(parse_line_range(&Some("+3-4".to_string())), Ok((Some(3), Some(4))));
}

#[test]
fn line_range_errors() {
    assert_eq!(parse_line_range(&Some("x".to_string())), Err(LineRangeError::Line(IntError::InvalidDigit)));
    assert_eq!(parse_line_range(&Some("".to_string())), Err(LineRangeError::Line(IntError::Empty)));
    assert_eq!(parse_line_range(&Some("-5".to_string())), Err(LineRangeError::Start(IntError::Empty)));
    assert_eq!(parse_line_range(&Some("5-".to_string())), Err(LineRangeError::End(IntError::Empty)));
    assert_eq!(parse_line_range(&Some("1-2-3".to_string())), Err(LineRangeError::Format));
    assert_eq!(
        parse_line_range(&Some("99999999999999999999999".to_string())),
        Err(LineRangeError::Line(IntError::PosOverflow))
    );
    assert_eq!(
        LineRangeError::Start(IntError::InvalidDigit).message(),
        "Invalid start line: invalid digit found in string"
    );
    assert_eq!(LineRangeError::Format.message(), "Invalid line range format. Use N or N-M");
}

#[test]
fn line_ranges_agree_with_str_parse() {
    for s in ["0", "18446744073709551615", "18446744073709551616", "+", "12a", "+12", "007", "", "\u{e9}"] {
        let expected: Result<usize, _> = s.parse::<usize>();
        let got = parse_line_range(&Some(s.to_string()));
        match expected {
            Ok(n) => assert_eq!(got, Ok((Some(n), Some(n)))),
            Err(e) => match got {
                Err(LineRangeError::Line(k)) => assert_eq!(k.message(), e.to_string()),
                other => panic!("unexpected {:?}", other),
            },
        }
    }
}

#[test]
fn reading_a_window() {
    let content = "one\ntwo\nthree\nfour\n";
    assert_eq!(
        read_block("f.txt", content, Some(2), Some(3), &None, false),
        "=== f.txt (lines 2-3 of 4) ===\n   2 two\n   3 three\n"
    );
    assert_eq!(
        read_block("f.txt", content, None, None, &Some("o".to_string()), true),
        "=== f.txt (lines 1-4 of 4) ===\n   1 one\n   2 two\n   4 four\n\n"
    );
    assert_eq!(
        read_block("f.txt", content, Some(0), Some(99), &None, false),
        "=== f.txt (lines 1-4 of 4) ===\n   1 one\n   2 two\n   3 three\n   4 four\n"
    );
}

#[test]
fn content_or_skeleton() {
    assert_eq!(read_content("notes.txt", "hello", true), "hello");
    assert_eq!(read_content("a.rs", "fn a() {}\n", false), "fn a() {}\n");
}
