use org_processing::text::{
    chars_of, parse_signed, parse_unsigned, position_of, push_decimal, push_line,
    push_padded_left, same_text, split_lines, string_of, text_ends_with,
};

#[test]
fn chars_of_keeps_order() {
    assert_eq!(chars_of("ab"), vec!['a', 'b']);
    assert_eq!(chars_of(""), Vec::<char>::new());
    assert_eq!(string_of(&chars_of("héllo"), 1, 3), "él");
    assert_eq!(position_of(&chars_of("a:b:c"), ':'), 1);
    assert_eq!(position_of(&chars_of("abc"), ':'), 3);
}

#[test]
fn lines_are_split_at_line_feeds() {
    assert_eq!(split_lines("a\nb\n"), vec!["a", "b"]);
    assert_eq!(split_lines("a\nb"), vec!["a", "b"]);
    assert_eq!(split_lines("\na\n\nb"), vec!["", "a", "", "b"]);
    assert_eq!(split_lines(""), Vec::<String>::new());
    assert_eq!(split_lines("\n"), vec![""]);
    assert_eq!(split_lines("a\r\nb\r"), vec!["a", "b\r"]);
    assert_eq!(split_lines("a\r\r\n"), vec!["a\r"]);
}

#[test]
fn lines_agree_with_the_standard_library() {
    for text in ["", "a", "a\n", "\n\n", "a\r\nb", "x\ry\n", "a\n\r\nb\r", "\r\n"] {
        let expected: Vec<String> = text.lines().map(|l| l.to_string()).collect();
        assert_eq!(split_lines(text), expected, "{:?}", text);
    }
}

#[test]
fn unsigned_numbers() {
    assert_eq!(parse_unsigned("2021"), Some(2021));
    assert_eq!(parse_unsigned("007"), Some(7));
    assert_eq!(parse_unsigned("4294967295"), Some(4294967295));
    assert_eq!(parse_unsigned("4294967296"), None);
    assert_eq!(parse_unsigned("00000000000000000000001"), Some(1));
    assert_eq!(parse_unsigned(""), None);
    assert_eq!(parse_unsigned("12a"), None);
    assert_eq!(parse_unsigned("-1"), None);
    assert_eq!(parse_unsigned("١٢"), None);
}

#[test]
fn signed_numbers() {
    assert_eq!(parse_signed("-1"), Some(-1));
    assert_eq!(parse_signed("+15"), Some(15));
    assert_eq!(parse_signed("15"), Some(15));
    assert_eq!(parse_signed("9223372036854775807"), Some(i64::MAX));
    assert_eq!(parse_signed("9223372036854775808"), None);
    assert_eq!(parse_signed("-9223372036854775808"), Some(i64::MIN));
    assert_eq!(parse_signed("-9223372036854775809"), None);
    assert_eq!(parse_signed("-"), None);
    assert_eq!(parse_signed("+"), None);
    assert_eq!(parse_signed(""), None);
    assert_eq!(parse_signed(" 1"), None);
    assert_eq!(parse_signed("--1"), None);
}

#[test]
fn signed_numbers_agree_with_the_standard_library() {
    for text in ["0", "-0", "+0", "12", "-12", "1-2", "", "+", "99999999999999999999", "0x1"] {
        assert_eq!(parse_signed(text), text.parse::<i64>().ok(), "{:?}", text);
    }
}

#[test]
fn numbers_are_written_in_base_ten() {
    let mut out = String::from("n=");
    push_decimal(&mut out, 0);
    out.push(',');
    push_decimal(&mut out, 9);
    out.push(',');
    push_decimal(&mut out, 10);
    out.push(',');
    push_decimal(&mut out, 18446744073709551615);
    assert_eq!(out, "n=0,9,10,18446744073709551615");
}

#[test]
fn padding_fills_up_from_the_left() {
    let mut out = String::new();
    push_padded_left(&mut out, "0:15", 5);
    assert_eq!(out, " 0:15");
    push_padded_left(&mut out, "125:07", 5);
    assert_eq!(out, " 0:15125:07");
    push_padded_left(&mut out, "", 2);
    assert_eq!(out, " 0:15125:07  ");
    push_line(&mut out, "x");
    assert_eq!(out, " 0:15125:07  x\n");
}

#[test]
fn ends_and_sameness_agree_with_the_standard_library() {
    let texts = ["", "a", "ab", "ba", "abc", "bc", "c", "äbc", "bcä", "abcabc"];
    for a in texts {
        for b in texts {
            assert_eq!(text_ends_with(a, b), a.ends_with(b), "{a:?} {b:?}");
            assert_eq!(same_text(a, b), a == b, "{a:?} {b:?}");
        }
    }
}
