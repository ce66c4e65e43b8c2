use temporal_graph::text::{
    chars_of, is_whitespace, parse_signed, parse_unsigned, signed_text, tokens, unsigned_text,
    with_number,
};

fn chars(s: &str) -> Vec<char> {
    s.chars().collect()
}

fn words(s: &str) -> Vec<String> {
    tokens(&chars_of(s)).iter().map(|t| t.iter().collect()).collect()
}

#[test]
fn test_chars_of() {
    assert_eq!(chars_of(""), Vec::<char>::new());
    assert_eq!(chars_of("a é\u{3000}1"), vec!['a', ' ', 'é', '\u{3000}', '1']);
}

#[test]
fn test_whitespace_is_that_of_std() {
    let mut code: u32 = 0;
    while code <= 0x3100 {
        if let Some(c) = char::from_u32(code) {
            assert_eq!(is_whitespace(c), c.is_whitespace());
        }
        code += 1;
    }
    assert!(!is_whitespace('\u{10ffff}'));
    assert!(!is_whitespace('\u{feff}'));
    assert!(!is_whitespace('\u{200b}'));
}

#[test]
fn test_tokens_are_those_of_split_whitespace() {
    for line in [
        "",
        " ",
        "a",
        " a",
        "a ",
        "3 2  0 1 1 5  1 2 1 10",
        "\t7 6\u{a0}0 3\r\n2 ",
        "x\u{2003}\u{2003}yy\u{3000}z",
        "  -5 +6 é ",
    ] {
        let expected: Vec<String> = line.split_whitespace().map(|w| w.to_string()).collect();
        assert_eq!(words(line), expected);
    }
    assert_eq!(words(" 12  ab\t3 "), vec!["12".to_string(), "ab".to_string(), "3".to_string()]);
}

#[test]
fn test_parse_unsigned() {
    assert_eq!(parse_unsigned(&chars("0")), Some(0));
    assert_eq!(parse_unsigned(&chars("42")), Some(42));
    assert_eq!(parse_unsigned(&chars("+42")), Some(42));
    assert_eq!(parse_unsigned(&chars("007")), Some(7));
    assert_eq!(parse_unsigned(&chars(&usize::MAX.to_string())), Some(usize::MAX));
    assert_eq!(parse_unsigned(&chars("18446744073709551616")), None);
    assert_eq!(parse_unsigned(&chars("99999999999999999999999")), None);
    assert_eq!(parse_unsigned(&chars("")), None);
    assert_eq!(parse_unsigned(&chars("+")), None);
    assert_eq!(parse_unsigned(&chars("-0")), None);
    assert_eq!(parse_unsigned(&chars("-1")), None);
    assert_eq!(parse_unsigned(&chars("1_000")), None);
    assert_eq!(parse_unsigned(&chars("12a")), None);
    assert_eq!(parse_unsigned(&chars("++1")), None);
    assert_eq!(parse_unsigned(&chars("١٢")), None);
    for token in ["0", "+0", "12", "-3", "", "+", "00018", "18446744073709551615", "1e3", " 1"] {
        assert_eq!(parse_unsigned(&chars(token)), token.parse::<usize>().ok());
    }
}

#[test]
fn test_parse_signed() {
    assert_eq!(parse_signed(&chars("0")), Some(0));
    assert_eq!(parse_signed(&chars("-0")), Some(0));
    assert_eq!(parse_signed(&chars("-17")), Some(-17));
    assert_eq!(parse_signed(&chars("+17")), Some(17));
    assert_eq!(parse_signed(&chars("9223372036854775807")), Some(i64::MAX));
    assert_eq!(parse_signed(&chars("-9223372036854775808")), Some(i64::MIN));
    assert_eq!(parse_signed(&chars("9223372036854775808")), None);
    assert_eq!(parse_signed(&chars("-9223372036854775809")), None);
    assert_eq!(parse_signed(&chars("-")), None);
    assert_eq!(parse_signed(&chars("--1")), None);
    assert_eq!(parse_signed(&chars("+-1")), None);
    assert_eq!(parse_signed(&chars("1-")), None);
    assert_eq!(parse_signed(&chars("")), None);
    for token in ["5", "-5", "+5", "-", "+", "", "0005", "-0005", "3.0", "9223372036854775807"] {
        assert_eq!(parse_signed(&chars(token)), token.parse::<i64>().ok());
    }
}

#[test]
fn test_decimal_text() {
    assert_eq!(unsigned_text(0), "0");
    assert_eq!(unsigned_text(9), "9");
    assert_eq!(unsigned_text(10), "10");
    assert_eq!(unsigned_text(1203), "1203");
    assert_eq!(unsigned_text(usize::MAX), format!("{}", usize::MAX));
    assert_eq!(signed_text(0), "0");
    assert_eq!(signed_text(-1), "-1");
    assert_eq!(signed_text(-120), "-120");
    assert_eq!(signed_text(i64::MAX), format!("{}", i64::MAX));
    assert_eq!(signed_text(i64::MIN), format!("{}", i64::MIN));
    assert_eq!(with_number("at ", 15), "at 15");
    let mut n: usize = 1;
    while n < 1_000_000_000 {
        assert_eq!(unsigned_text(n), format!("{}", n));
        assert_eq!(parse_unsigned(&chars(&unsigned_text(n))), Some(n));
        assert_eq!(parse_signed(&chars(&signed_text(-(n as i64)))), Some(-(n as i64)));
        n = n * 7 + 3;
    }
}
