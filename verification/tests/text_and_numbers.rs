use pkl_rs::number::is_decimal_digit;
use pkl_rs::number::is_float;
use pkl_rs::number::parse_integer;
use pkl_rs::text::find_char;
use pkl_rs::text::is_whitespace;
use pkl_rs::text::lines_of;
use pkl_rs::text::string_of;
use pkl_rs::text::strip_trailing_chars;
use pkl_rs::text::to_chars;
use pkl_rs::text::trim_chars;
use pkl_rs::value::find_key;
use pkl_rs::value::insert_entry;
use pkl_rs::PklValue;

fn chars(s: &str) -> Vec<char> {
    s.chars().collect()
}

#[test]
fn white_space_is_what_the_standard_library_says() {
    let mut code: u32 = 0;
    while code <= 0x10FFFF {
        if let Some(c) = char::from_u32(code) {
            assert_eq!(is_whitespace(c), c.is_whitespace(), "code point {:x}", code);
        }
        code += 1;
    }
}

#[test]
fn digits_are_the_ten_ascii_digits() {
    let mut code: u32 = 0;
    while code <= 0x10FFFF {
        if let Some(c) = char::from_u32(code) {
            assert_eq!(is_decimal_digit(c), c.is_ascii_digit(), "code point {:x}", code);
        }
        code += 1;
    }
}

#[test]
fn characters_come_out_in_order() {
    assert_eq!(to_chars("a\u{e9}\u{1F600}z"), vec!['a', '\u{e9}', '\u{1F600}', 'z']);
    assert_eq!(to_chars(""), Vec::<char>::new());
}

#[test]
fn a_string_of_characters_holds_them_all() {
    assert_eq!(string_of(&chars("a\u{e9}\u{1F600}z")), "a\u{e9}\u{1F600}z");
    assert_eq!(string_of(&[]), "");
}

#[test]
fn trimming_matches_the_standard_library() {
    for s in [
        "", " ", "   ", "a", " a", "a ", "  a b  ", "\t\na\r\n", "\u{a0}x\u{3000}", " \u{2003} ",
        "a  b", "\u{85}\u{1680}k\u{2028}\u{2029}\u{202f}\u{205f}", "\u{200b}a\u{200b}",
    ] {
        let cs = chars(s);
        assert_eq!(string_of(trim_chars(&cs)), s.trim(), "text {:?}", s);
    }
}

#[test]
fn find_gives_the_first_index_or_the_length() {
    assert_eq!(find_char(&chars("a=b=c"), '='), 1);
    assert_eq!(find_char(&chars("=a"), '='), 0);
    assert_eq!(find_char(&chars("abc"), '='), 3);
    assert_eq!(find_char(&chars(""), '='), 0);
    assert_eq!(find_char(&chars("\u{e9}\u{e9}="), '='), 2);
}

#[test]
fn trailing_characters_are_stripped_as_a_run() {
    assert_eq!(string_of(strip_trailing_chars(&chars("a {{"), '{')), "a ");
    assert_eq!(string_of(strip_trailing_chars(&chars("{{{"), '{')), "");
    assert_eq!(string_of(strip_trailing_chars(&chars("a{b"), '{')), "a{b");
    assert_eq!(string_of(strip_trailing_chars(&chars(""), '{')), "");
}

#[test]
fn lines_match_the_standard_library_without_carriage_returns() {
    for s in [
        "", "a", "a\n", "a\nb", "a\nb\n", "\n", "\n\n", "\na", "a\n\nb", "a\n\n", "  x = 1\ny {\n}\n",
    ] {
        let expected: Vec<String> = s.lines().map(|l| l.to_string()).collect();
        let got: Vec<String> = lines_of(&chars(s)).iter().map(|l| string_of(l)).collect();
        assert_eq!(got, expected, "text {:?}", s);
    }
}

#[test]
fn a_carriage_return_stays_on_its_line() {
    let got: Vec<String> = lines_of(&chars("a\r\nb")).iter().map(|l| string_of(l)).collect();
    assert_eq!(got, vec!["a\r".to_string(), "b".to_string()]);
}

#[test]
fn integers_parse_as_the_standard_library_parses_them() {
    for s in [
        "", "0", "-0", "+0", "1", "-1", "+1", "42", "0042", "+", "-", "--1", "+-1", "1-", "1 ", " 1",
        "1_0", "1.0", "1e1", "9223372036854775807", "9223372036854775808", "-9223372036854775808",
        "-9223372036854775809", "99999999999999999999999", "000000000000000000000000001", "١٢٣",
        "12a", "a12",
    ] {
        assert_eq!(parse_integer(&chars(s)), s.parse::<i64>().ok(), "token {:?}", s);
    }
}

#[test]
fn decimal_floats_are_recognised_as_the_standard_library_parses_them() {
    for s in [
        "", "0", "1.", ".1", ".", "1.5", "-1.5", "+1.5", "1e1", "1E1", "1e", "1e+", "1e-1", "e1",
        "infinit", "nanx", "1 ", " 1", "1_0", "1e1e1", "1.1.1", "0x1", "1f32", "+", "-", "+.",
        "-.e1", ".e1", "1.e1", ".1e1", "1e0001", "123456789012345678901234567890", "1e999",
        "٣.١٤", "-0", "+0.0e-0", "1E+10", "1e-", "..", "1..", "e", "E5", "-e5",
    ] {
        assert_eq!(is_float(&chars(s)), s.parse::<f64>().is_ok(), "token {:?}", s);
    }
}

#[test]
fn words_are_no_floats() {
    for s in [
        "inf", "-inf", "+inf", "Inf", "INF", "infinity", "-infinity", "+Infinity", "INFINITY",
        "nan", "NaN", "-nan", "+NAN",
    ] {
        assert!(s.parse::<f64>().is_ok(), "token {:?}", s);
        assert!(!is_float(&chars(s)), "token {:?}", s);
    }
}

#[test]
fn a_key_is_found_at_its_first_index() {
    let entries = vec![
        ("a".to_string(), PklValue::Integer(1)),
        ("b".to_string(), PklValue::Integer(2)),
    ];
    assert_eq!(find_key(&entries, &"a".to_string()), 0);
    assert_eq!(find_key(&entries, &"b".to_string()), 1);
    assert_eq!(find_key(&entries, &"c".to_string()), 2);
}

#[test]
fn setting_a_key_replaces_in_place_or_appends() {
    let mut entries = vec![
        ("a".to_string(), PklValue::Integer(1)),
        ("b".to_string(), PklValue::Integer(2)),
    ];
    insert_entry(&mut entries, "a".to_string(), PklValue::Boolean(true));
    assert_eq!(
        entries,
        vec![
            ("a".to_string(), PklValue::Boolean(true)),
            ("b".to_string(), PklValue::Integer(2)),
        ]
    );
    insert_entry(&mut entries, "c".to_string(), PklValue::Integer(3));
    assert_eq!(
        entries,
        vec![
            ("a".to_string(), PklValue::Boolean(true)),
            ("b".to_string(), PklValue::Integer(2)),
            ("c".to_string(), PklValue::Integer(3)),
        ]
    );
}
