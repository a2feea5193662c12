use pkl_rs::parse_object;
use pkl_rs::parse_pkl_inner_object;
use pkl_rs::parse_pkl_text;
use pkl_rs::PklValue;
use pkl_rs::SyntaxError;

fn string_value(s: &str) -> PklValue {
    PklValue::String(s.to_string())
}

fn block(entries: Vec<(&str, PklValue)>) -> PklValue {
    PklValue::Object(entries.into_iter().map(|(k, v)| (k.to_string(), v)).collect())
}

#[test]
fn a_flat_assignment_of_quoted_text() {
    assert_eq!(
        parse_pkl_text("key = \"text\""),
        Ok(block(vec![("key", string_value("text"))]))
    );
}

#[test]
fn a_flat_assignment_of_an_integer() {
    assert_eq!(parse_pkl_text("n = 42"), Ok(block(vec![("n", PklValue::Integer(42))])));
}

#[test]
fn a_flat_assignment_of_a_float() {
    let parsed = parse_pkl_text("x = 3.14");
    assert_eq!(parsed, Ok(block(vec![("x", PklValue::Float("3.14".to_string()))])));
    match parsed {
        Ok(PklValue::Object(entries)) => match &entries[0].1 {
            PklValue::Float(literal) => assert_eq!(literal.parse::<f64>(), Ok(3.14)),
            other => panic!("not a float: {:?}", other),
        },
        other => panic!("not an object: {:?}", other),
    }
}

#[test]
fn flat_assignments_of_booleans() {
    assert_eq!(parse_pkl_text("b = true"), Ok(block(vec![("b", PklValue::Boolean(true))])));
    assert_eq!(parse_pkl_text("b = false"), Ok(block(vec![("b", PklValue::Boolean(false))])));
}

#[test]
fn nested_blocks_nest() {
    assert_eq!(
        parse_pkl_text("outer {\n  inner {\n    k = 1\n  }\n}"),
        Ok(block(vec![(
            "outer",
            block(vec![("inner", block(vec![("k", PklValue::Integer(1))]))])
        )]))
    );
}

#[test]
fn a_line_without_equals_fails_the_whole_parse() {
    assert_eq!(parse_pkl_text("justtext"), Err(SyntaxError::MissingAssignment));
    assert_eq!(
        parse_pkl_text("a = 1\njusttext\nb = 2"),
        Err(SyntaxError::MissingAssignment)
    );
    assert_eq!(
        parse_pkl_text("outer {\n  justtext\n}"),
        Err(SyntaxError::MissingAssignment)
    );
}

#[test]
fn a_value_of_no_shape_fails_the_whole_parse() {
    let parsed = parse_pkl_text("v = @foo");
    assert_eq!(parsed, Err(SyntaxError::UnsupportedValue));
    match parsed {
        Err(e) => assert_eq!(e.message(), "Unsupported value type"),
        Ok(v) => panic!("parsed: {:?}", v),
    }
}

#[test]
fn a_missing_assignment_says_invalid_syntax() {
    match parse_pkl_text("justtext") {
        Err(e) => assert_eq!(e.message(), "Invalid syntax"),
        Ok(v) => panic!("parsed: {:?}", v),
    }
}

#[test]
fn the_first_failing_line_decides_the_error() {
    assert_eq!(parse_pkl_text("v = @foo\njusttext"), Err(SyntaxError::UnsupportedValue));
    assert_eq!(parse_pkl_text("justtext\nv = @foo"), Err(SyntaxError::MissingAssignment));
}

#[test]
fn parsing_twice_gives_equal_trees() {
    let source = "name = \"demo\"\nserver {\n  port = 8080\n  tls {\n    on = true\n  }\n}\nratio = 0.5\n";
    let first = parse_pkl_text(source);
    let second = parse_pkl_text(source);
    assert!(first.is_ok());
    assert_eq!(first, second);
}

#[test]
fn comments_and_blank_lines_alone_make_an_empty_object() {
    assert_eq!(parse_pkl_text(""), Ok(block(vec![])));
    assert_eq!(parse_pkl_text("\n\n\n"), Ok(block(vec![])));
    assert_eq!(parse_pkl_text("# only a comment"), Ok(block(vec![])));
    assert_eq!(parse_pkl_text("  \t \n# one\n\n   # two\n\r\n"), Ok(block(vec![])));
}

#[test]
fn comments_and_blank_lines_change_nothing() {
    let plain = parse_pkl_text("a = 1\nouter {\nb = 2\n}\nc = 3");
    let noisy = parse_pkl_text(
        "# head\n\na = 1\n   \nouter {\n# inside\n\nb = 2\n\n}\n# between\nc = 3\n\n# tail\n",
    );
    assert!(plain.is_ok());
    assert_eq!(plain, noisy);
}

#[test]
fn a_comment_after_a_value_is_no_comment() {
    assert_eq!(parse_pkl_text("a = 1 # one"), Err(SyntaxError::UnsupportedValue));
}

#[test]
fn a_hash_inside_a_line_is_no_comment() {
    assert_eq!(parse_pkl_text("a#b = 1"), Ok(block(vec![("a#b", PklValue::Integer(1))])));
}

#[test]
fn entries_keep_the_order_of_first_insertion() {
    assert_eq!(
        parse_pkl_text("z = 1\na = 2\nm = 3"),
        Ok(block(vec![
            ("z", PklValue::Integer(1)),
            ("a", PklValue::Integer(2)),
            ("m", PklValue::Integer(3)),
        ]))
    );
}

#[test]
fn the_last_assignment_to_a_key_wins() {
    assert_eq!(
        parse_pkl_text("a = 1\nb = 2\na = 3"),
        Ok(block(vec![("a", PklValue::Integer(3)), ("b", PklValue::Integer(2))]))
    );
}

#[test]
fn a_block_replaces_an_earlier_value_under_its_key() {
    assert_eq!(
        parse_pkl_text("a = 1\na {\n  b = 2\n}"),
        Ok(block(vec![("a", block(vec![("b", PklValue::Integer(2))]))]))
    );
}

#[test]
fn only_the_first_equals_splits() {
    assert_eq!(
        parse_pkl_text("a = \"x=y\""),
        Ok(block(vec![("a", string_value("x=y"))]))
    );
    assert_eq!(parse_pkl_text("a = b = 1"), Err(SyntaxError::UnsupportedValue));
}

#[test]
fn key_and_value_are_trimmed() {
    assert_eq!(
        parse_pkl_text("   a\t=\t  42   "),
        Ok(block(vec![("a", PklValue::Integer(42))]))
    );
    assert_eq!(parse_pkl_text("a=42"), Ok(block(vec![("a", PklValue::Integer(42))])));
    assert_eq!(
        parse_pkl_text("\u{a0}a\u{2003}=\u{3000}42\u{2028}"),
        Ok(block(vec![("a", PklValue::Integer(42))]))
    );
}

#[test]
fn a_key_may_hold_spaces_or_be_empty() {
    assert_eq!(
        parse_pkl_text("my key = 1"),
        Ok(block(vec![("my key", PklValue::Integer(1))]))
    );
    assert_eq!(parse_pkl_text("= 5"), Ok(block(vec![("", PklValue::Integer(5))])));
}

#[test]
fn an_assignment_without_a_value_is_unsupported() {
    assert_eq!(parse_pkl_text("a ="), Err(SyntaxError::UnsupportedValue));
}

#[test]
fn the_end_of_the_text_closes_open_blocks() {
    assert_eq!(
        parse_pkl_text("outer {\n  k = 1"),
        Ok(block(vec![("outer", block(vec![("k", PklValue::Integer(1))]))]))
    );
    assert_eq!(
        parse_pkl_text("a {\nb {\nc {"),
        Ok(block(vec![("a", block(vec![("b", block(vec![("c", block(vec![]))]))]))]))
    );
}

#[test]
fn a_closing_line_at_the_top_ends_the_reading() {
    assert_eq!(
        parse_pkl_text("a = 1\n}\nb = 2\njusttext"),
        Ok(block(vec![("a", PklValue::Integer(1))]))
    );
}

#[test]
fn every_trailing_brace_is_taken_off_the_key() {
    assert_eq!(parse_pkl_text("a {{\n}"), Ok(block(vec![("a", block(vec![]))])));
    assert_eq!(parse_pkl_text("{\n}"), Ok(block(vec![("", block(vec![]))])));
}

#[test]
fn a_line_that_ends_in_an_opening_brace_opens_a_block() {
    assert_eq!(
        parse_pkl_text("a = {\n  b = 1\n}"),
        Ok(block(vec![("a =", block(vec![("b", PklValue::Integer(1))]))]))
    );
}

#[test]
fn a_line_that_ends_in_a_closing_brace_closes_the_block() {
    assert_eq!(
        parse_pkl_text("outer {\n  anything at all }\nb = 2"),
        Ok(block(vec![("outer", block(vec![])), ("b", PklValue::Integer(2))]))
    );
}

#[test]
fn an_inline_object_on_one_line_closes_the_block_instead() {
    assert_eq!(parse_pkl_text("a = {b = 1}\nc = 2"), Ok(block(vec![])));
}

#[test]
fn blocks_may_follow_one_another() {
    assert_eq!(
        parse_pkl_text("a {\n x = 1\n}\nb {\n y = 2\n}\nz = 3"),
        Ok(block(vec![
            ("a", block(vec![("x", PklValue::Integer(1))])),
            ("b", block(vec![("y", PklValue::Integer(2))])),
            ("z", PklValue::Integer(3)),
        ]))
    );
}

#[test]
fn carriage_returns_go_with_the_trimming() {
    assert_eq!(
        parse_pkl_text("a = 1\r\nouter {\r\n  b = \"two\"\r\n}\r\n"),
        Ok(block(vec![
            ("a", PklValue::Integer(1)),
            ("outer", block(vec![("b", string_value("two"))])),
        ]))
    );
}

#[test]
fn an_error_after_the_block_has_closed_is_not_seen() {
    assert_eq!(parse_pkl_text("}\njusttext"), Ok(block(vec![])));
}

#[test]
fn the_cursor_stops_after_the_closing_line() {
    let lines = ["a = 1", "inner {", "b = 2", "}", "}", "c = 3"];
    let mut pos = 0;
    let parsed = parse_object(&lines, &mut pos);
    assert_eq!(
        parsed,
        Ok(block(vec![
            ("a", PklValue::Integer(1)),
            ("inner", block(vec![("b", PklValue::Integer(2))])),
        ]))
    );
    assert_eq!(pos, 5);
    let rest = parse_object(&lines, &mut pos);
    assert_eq!(rest, Ok(block(vec![("c", PklValue::Integer(3))])));
    assert_eq!(pos, 6);
}

#[test]
fn the_cursor_may_start_inside_the_lines() {
    let lines = ["skipped text", "b = 2", "}", "c = 3"];
    let mut pos = 1;
    assert_eq!(parse_object(&lines, &mut pos), Ok(block(vec![("b", PklValue::Integer(2))])));
    assert_eq!(pos, 3);
}

#[test]
fn the_cursor_stops_after_the_failing_line() {
    let lines = ["a = 1", "justtext", "b = 2"];
    let mut pos = 0;
    assert_eq!(parse_object(&lines, &mut pos), Err(SyntaxError::MissingAssignment));
    assert_eq!(pos, 2);
}

#[test]
fn the_cursor_stops_at_the_end_without_a_closing_line() {
    let lines = ["a {", "b = 1"];
    let mut pos = 0;
    assert_eq!(
        parse_object(&lines, &mut pos),
        Ok(block(vec![("a", block(vec![("b", PklValue::Integer(1))]))]))
    );
    assert_eq!(pos, 2);
}

#[test]
fn a_cursor_at_or_past_the_end_reads_nothing() {
    let lines = ["a = 1"];
    let mut pos = 1;
    assert_eq!(parse_object(&lines, &mut pos), Ok(block(vec![])));
    assert_eq!(pos, 1);
    let mut far = 7;
    assert_eq!(parse_object(&lines, &mut far), Ok(block(vec![])));
    assert_eq!(far, 7);
    let none: [&str; 0] = [];
    let mut zero = 0;
    assert_eq!(parse_object(&none, &mut zero), Ok(block(vec![])));
    assert_eq!(zero, 0);
}

#[test]
fn lines_and_text_parse_alike() {
    let source = "a = 1\nouter {\n  b = \"two\"\n}\nc = 0.5";
    let lines: Vec<&str> = source.lines().collect();
    let mut pos = 0;
    assert_eq!(parse_object(&lines, &mut pos), parse_pkl_text(source));
    assert_eq!(pos, lines.len());
}

#[test]
fn inner_object_lines_assign() {
    assert_eq!(
        parse_pkl_inner_object("a = 1\nb = \"two\""),
        Ok(block(vec![("a", PklValue::Integer(1)), ("b", string_value("two"))]))
    );
    assert_eq!(parse_pkl_inner_object(""), Ok(block(vec![])));
    assert_eq!(parse_pkl_inner_object("# note\n\n"), Ok(block(vec![])));
}

#[test]
fn inner_object_braces_open_and_close_nothing() {
    assert_eq!(parse_pkl_inner_object("outer {"), Err(SyntaxError::MissingAssignment));
    assert_eq!(parse_pkl_inner_object("}"), Err(SyntaxError::MissingAssignment));
    assert_eq!(parse_pkl_inner_object("a = {"), Err(SyntaxError::UnsupportedValue));
    assert_eq!(
        parse_pkl_inner_object("a = 1\nb = }"),
        Err(SyntaxError::UnsupportedValue)
    );
}

#[test]
fn inner_object_values_may_be_inline_objects() {
    assert_eq!(
        parse_pkl_inner_object("a = {b = 1}\nc = 2"),
        Ok(block(vec![
            ("a", block(vec![("b", PklValue::Integer(1))])),
            ("c", PklValue::Integer(2)),
        ]))
    );
}

#[test]
fn inner_object_last_assignment_wins() {
    assert_eq!(
        parse_pkl_inner_object("a = 1\nb = 2\na = 3"),
        Ok(block(vec![("a", PklValue::Integer(3)), ("b", PklValue::Integer(2))]))
    );
}

#[test]
fn a_long_text_parses() {
    let mut source = String::new();
    let mut expected = Vec::new();
    for i in 0..20_000 {
        source.push_str(&format!("key{} = {}\n", i, i));
        expected.push((format!("key{}", i), PklValue::Integer(i)));
    }
    assert_eq!(parse_pkl_text(&source), Ok(PklValue::Object(expected)));
}

#[test]
fn deep_nesting_parses() {
    let depth = 200;
    let mut source = String::new();
    for i in 0..depth {
        source.push_str(&format!("level{} {{\n", i));
    }
    source.push_str("leaf = true\n");
    for _ in 0..depth {
        source.push_str("}\n");
    }
    let mut expected = block(vec![("leaf", PklValue::Boolean(true))]);
    for i in (0..depth).rev() {
        expected = PklValue::Object(vec![(format!("level{}", i), expected)]);
    }
    assert_eq!(parse_pkl_text(&source), Ok(expected));
}

#[test]
fn a_word_for_a_float_fails_the_whole_parse() {
    assert_eq!(parse_pkl_text("v = NaN"), Err(SyntaxError::UnsupportedValue));
    assert_eq!(parse_pkl_text("a = 1.5\nv = -inf\nb = 2"), Err(SyntaxError::UnsupportedValue));
    assert_eq!(parse_pkl_text("outer {\n  v = Infinity\n}"), Err(SyntaxError::UnsupportedValue));
}

#[test]
fn decimal_floats_with_exponents_parse() {
    assert_eq!(
        parse_pkl_text("a = 1e3\nb = -2.5E-4\nc = .5"),
        Ok(block(vec![
            ("a", PklValue::Float("1e3".to_string())),
            ("b", PklValue::Float("-2.5E-4".to_string())),
            ("c", PklValue::Float(".5".to_string())),
        ]))
    );
}
