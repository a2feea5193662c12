use pkl_rs::find_parameter;
use pkl_rs::parse_pkl_text;
use pkl_rs::report_parameter;
use pkl_rs::PklValue;

fn tree(source: &str) -> PklValue {
    match parse_pkl_text(source) {
        Ok(v) => v,
        Err(e) => panic!("did not parse: {:?}", e),
    }
}

fn node(entries: Vec<(&str, PklValue)>) -> PklValue {
    PklValue::Object(entries.into_iter().map(|(k, v)| (k.to_string(), v)).collect())
}

#[test]
fn a_key_at_the_top_is_found() {
    let t = tree("name = \"demo\"\nport = 80");
    assert_eq!(find_parameter(&t, "name"), Some(PklValue::String("demo".to_string())));
    assert_eq!(find_parameter(&t, "port"), Some(PklValue::Integer(80)));
}

#[test]
fn a_nested_key_is_found() {
    let t = tree("server {\n  tls {\n    port = 443\n  }\n}");
    assert_eq!(find_parameter(&t, "port"), Some(PklValue::Integer(443)));
    assert_eq!(
        find_parameter(&t, "tls"),
        Some(node(vec![("port", PklValue::Integer(443))]))
    );
}

#[test]
fn a_missing_key_is_not_found() {
    let t = tree("server {\n  port = 443\n}\nname = \"demo\"");
    assert_eq!(find_parameter(&t, "missing"), None);
    assert_eq!(find_parameter(&node(vec![]), "any"), None);
}

#[test]
fn a_key_at_two_depths_gives_one_of_the_values() {
    let t = tree("a {\n  name = \"inner\"\n}\nname = \"outer\"");
    let found = find_parameter(&t, "name");
    assert!(found.is_some());
    assert!(
        found == Some(PklValue::String("inner".to_string()))
            || found == Some(PklValue::String("outer".to_string()))
    );
}

#[test]
fn an_object_that_has_the_key_answers_before_its_children() {
    let t = tree("a {\n  name = \"inner\"\n}\nname = \"outer\"");
    assert_eq!(find_parameter(&t, "name"), Some(PklValue::String("outer".to_string())));
}

#[test]
fn children_are_searched_in_order_and_to_their_depth() {
    let t = tree("a {\n  b {\n    x = 1\n  }\n}\nc {\n  x = 2\n}");
    assert_eq!(find_parameter(&t, "x"), Some(PklValue::Integer(1)));
    let u = tree("c {\n  x = 2\n}\na {\n  b {\n    x = 1\n  }\n}");
    assert_eq!(find_parameter(&u, "x"), Some(PklValue::Integer(2)));
}

#[test]
fn a_value_that_is_no_object_holds_no_key() {
    assert_eq!(find_parameter(&PklValue::Integer(1), "a"), None);
    assert_eq!(find_parameter(&PklValue::String("a".to_string()), "a"), None);
    assert_eq!(find_parameter(&PklValue::Array(vec![node(vec![("a", PklValue::Integer(1))])]), "a"), None);
}

#[test]
fn the_search_leaves_the_tree_as_it_was() {
    let t = tree("a {\n  x = 1\n}");
    let before = t.clone();
    let _ = find_parameter(&t, "x");
    let _ = report_parameter(&t, "x");
    assert_eq!(t, before);
}

#[test]
fn a_copy_equals_what_it_copies() {
    let t = tree("a {\n  x = 1\n  y = \"two\"\n  z = 0.5\n  w = true\n}\nb = {c = 1}");
    assert_eq!(t.clone(), t);
    let with_array = PklValue::Array(vec![t.clone(), PklValue::Integer(3)]);
    assert_eq!(with_array.clone(), with_array);
}

#[test]
fn a_report_of_a_key_at_the_top_is_its_value() {
    let t = tree("name = \"demo\"\na {\n  name = \"inner\"\n}");
    assert_eq!(
        report_parameter(&t, "name"),
        vec![Some(PklValue::String("demo".to_string()))]
    );
}

#[test]
fn a_report_names_every_leaf_on_the_way() {
    let t = tree("a = 1\nb {\n  c = 2\n  d = 3\n}\ne {\n  name = \"x\"\n}\nf = 4");
    assert_eq!(
        report_parameter(&t, "name"),
        vec![None, None, None, Some(PklValue::String("x".to_string())), None]
    );
}

#[test]
fn a_report_of_a_missing_key_is_one_miss_per_leaf() {
    let t = tree("a = 1\nb {\n  c = 2\n}");
    assert_eq!(report_parameter(&t, "zzz"), vec![None, None]);
}

#[test]
fn a_report_of_an_empty_object_is_empty() {
    assert_eq!(report_parameter(&node(vec![]), "a"), vec![]);
    let t = tree("a {\n}\nb {\n}");
    assert_eq!(report_parameter(&t, "x"), vec![]);
}

#[test]
fn a_report_of_a_leaf_is_one_miss() {
    assert_eq!(report_parameter(&PklValue::Boolean(true), "a"), vec![None]);
    assert_eq!(report_parameter(&PklValue::Array(vec![]), "a"), vec![None]);
}

#[test]
fn a_report_may_find_the_key_more_than_once() {
    let t = tree("a {\n  x = 1\n}\nb {\n  x = 2\n}");
    assert_eq!(
        report_parameter(&t, "x"),
        vec![Some(PklValue::Integer(1)), Some(PklValue::Integer(2))]
    );
}

#[test]
fn equal_values_compare_equal() {
    let a = tree("x = 1\ny {\n  z = \"s\"\n  w = 2.5\n}");
    let b = tree("# same tree\nx = 1\n\ny {\n  z = \"s\"\n  w = 2.5\n}\n");
    assert!(a == b);
    assert!(!(a != b));
}

#[test]
fn different_values_compare_unequal() {
    let a = tree("x = 1\ny = 2");
    assert!(a != tree("x = 1\ny = 3"));
    assert!(a != tree("x = 1"));
    assert!(a != tree("x = 1\ny = 2\nz = 3"));
    assert!(a != tree("x = 1\nz = 2"));
    assert!(a != tree("y = 2\nx = 1"));
    assert!(PklValue::Integer(1) != PklValue::Float("1".to_string()));
    assert!(PklValue::String("1".to_string()) != PklValue::Float("1".to_string()));
    assert!(PklValue::Float("1.0".to_string()) != PklValue::Float("1.00".to_string()));
    assert!(PklValue::Boolean(true) != PklValue::Boolean(false));
    assert!(PklValue::Array(vec![PklValue::Integer(1)]) != PklValue::Array(vec![]));
    assert!(
        PklValue::Array(vec![PklValue::Integer(1)]) != PklValue::Array(vec![PklValue::Integer(2)])
    );
    assert!(PklValue::Array(vec![]) != node(vec![]));
}
