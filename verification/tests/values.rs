use core_schema::value::{find_key, remove_entry, set_entry, str_eq, Value};

fn text(value: &str) -> Value {
    Value::Str(value.to_string())
}

#[test]
fn str_eq_compares_characters() {
    assert!(str_eq("definition-ref", "definition-ref"));
    assert!(!str_eq("definition-ref", "definitions"));
    assert!(!str_eq("schema", "schemb"));
    assert!(str_eq("", ""));
    assert!(str_eq("größe", "größe"));
    assert!(!str_eq("große", "größe"));
}

#[test]
fn get_finds_the_first_occurrence() {
    let node = Value::Dict(vec![
        ("a".to_string(), text("1")),
        ("b".to_string(), text("2")),
        ("a".to_string(), text("3")),
    ]);
    assert_eq!(node.get("a"), Some(&text("1")));
    assert_eq!(node.get("b"), Some(&text("2")));
    assert_eq!(node.get("c"), None);
    assert_eq!(text("a").get("a"), None);
}

#[test]
fn set_entry_keeps_the_place_of_a_known_key() {
    let mut entries = vec![("a".to_string(), text("1")), ("b".to_string(), text("2"))];
    set_entry(&mut entries, "a", text("9"));
    set_entry(&mut entries, "c", text("3"));
    assert_eq!(
        entries,
        vec![
            ("a".to_string(), text("9")),
            ("b".to_string(), text("2")),
            ("c".to_string(), text("3"))
        ]
    );
    assert_eq!(find_key(&entries, "b"), Some(1));
    assert_eq!(find_key(&entries, "z"), None);
}

#[test]
fn remove_entry_hands_out_what_it_removes() {
    let mut entries = vec![("a".to_string(), text("1")), ("b".to_string(), text("2"))];
    assert_eq!(remove_entry(&mut entries, "a"), Some(text("1")));
    assert_eq!(remove_entry(&mut entries, "a"), None);
    assert_eq!(entries, vec![("b".to_string(), text("2"))]);
}

#[test]
fn swap_child_replaces_in_lists_tuples_and_records() {
    let list = Value::List(vec![text("a"), text("b")]);
    assert_eq!(
        list.swap_child(1, text("c")),
        (Value::List(vec![text("a"), text("c")]), text("b"))
    );
    let tuple = Value::Tuple(vec![text("a"), text("b")]);
    assert_eq!(tuple.with_child(0, text("c")), Value::Tuple(vec![text("c"), text("b")]));
    let record = Value::Dict(vec![
        ("x".to_string(), text("1")),
        ("y".to_string(), text("2")),
        ("z".to_string(), text("3")),
    ]);
    let (after, old) = record.swap_child(0, text("9"));
    assert_eq!(old, text("1"));
    assert_eq!(
        after,
        Value::Dict(vec![
            ("x".to_string(), text("9")),
            ("y".to_string(), text("2")),
            ("z".to_string(), text("3")),
        ])
    );
    let (after, old) = after.swap_child(2, text("8"));
    assert_eq!(old, text("3"));
    assert_eq!(after.get("z"), Some(&text("8")));
    assert_eq!(after.arity(), 3);
}

#[test]
fn swap_child_out_of_range_hands_the_new_child_back() {
    let list = Value::List(vec![text("a")]);
    assert_eq!(list.swap_child(5, text("c")), (Value::List(vec![text("a")]), text("c")));
    assert_eq!(text("leaf").swap_child(0, text("c")), (text("leaf"), text("c")));
}

#[test]
fn deep_clone_copies_everything() {
    let value = Value::Dict(vec![
        ("a".to_string(), Value::List(vec![text("x"), Value::Opaque(4)])),
        ("b".to_string(), Value::Tuple(vec![Value::Dict(vec![])])),
    ]);
    assert_eq!(value.deep_clone(), value);
    assert_eq!(value.clone(), value);
    assert!(value.is_dict());
    assert_eq!(value.child(1), &Value::Tuple(vec![Value::Dict(vec![])]));
}
