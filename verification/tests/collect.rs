use core_schema::collect::{
    collect_definitions, collect_invalid_schemas, collect_ref_names, invalid_schema,
};
use core_schema::value::Value;
use core_schema::walk_core_schema::SchemaError;

fn text(value: &str) -> Value {
    Value::Str(value.to_string())
}

fn record(entries: Vec<(&str, Value)>) -> Value {
    Value::Dict(entries.into_iter().map(|(k, v)| (k.to_string(), v)).collect())
}

fn sample() -> Value {
    let a = record(vec![("type", text("int")), ("ref", text("A"))]);
    let b = record(vec![
        ("type", text("list")),
        ("items_schema", a.clone()),
        ("ref", text("B")),
        ("metadata", record(vec![("invalid", Value::Opaque(0))])),
    ]);
    record(vec![("type", text("union")), ("choices", Value::List(vec![b, a]))])
}

#[test]
fn ref_names_come_once_in_the_order_met() {
    assert_eq!(collect_ref_names(&sample()), Ok(vec!["B".to_string(), "A".to_string()]));
}

#[test]
fn definitions_hold_the_node_met_last() {
    let first = record(vec![("type", text("int")), ("ref", text("A"))]);
    let second = record(vec![("type", text("str")), ("ref", text("A"))]);
    let other = record(vec![("type", text("bool")), ("ref", text("B"))]);
    let root = record(vec![
        ("type", text("tuple")),
        ("items_schema", Value::List(vec![first, other.clone(), second.clone()])),
    ]);
    assert_eq!(
        collect_definitions(&root),
        Ok(vec![("A".to_string(), second), ("B".to_string(), other)])
    );
}

#[test]
fn invalid_schemas_are_those_marked_in_metadata() {
    let found = collect_invalid_schemas(&sample()).unwrap();
    assert_eq!(found.len(), 1);
    assert_eq!(found[0].get("ref"), Some(&text("B")));
}

#[test]
fn invalid_schema_reads_the_metadata() {
    assert_eq!(invalid_schema(&record(vec![("type", text("int"))])), Ok(false));
    assert_eq!(
        invalid_schema(&record(vec![("metadata", record(vec![("other", text("x"))]))])),
        Ok(false)
    );
    assert_eq!(
        invalid_schema(&record(vec![("metadata", record(vec![("invalid", text("x"))]))])),
        Ok(true)
    );
    assert_eq!(
        invalid_schema(&record(vec![("metadata", text("invalid"))])),
        Err(SchemaError::WrongType)
    );
}

#[test]
fn ref_that_is_no_string_is_a_wrong_type() {
    let root = record(vec![("type", text("int")), ("ref", Value::Opaque(1))]);
    assert_eq!(collect_ref_names(&root), Err(SchemaError::WrongType));
    assert_eq!(collect_definitions(&root), Err(SchemaError::WrongType));
}

#[test]
fn a_fault_of_the_walk_comes_after_the_nodes_before_it() {
    let bad_ref = record(vec![("type", text("int")), ("ref", Value::Opaque(1))]);
    let root = record(vec![
        ("type", text("dict")),
        ("keys_schema", record(vec![("no_type", text("x"))])),
        ("values_schema", bad_ref),
    ]);
    assert_eq!(collect_ref_names(&root), Err(SchemaError::MissingKey));
    let root = record(vec![
        ("type", text("dict")),
        ("keys_schema", record(vec![("type", text("int")), ("ref", Value::Opaque(1))])),
        ("values_schema", record(vec![("no_type", text("x"))])),
    ]);
    assert_eq!(collect_ref_names(&root), Err(SchemaError::WrongType));
}

#[test]
fn definitions_of_a_definitions_node_are_met_before_its_inner_schema() {
    let marked = |tag: &str, name: &str| {
        record(vec![
            ("type", text(tag)),
            ("ref", text(name)),
            ("metadata", record(vec![("invalid", Value::Opaque(1))])),
        ])
    };
    let root = record(vec![
        ("type", text("definitions")),
        ("schema", marked("int", "A")),
        ("definitions", Value::List(vec![marked("str", "A"), marked("bool", "B")])),
    ]);
    assert_eq!(
        collect_invalid_schemas(&root),
        Ok(vec![marked("str", "A"), marked("bool", "B"), marked("int", "A")])
    );
    assert_eq!(collect_ref_names(&root), Ok(vec!["A".to_string(), "B".to_string()]));
    assert_eq!(
        collect_definitions(&root),
        Ok(vec![("A".to_string(), marked("int", "A")), ("B".to_string(), marked("bool", "B"))])
    );
}
