use core_schema::discriminator::{apply_discriminators, ApplyError};
use core_schema::value::Value;
use core_schema::walk_core_schema::SchemaError;
use std::cell::RefCell;

const DISCRIMINATOR: &str = "pydantic.internal.union_discriminator";

fn text(value: &str) -> Value {
    Value::Str(value.to_string())
}

fn record(entries: Vec<(&str, Value)>) -> Value {
    Value::Dict(entries.into_iter().map(|(k, v)| (k.to_string(), v)).collect())
}

fn union_with(discriminator: &str, choices: Vec<Value>) -> Value {
    record(vec![
        ("type", text("union")),
        ("choices", Value::List(choices)),
        ("metadata", record(vec![(DISCRIMINATOR, text(discriminator))])),
    ])
}

fn tagged(by: &str) -> Value {
    record(vec![
        ("type", text("tagged-union")),
        ("discriminator", text(by)),
        ("choices", record(vec![])),
        ("metadata", record(vec![(DISCRIMINATOR, text(by))])),
    ])
}

#[test]
fn discriminator_is_applied_in_place_and_only_once() {
    let mut root = union_with("kind", vec![record(vec![("type", text("int"))])]);
    let calls = RefCell::new(Vec::new());
    let resolver = |node: &Value, d: &str| -> Result<Value, String> {
        calls.borrow_mut().push((node.clone(), d.to_string()));
        Ok(tagged(d))
    };
    let before = root.clone();
    assert_eq!(apply_discriminators(&mut root, resolver), Ok(()));
    assert_eq!(root, tagged("kind"));
    assert_eq!(*calls.borrow(), vec![(before, "kind".to_string())]);

    let again = |_: &Value, _: &str| -> Result<Value, String> { Err("not expected".to_string()) };
    assert_eq!(apply_discriminators(&mut root, again), Ok(()));
    assert_eq!(root, tagged("kind"));
}

#[test]
fn children_are_resolved_before_their_parent() {
    let inner = union_with("inner", vec![]);
    let mut root = union_with("outer", vec![inner.clone()]);
    let seen = RefCell::new(Vec::new());
    let resolver = |node: &Value, d: &str| -> Result<Value, String> {
        seen.borrow_mut().push((node.clone(), d.to_string()));
        Ok(tagged(d))
    };
    assert_eq!(apply_discriminators(&mut root, resolver), Ok(()));
    assert_eq!(root, tagged("outer"));
    assert_eq!(
        *seen.borrow(),
        vec![
            (inner, "inner".to_string()),
            (union_with("outer", vec![tagged("inner")]), "outer".to_string()),
        ]
    );
}

#[test]
fn a_failing_resolver_leaves_earlier_replacements() {
    let first = union_with("first", vec![]);
    let second = union_with("second", vec![]);
    let mut root = record(vec![
        ("type", text("tuple")),
        ("items_schema", Value::List(vec![first, second.clone()])),
    ]);
    let resolver = |_: &Value, d: &str| -> Result<Value, String> {
        if d == "first" {
            Ok(tagged(d))
        } else {
            Err(format!("cannot resolve {}", d))
        }
    };
    assert_eq!(
        apply_discriminators(&mut root, resolver),
        Err(ApplyError::Callback("cannot resolve second".to_string()))
    );
    assert_eq!(
        root,
        record(vec![
            ("type", text("tuple")),
            ("items_schema", Value::List(vec![tagged("first"), second])),
        ])
    );
}

#[test]
fn an_answer_that_is_no_record_is_a_wrong_type() {
    let mut root = union_with("kind", vec![]);
    let resolver = |_: &Value, _: &str| -> Result<Value, String> { Ok(text("tagged-union")) };
    assert_eq!(
        apply_discriminators(&mut root, resolver),
        Err(ApplyError::Schema(SchemaError::WrongType))
    );
    assert_eq!(root, Value::Dict(vec![]));
}

#[test]
fn nodes_without_a_discriminator_stay() {
    let mut root = record(vec![
        ("type", text("list")),
        ("items_schema", record(vec![("type", text("int")), ("metadata", record(vec![]))])),
    ]);
    let before = root.clone();
    let resolver = |_: &Value, _: &str| -> Result<Value, String> { Err("not expected".to_string()) };
    assert_eq!(apply_discriminators(&mut root, resolver), Ok(()));
    assert_eq!(root, before);
}

#[test]
fn apply_faults_on_bad_shapes() {
    let resolver = |_: &Value, d: &str| -> Result<Value, String> { Ok(tagged(d)) };
    let mut no_type = record(vec![("schema", text("x"))]);
    assert_eq!(
        apply_discriminators(&mut no_type, resolver),
        Err(ApplyError::Schema(SchemaError::MissingKey))
    );
    let mut bad_meta = record(vec![("type", text("int")), ("metadata", text("x"))]);
    assert_eq!(
        apply_discriminators(&mut bad_meta, resolver),
        Err(ApplyError::Schema(SchemaError::WrongType))
    );
    let mut bad_discriminator = record(vec![
        ("type", text("int")),
        ("metadata", record(vec![(DISCRIMINATOR, Value::Opaque(1))])),
    ]);
    assert_eq!(
        apply_discriminators(&mut bad_discriminator, resolver),
        Err(ApplyError::Schema(SchemaError::WrongType))
    );
}

#[test]
fn the_definitions_of_a_definitions_node_are_resolved_before_its_inner_schema() {
    let definition = record(vec![
        ("type", text("union")),
        ("choices", Value::List(vec![])),
        ("ref", text("A")),
        ("metadata", record(vec![(DISCRIMINATOR, text("definition"))])),
    ]);
    let mut root = record(vec![
        ("type", text("definitions")),
        ("schema", union_with("inner", vec![])),
        ("definitions", Value::List(vec![definition])),
    ]);
    let order = RefCell::new(Vec::new());
    let resolver = |node: &Value, d: &str| -> Result<Value, String> {
        order.borrow_mut().push(d.to_string());
        Ok(node.clone())
    };
    assert_eq!(apply_discriminators(&mut root, resolver), Ok(()));
    assert_eq!(*order.borrow(), vec!["definition".to_string(), "inner".to_string()]);
}
