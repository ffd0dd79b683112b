use core_schema::value::Value;
use core_schema::walk_core_schema::{put_site, recurse, site_child, SchemaError, Site};

fn text(value: &str) -> Value {
    Value::Str(value.to_string())
}

fn record(entries: Vec<(&str, Value)>) -> Value {
    Value::Dict(entries.into_iter().map(|(k, v)| (k.to_string(), v)).collect())
}

fn leaf(tag: &str) -> Value {
    record(vec![("type", text(tag))])
}

#[test]
fn list_has_one_child() {
    let node = record(vec![("type", text("list")), ("items_schema", leaf("int"))]);
    let walk = recurse(&node);
    assert_eq!(walk.sites, vec![Site::Key(1)]);
    assert_eq!(walk.failure, None);
}

#[test]
fn dict_children_come_keys_first_whatever_the_key_order() {
    let node = record(vec![
        ("values_schema", leaf("str")),
        ("type", text("dict")),
        ("keys_schema", leaf("int")),
    ]);
    let walk = recurse(&node);
    assert_eq!(walk.sites, vec![Site::Key(2), Site::Key(0)]);
    assert_eq!(walk.failure, None);
}

#[test]
fn definitions_node_lists_definitions_then_schema() {
    let named = |tag: &str, name: &str| record(vec![("type", text(tag)), ("ref", text(name))]);
    let node = record(vec![
        ("type", text("definitions")),
        ("definitions", Value::List(vec![named("int", "A"), named("str", "B")])),
        ("schema", leaf("bool")),
    ]);
    let walk = recurse(&node);
    assert_eq!(walk.sites, vec![Site::Item(1, 0), Site::Item(1, 1), Site::Key(2)]);
    assert_eq!(walk.failure, None);
}

#[test]
fn definition_without_ref_ends_the_walk() {
    let named = record(vec![("type", text("int")), ("ref", text("A"))]);
    let node = record(vec![
        ("type", text("definitions")),
        ("definitions", Value::List(vec![named, leaf("str"), leaf("bool")])),
        ("schema", leaf("bool")),
    ]);
    let walk = recurse(&node);
    assert_eq!(walk.sites, vec![Site::Item(1, 0)]);
    assert_eq!(walk.failure, Some(SchemaError::MissingKey));
    let node = record(vec![("type", text("definitions")), ("definitions", Value::List(vec![]))]);
    assert_eq!(recurse(&node).failure, Some(SchemaError::MissingKey));
    let node = record(vec![("type", text("definitions")), ("schema", leaf("bool"))]);
    let walk = recurse(&node);
    assert!(walk.sites.is_empty());
    assert_eq!(walk.failure, Some(SchemaError::MissingKey));
}

#[test]
fn union_choices_may_be_pairs() {
    let node = record(vec![
        ("type", text("union")),
        (
            "choices",
            Value::List(vec![leaf("int"), Value::Tuple(vec![leaf("str"), text("label")])]),
        ),
    ]);
    let walk = recurse(&node);
    assert_eq!(walk.sites, vec![Site::Item(1, 0), Site::Field(1, 1, 0)]);
    assert_eq!(walk.failure, None);
    assert_eq!(site_child(&node, walk.sites[1]), &leaf("str"));
}

#[test]
fn chain_steps_may_not_be_pairs() {
    let node = record(vec![
        ("type", text("chain")),
        ("steps", Value::List(vec![leaf("int"), Value::Tuple(vec![leaf("str"), text("label")])])),
    ]);
    let walk = recurse(&node);
    assert_eq!(walk.sites, vec![Site::Item(1, 0)]);
    assert_eq!(walk.failure, Some(SchemaError::WrongType));
}

#[test]
fn tagged_union_passes_over_plain_tags() {
    let node = record(vec![
        ("type", text("tagged-union")),
        ("choices", record(vec![("a", leaf("int")), ("b", text("a")), ("c", leaf("str"))])),
    ]);
    let walk = recurse(&node);
    assert_eq!(walk.sites, vec![Site::Item(1, 0), Site::Item(1, 2)]);
    assert_eq!(walk.failure, None);
}

#[test]
fn model_fields_descend_into_the_field_schemas() {
    let field = record(vec![("type", text("model-field")), ("schema", leaf("int"))]);
    let computed = record(vec![
        ("type", text("computed-field")),
        ("property_name", text("area")),
        ("return_schema", leaf("float")),
    ]);
    let node = record(vec![
        ("type", text("model-fields")),
        ("fields", record(vec![("x", field)])),
        ("computed_fields", Value::List(vec![computed])),
        ("extras_schema", leaf("str")),
    ]);
    let walk = recurse(&node);
    assert_eq!(walk.sites, vec![Site::Key(3), Site::Field(2, 0, 2), Site::Field(1, 0, 1)]);
    assert_eq!(walk.failure, None);
}

#[test]
fn typed_dict_needs_fields() {
    let node = record(vec![("type", text("typed-dict")), ("extra_validator", leaf("str"))]);
    let walk = recurse(&node);
    assert_eq!(walk.sites, vec![Site::Key(1)]);
    assert_eq!(walk.failure, Some(SchemaError::MissingKey));
}

#[test]
fn field_without_schema_is_a_missing_key() {
    let node = record(vec![
        ("type", text("dataclass-args")),
        ("fields", Value::List(vec![record(vec![("name", text("x"))])])),
    ]);
    let walk = recurse(&node);
    assert!(walk.sites.is_empty());
    assert_eq!(walk.failure, Some(SchemaError::MissingKey));
}

#[test]
fn arguments_list_then_variadic_schemas() {
    let argument = record(vec![("name", text("a")), ("schema", leaf("int"))]);
    let node = record(vec![
        ("type", text("arguments")),
        ("var_kwargs_schema", leaf("str")),
        ("arguments_schema", Value::List(vec![argument.clone(), argument])),
        ("var_args_schema", leaf("bool")),
    ]);
    let walk = recurse(&node);
    assert_eq!(
        walk.sites,
        vec![Site::Field(2, 0, 1), Site::Field(2, 1, 1), Site::Key(3), Site::Key(1)]
    );
    assert_eq!(walk.failure, None);
}

#[test]
fn tuple_positional_items_then_extra() {
    let node = record(vec![
        ("type", text("tuple-positional")),
        ("extra_schema", leaf("str")),
        ("items_schema", Value::List(vec![leaf("int")])),
    ]);
    let walk = recurse(&node);
    assert_eq!(walk.sites, vec![Site::Item(2, 0), Site::Key(1)]);
}

#[test]
fn function_wrap_and_call_children() {
    let wrap = record(vec![
        ("type", text("function-wrap")),
        ("return_schema", leaf("int")),
        ("schema", leaf("str")),
    ]);
    assert_eq!(recurse(&wrap).sites, vec![Site::Key(2), Site::Key(1)]);
    let call = record(vec![
        ("type", text("call")),
        ("return_schema", leaf("int")),
        ("arguments_schema", leaf("arguments")),
    ]);
    assert_eq!(recurse(&call).sites, vec![Site::Key(2), Site::Key(1)]);
    let plain = record(vec![
        ("type", text("function-plain")),
        ("schema", leaf("str")),
        ("return_schema", leaf("int")),
    ]);
    assert_eq!(recurse(&plain).sites, vec![Site::Key(2)]);
}

#[test]
fn unknown_tag_falls_back_to_schema() {
    let node = record(vec![("type", text("something-new")), ("schema", leaf("int"))]);
    assert_eq!(recurse(&node).sites, vec![Site::Key(1)]);
}

#[test]
fn definition_ref_has_only_serialization_children() {
    let ser = record(vec![
        ("type", text("function-plain")),
        ("return_schema", leaf("str")),
        ("schema", leaf("int")),
    ]);
    let node = record(vec![
        ("type", text("definition-ref")),
        ("schema_ref", text("A")),
        ("schema", leaf("bool")),
        ("serialization", ser),
    ]);
    let walk = recurse(&node);
    assert_eq!(walk.sites, vec![Site::Item(3, 2), Site::Item(3, 1)]);
    assert_eq!(walk.failure, None);
}

#[test]
fn serialization_that_is_no_record_is_a_wrong_type() {
    let node = record(vec![
        ("type", text("list")),
        ("items_schema", leaf("int")),
        ("serialization", text("plain")),
    ]);
    let walk = recurse(&node);
    assert_eq!(walk.sites, vec![Site::Key(1)]);
    assert_eq!(walk.failure, Some(SchemaError::WrongType));
}

#[test]
fn type_that_is_no_string_is_a_wrong_type() {
    let node = record(vec![("type", Value::Opaque(3))]);
    let walk = recurse(&node);
    assert!(walk.sites.is_empty());
    assert_eq!(walk.failure, Some(SchemaError::WrongType));
}

#[test]
fn put_site_replaces_the_child_and_nothing_else() {
    let node = record(vec![
        ("type", text("union")),
        (
            "choices",
            Value::List(vec![leaf("int"), Value::Tuple(vec![leaf("str"), text("label")])]),
        ),
        ("strict", Value::Opaque(7)),
    ]);
    let out = put_site(node, Site::Field(1, 1, 0), leaf("bool"));
    let expected = record(vec![
        ("type", text("union")),
        (
            "choices",
            Value::List(vec![leaf("int"), Value::Tuple(vec![leaf("bool"), text("label")])]),
        ),
        ("strict", Value::Opaque(7)),
    ]);
    assert_eq!(out, expected);
}

#[test]
fn put_site_out_of_range_changes_nothing() {
    let node = record(vec![("type", text("list")), ("items_schema", leaf("int"))]);
    assert_eq!(put_site(node.clone(), Site::Key(9), leaf("bool")), node);
    assert_eq!(put_site(node.clone(), Site::Item(1, 4), leaf("bool")), node);
}
