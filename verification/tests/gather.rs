use core_schema::schema_traverse::{gather_schema, gather_schemas_for_cleaning, GatherCtx};
use core_schema::value::Value;
use core_schema::walk_core_schema::SchemaError;

const DISCRIMINATOR: &str = "pydantic.internal.union_discriminator";

fn text(value: &str) -> Value {
    Value::Str(value.to_string())
}

fn record(entries: Vec<(&str, Value)>) -> Value {
    Value::Dict(entries.into_iter().map(|(k, v)| (k.to_string(), v)).collect())
}

fn reference(name: &str) -> Value {
    record(vec![("type", text("definition-ref")), ("schema_ref", text(name))])
}

#[test]
fn gather_notes_every_reference_site() {
    let a = record(vec![("type", text("int")), ("ref", text("A"))]);
    let root = record(vec![
        ("type", text("union")),
        ("choices", Value::List(vec![reference("A"), reference("B"), reference("A")])),
    ]);
    let out = gather_schemas_for_cleaning(&root, &record(vec![("A", a)])).unwrap();
    assert_eq!(
        out.def_refs,
        vec![
            ("A".to_string(), vec![reference("A"), reference("A")]),
            ("B".to_string(), vec![reference("B")]),
        ]
    );
    assert!(out.recursive_def_refs.is_empty());
    assert!(out.discriminators.is_empty());
    assert!(out.recursively_seen_refs.is_empty());
}

#[test]
fn gather_reports_every_definition_on_a_cycle() {
    let a = record(vec![("type", text("list")), ("items_schema", reference("B")), ("ref", text("A"))]);
    let b = record(vec![("type", text("list")), ("items_schema", reference("A")), ("ref", text("B"))]);
    let c = record(vec![("type", text("int")), ("ref", text("C"))]);
    let root = record(vec![
        ("type", text("tuple")),
        ("items_schema", Value::List(vec![reference("C"), reference("A")])),
    ]);
    let table = record(vec![("A", a), ("B", b), ("C", c)]);
    let out = gather_schemas_for_cleaning(&root, &table).unwrap();
    let mut recursive = out.recursive_def_refs.clone();
    recursive.sort();
    assert_eq!(recursive, vec!["A".to_string(), "B".to_string()]);
    assert_eq!(
        out.def_refs,
        vec![
            ("C".to_string(), vec![reference("C")]),
            ("A".to_string(), vec![reference("A")]),
            ("B".to_string(), vec![reference("B")]),
        ]
    );
}

#[test]
fn gather_collects_deferred_discriminators_children_first() {
    let inner = record(vec![
        ("type", text("union")),
        ("choices", Value::List(vec![])),
        ("metadata", record(vec![(DISCRIMINATOR, text("kind"))])),
    ]);
    let outer = record(vec![
        ("type", text("list")),
        ("items_schema", inner.clone()),
        ("metadata", record(vec![(DISCRIMINATOR, Value::Opaque(5))])),
    ]);
    let out = gather_schemas_for_cleaning(&outer, &record(vec![])).unwrap();
    assert_eq!(out.discriminators, vec![(inner, text("kind")), (outer, Value::Opaque(5))]);
}

#[test]
fn gather_is_a_function_of_its_input() {
    let a = record(vec![("type", text("list")), ("items_schema", reference("A")), ("ref", text("A"))]);
    let table = record(vec![("A", a)]);
    let first = gather_schemas_for_cleaning(&reference("A"), &table).unwrap();
    let second = gather_schemas_for_cleaning(&reference("A"), &table).unwrap();
    assert_eq!(first.def_refs, second.def_refs);
    assert_eq!(first.recursive_def_refs, second.recursive_def_refs);
    assert_eq!(first.discriminators, second.discriminators);
}

#[test]
fn gather_walks_the_serialization_of_a_reference_whether_it_resolves_or_not() {
    let ser = record(vec![("type", text("function-plain")), ("return_schema", reference("B"))]);
    let site = record(vec![
        ("type", text("definition-ref")),
        ("schema_ref", text("A")),
        ("serialization", ser),
    ]);
    let a = record(vec![("type", text("int")), ("ref", text("A"))]);
    let out = gather_schemas_for_cleaning(&site, &record(vec![("A", a)])).unwrap();
    assert_eq!(
        out.def_refs,
        vec![("A".to_string(), vec![site.clone()]), ("B".to_string(), vec![reference("B")])]
    );
    let out = gather_schemas_for_cleaning(&site, &record(vec![])).unwrap();
    assert_eq!(
        out.def_refs,
        vec![("A".to_string(), vec![site]), ("B".to_string(), vec![reference("B")])]
    );
}

#[test]
fn gather_reads_the_metadata_of_every_reference() {
    let marked = |name: &str, d: &str| {
        record(vec![
            ("type", text("definition-ref")),
            ("schema_ref", text(name)),
            ("metadata", record(vec![(DISCRIMINATOR, text(d))])),
        ])
    };
    // The reference inside `A` closes the cycle; the one to `B` has no target.
    let a = record(vec![
        ("type", text("list")),
        ("items_schema", marked("A", "closing")),
        ("ref", text("A")),
    ]);
    let root = record(vec![
        ("type", text("tuple")),
        ("items_schema", Value::List(vec![marked("A", "entering"), marked("B", "missing")])),
    ]);
    let out = gather_schemas_for_cleaning(&root, &record(vec![("A", a)])).unwrap();
    assert_eq!(
        out.discriminators,
        vec![
            (marked("A", "closing"), text("closing")),
            (marked("A", "entering"), text("entering")),
            (marked("B", "missing"), text("missing")),
        ]
    );
    assert_eq!(out.recursive_def_refs, vec!["A".to_string()]);
    assert_eq!(
        out.def_refs,
        vec![
            ("A".to_string(), vec![marked("A", "entering")]),
            ("B".to_string(), vec![marked("B", "missing")]),
        ]
    );
}

#[test]
fn gather_visits_the_inner_schema_of_a_definitions_node_first() {
    let a = record(vec![("type", text("list")), ("items_schema", reference("X")), ("ref", text("A"))]);
    let root = record(vec![
        ("type", text("definitions")),
        ("definitions", Value::List(vec![a])),
        ("schema", reference("Y")),
    ]);
    let out = gather_schemas_for_cleaning(&root, &record(vec![])).unwrap();
    assert_eq!(
        out.def_refs,
        vec![("Y".to_string(), vec![reference("Y")]), ("X".to_string(), vec![reference("X")])]
    );
}

#[test]
fn a_fault_leaves_the_walk_outside_every_definition() {
    let no_name = record(vec![("type", text("definition-ref"))]);
    let a = record(vec![("type", text("list")), ("items_schema", no_name), ("ref", text("A"))]);
    let mut ctx = GatherCtx {
        def_refs: Vec::new(),
        recursive_def_refs: Vec::new(),
        discriminators: Vec::new(),
        recursively_seen_refs: vec!["outer".to_string()],
    };
    let table = vec![("A".to_string(), a)];
    assert_eq!(gather_schema(&reference("A"), &table, &mut ctx), Some(SchemaError::MissingKey));
    assert_eq!(ctx.recursively_seen_refs, vec!["outer".to_string()]);
    assert_eq!(ctx.def_refs, vec![("A".to_string(), vec![reference("A")])]);
}

#[test]
fn gather_faults() {
    let table = record(vec![]);
    assert!(matches!(
        gather_schemas_for_cleaning(&reference("A"), &text("defs")),
        Err(SchemaError::WrongType)
    ));
    let no_ref = record(vec![("type", text("definition-ref"))]);
    assert!(matches!(gather_schemas_for_cleaning(&no_ref, &table), Err(SchemaError::MissingKey)));
    let no_type = record(vec![("schema", text("x"))]);
    assert!(matches!(gather_schemas_for_cleaning(&no_type, &table), Err(SchemaError::MissingKey)));
    let bad_meta = record(vec![("type", text("int")), ("metadata", text("x"))]);
    assert!(matches!(gather_schemas_for_cleaning(&bad_meta, &table), Err(SchemaError::WrongType)));
    let bad_target = record(vec![("A", text("int"))]);
    assert!(matches!(
        gather_schemas_for_cleaning(&reference("A"), &bad_target),
        Err(SchemaError::WrongType)
    ));
}

#[test]
fn gather_visits_the_return_schema_of_a_wrapping_function_first() {
    let root = record(vec![
        ("type", text("function-wrap")),
        ("schema", reference("inner")),
        ("return_schema", reference("returned")),
    ]);
    let out = gather_schemas_for_cleaning(&root, &record(vec![])).unwrap();
    assert_eq!(
        out.def_refs,
        vec![
            ("returned".to_string(), vec![reference("returned")]),
            ("inner".to_string(), vec![reference("inner")]),
        ]
    );
}

#[test]
fn gather_reports_a_ring_of_definitions_entered_anywhere() {
    let link = |name: &str, to: &str| {
        record(vec![("type", text("list")), ("items_schema", reference(to)), ("ref", text(name))])
    };
    let table = record(vec![("A", link("A", "B")), ("B", link("B", "C")), ("C", link("C", "A"))]);
    for start in ["A", "B", "C"] {
        let out = gather_schemas_for_cleaning(&reference(start), &table).unwrap();
        let mut recursive = out.recursive_def_refs.clone();
        recursive.sort();
        assert_eq!(recursive, vec!["A".to_string(), "B".to_string(), "C".to_string()]);
    }
}
