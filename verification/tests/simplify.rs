use core_schema::inline_refs::inline_refs;
use core_schema::ref_counts::{count_refs, RefCounts};
use core_schema::schema_traverse::gather_schemas_for_cleaning;
use core_schema::simplify_schema::{
    collect_refs, flatten_refs, make_definitions_result, simplify_schema_references,
};
use core_schema::value::Value;
use core_schema::walk_core_schema::SchemaError;

fn s(text: &str) -> Value {
    Value::Str(text.to_string())
}

fn dict(entries: Vec<(&str, Value)>) -> Value {
    Value::Dict(entries.into_iter().map(|(k, v)| (k.to_string(), v)).collect())
}

fn list(items: Vec<Value>) -> Value {
    Value::List(items)
}

fn reference(name: &str) -> Value {
    dict(vec![("type", s("definition-ref")), ("schema_ref", s(name))])
}

fn with_definitions(schema: Value, definitions: Vec<Value>) -> Value {
    dict(vec![("type", s("definitions")), ("schema", schema), ("definitions", list(definitions))])
}

fn int_a() -> Value {
    dict(vec![("type", s("int")), ("ref", s("A"))])
}

#[test]
fn single_ref_single_use_is_inlined() {
    let root = with_definitions(reference("A"), vec![int_a()]);
    let out = simplify_schema_references(&root, true).unwrap();
    assert_eq!(out, dict(vec![("type", s("int"))]));
}

#[test]
fn single_ref_single_use_is_kept_without_inline() {
    let root = with_definitions(reference("A"), vec![int_a()]);
    let out = simplify_schema_references(&root, false).unwrap();
    assert_eq!(out, with_definitions(reference("A"), vec![int_a()]));
}

#[test]
fn single_ref_two_uses_keeps_definition() {
    let union = dict(vec![("type", s("union")), ("choices", list(vec![reference("A"), reference("A")]))]);
    let root = with_definitions(union.clone(), vec![int_a()]);
    let out = simplify_schema_references(&root, true).unwrap();
    assert_eq!(out, with_definitions(union, vec![int_a()]));
}

#[test]
fn self_recursive_schema_survives() {
    let a = dict(vec![("type", s("list")), ("items_schema", reference("A")), ("ref", s("A"))]);
    let out = simplify_schema_references(&a, true).unwrap();
    assert_eq!(out, with_definitions(reference("A"), vec![a.clone()]));
    let table = dict(vec![("A", a)]);
    let gathered = gather_schemas_for_cleaning(&reference("A"), &table).unwrap();
    assert!(gathered.recursive_def_refs.contains(&"A".to_string()));
}

#[test]
fn serialization_of_the_site_is_kept_on_inline() {
    let ser = dict(vec![("type", s("to-string"))]);
    let site = dict(vec![
        ("type", s("definition-ref")),
        ("schema_ref", s("A")),
        ("serialization", ser.clone()),
    ]);
    let target = dict(vec![("type", s("str")), ("ref", s("A"))]);
    let root = with_definitions(site, vec![target]);
    let out = simplify_schema_references(&root, true).unwrap();
    assert_eq!(out, dict(vec![("type", s("str")), ("serialization", ser)]));
}

#[test]
fn serialization_of_the_site_wins_over_that_of_the_definition() {
    let site_ser = dict(vec![("type", s("to-string"))]);
    let own_ser = dict(vec![("type", s("format"))]);
    let site = dict(vec![
        ("type", s("definition-ref")),
        ("schema_ref", s("A")),
        ("serialization", site_ser.clone()),
    ]);
    let target = dict(vec![("type", s("str")), ("serialization", own_ser), ("ref", s("A"))]);
    let root = with_definitions(site, vec![target]);
    let out = simplify_schema_references(&root, true).unwrap();
    assert_eq!(out, dict(vec![("type", s("str")), ("serialization", site_ser)]));
}

#[test]
fn invalid_then_valid_merge_keeps_the_valid_one() {
    let invalid_a = dict(vec![
        ("type", s("int")),
        ("ref", s("A")),
        ("metadata", dict(vec![("invalid", Value::Opaque(1))])),
    ]);
    let valid_a = dict(vec![("type", s("str")), ("ref", s("A"))]);
    let nested = with_definitions(reference("A"), vec![invalid_a]);
    let root = with_definitions(
        dict(vec![("type", s("list")), ("items_schema", nested)]),
        vec![valid_a.clone()],
    );
    let collected = collect_refs(&root).unwrap();
    assert_eq!(collected.all_defs, vec![("A".to_string(), valid_a)]);
    assert_eq!(
        collected.schema,
        dict(vec![("type", s("list")), ("items_schema", reference("A"))])
    );
}

#[test]
fn valid_then_invalid_merge_keeps_the_valid_one() {
    let invalid_a = dict(vec![
        ("type", s("int")),
        ("ref", s("A")),
        ("metadata", dict(vec![("invalid", Value::Opaque(1))])),
    ]);
    let valid_a = dict(vec![("type", s("str")), ("ref", s("A"))]);
    let root = with_definitions(reference("A"), vec![valid_a.clone(), invalid_a]);
    let collected = collect_refs(&root).unwrap();
    assert_eq!(collected.all_defs, vec![("A".to_string(), valid_a)]);
}

#[test]
fn node_with_ref_moves_into_definitions() {
    let model = dict(vec![("type", s("model")), ("schema", dict(vec![("type", s("int"))])), ("ref", s("M"))]);
    let root = dict(vec![("type", s("list")), ("items_schema", model.clone())]);
    let out = simplify_schema_references(&root, false).unwrap();
    assert_eq!(
        out,
        with_definitions(
            dict(vec![("type", s("list")), ("items_schema", reference("M"))]),
            vec![model]
        )
    );
}

#[test]
fn definitions_come_out_in_the_order_they_are_met() {
    let inner = dict(vec![("type", s("int")), ("ref", s("B"))]);
    let outer = dict(vec![("type", s("list")), ("items_schema", inner.clone()), ("ref", s("A"))]);
    let root = dict(vec![
        ("type", s("dict")),
        ("keys_schema", outer),
        ("values_schema", dict(vec![("type", s("str")), ("ref", s("C"))])),
    ]);
    let out = simplify_schema_references(&root, false).unwrap();
    let expected = with_definitions(
        dict(vec![
            ("type", s("dict")),
            ("keys_schema", reference("A")),
            ("values_schema", reference("C")),
        ]),
        vec![
            dict(vec![("type", s("list")), ("items_schema", reference("B")), ("ref", s("A"))]),
            inner,
            dict(vec![("type", s("str")), ("ref", s("C"))]),
        ],
    );
    assert_eq!(out, expected);
}

#[test]
fn simplify_is_idempotent_on_an_example() {
    let inner = dict(vec![("type", s("int")), ("ref", s("B"))]);
    let outer = dict(vec![("type", s("list")), ("items_schema", inner), ("ref", s("A"))]);
    let root = dict(vec![
        ("type", s("union")),
        ("choices", list(vec![outer.clone(), outer, reference("B")])),
    ]);
    for inline in [false, true] {
        let once = simplify_schema_references(&root, inline).unwrap();
        let twice = simplify_schema_references(&once, inline).unwrap();
        assert_eq!(once, twice);
    }
}

#[test]
fn every_ref_is_emitted_once_without_inline() {
    let a = dict(vec![("type", s("int")), ("ref", s("A"))]);
    let root = dict(vec![("type", s("union")), ("choices", list(vec![a.clone(), a.clone(), a]))]);
    let out = simplify_schema_references(&root, false).unwrap();
    let definitions = match out.get("definitions") {
        Some(Value::List(items)) => items.clone(),
        _ => panic!("no definitions"),
    };
    assert_eq!(definitions, vec![dict(vec![("type", s("int")), ("ref", s("A"))])]);
}

#[test]
fn inlining_leaves_only_shared_or_recursive_definitions() {
    let once = dict(vec![("type", s("int")), ("ref", s("Once"))]);
    let twice = dict(vec![("type", s("str")), ("ref", s("Twice"))]);
    let root = dict(vec![
        ("type", s("tuple")),
        ("items_schema", list(vec![once, twice.clone(), twice.clone()])),
    ]);
    let out = simplify_schema_references(&root, true).unwrap();
    let expected = with_definitions(
        dict(vec![
            ("type", s("tuple")),
            (
                "items_schema",
                list(vec![dict(vec![("type", s("int"))]), reference("Twice"), reference("Twice")]),
            ),
        ]),
        vec![twice],
    );
    assert_eq!(out, expected);
}

#[test]
fn missing_type_is_a_missing_key() {
    let root = dict(vec![("schema", dict(vec![("type", s("int"))]))]);
    assert_eq!(simplify_schema_references(&root, true), Err(SchemaError::MissingKey));
}

#[test]
fn root_that_is_no_record_is_a_wrong_type() {
    assert_eq!(simplify_schema_references(&s("int"), false), Err(SchemaError::WrongType));
}

#[test]
fn definition_without_ref_is_a_missing_key() {
    let root = with_definitions(dict(vec![("type", s("int"))]), vec![dict(vec![("type", s("str"))])]);
    assert_eq!(simplify_schema_references(&root, false), Err(SchemaError::MissingKey));
}

#[test]
fn child_of_wrong_shape_is_a_wrong_type() {
    let root = dict(vec![("type", s("list")), ("items_schema", s("int"))]);
    assert_eq!(simplify_schema_references(&root, false), Err(SchemaError::WrongType));
}

#[test]
fn reference_to_unknown_definition_fails_the_count() {
    let root = reference("Nowhere");
    assert_eq!(simplify_schema_references(&root, true), Err(SchemaError::MissingKey));
    assert_eq!(simplify_schema_references(&root, false), Ok(reference("Nowhere")));
}

#[test]
fn flatten_refuses_definitions() {
    let mut root = with_definitions(dict(vec![("type", s("int"))]), vec![]);
    let mut defs: Vec<(String, Value)> = Vec::new();
    assert_eq!(flatten_refs(&mut root, &mut defs), Err(SchemaError::UnexpectedDefinitions));
}

#[test]
fn flatten_replaces_known_refs_only() {
    let known = dict(vec![("type", s("int")), ("ref", s("K"))]);
    let unknown = dict(vec![("type", s("str")), ("ref", s("U"))]);
    let mut root = dict(vec![
        ("type", s("dict")),
        ("keys_schema", known.clone()),
        ("values_schema", unknown.clone()),
    ]);
    let mut defs = vec![("K".to_string(), dict(vec![("type", s("old"))]))];
    assert_eq!(flatten_refs(&mut root, &mut defs), Ok(()));
    assert_eq!(
        root,
        dict(vec![("type", s("dict")), ("keys_schema", reference("K")), ("values_schema", unknown)])
    );
    assert_eq!(defs, vec![("K".to_string(), known)]);
}

#[test]
fn flatten_keeps_what_was_rewritten_before_a_fault() {
    let known = dict(vec![("type", s("int")), ("ref", s("K"))]);
    let mut root = dict(vec![
        ("type", s("dict")),
        ("keys_schema", known.clone()),
        ("values_schema", dict(vec![("no_type", s("x"))])),
    ]);
    let mut defs = vec![("K".to_string(), dict(vec![("type", s("old"))]))];
    assert_eq!(flatten_refs(&mut root, &mut defs), Err(SchemaError::MissingKey));
    assert_eq!(root.get("keys_schema"), Some(&reference("K")));
    assert_eq!(defs, vec![("K".to_string(), known)]);
}

#[test]
fn count_refs_counts_every_path() {
    let b = dict(vec![("type", s("int")), ("ref", s("B"))]);
    let a = dict(vec![("type", s("list")), ("items_schema", reference("B")), ("ref", s("A"))]);
    let root = dict(vec![("type", s("union")), ("choices", list(vec![reference("A"), reference("A")]))]);
    let defs = vec![("A".to_string(), a), ("B".to_string(), b)];
    let counts = count_refs(&root, &defs).unwrap();
    let plain = |n: u32| RefCounts { ref_count: n, involved_in_recursion: false, recursion_ref_count: 0 };
    assert_eq!(counts, vec![("A".to_string(), plain(2)), ("B".to_string(), plain(2))]);
}

#[test]
fn count_refs_marks_cycles() {
    let a = dict(vec![("type", s("list")), ("items_schema", reference("B")), ("ref", s("A"))]);
    let b = dict(vec![("type", s("list")), ("items_schema", reference("A")), ("ref", s("B"))]);
    let defs = vec![("A".to_string(), a), ("B".to_string(), b)];
    let counts = count_refs(&reference("A"), &defs).unwrap();
    assert_eq!(
        counts,
        vec![
            (
                "A".to_string(),
                RefCounts { ref_count: 2, involved_in_recursion: true, recursion_ref_count: 0 }
            ),
            (
                "B".to_string(),
                RefCounts { ref_count: 1, involved_in_recursion: false, recursion_ref_count: 0 }
            ),
        ]
    );
}

#[test]
fn inline_refs_takes_the_definition_out_of_the_table() {
    let mut root = dict(vec![("type", s("list")), ("items_schema", reference("A"))]);
    let mut defs = vec![("A".to_string(), int_a())];
    let mut counts = count_refs(&root, &defs).unwrap();
    assert_eq!(inline_refs(&mut root, &mut defs, &mut counts), Ok(()));
    assert_eq!(root, dict(vec![("type", s("list")), ("items_schema", dict(vec![("type", s("int"))]))]));
    assert!(defs.is_empty());
    assert_eq!(
        counts,
        vec![(
            "A".to_string(),
            RefCounts { ref_count: 0, involved_in_recursion: false, recursion_ref_count: 0 }
        )]
    );
}

#[test]
fn inline_refs_needs_a_ref_on_the_definition() {
    let mut root = reference("A");
    let mut defs = vec![("A".to_string(), dict(vec![("type", s("int"))]))];
    let mut counts = Vec::new();
    assert_eq!(inline_refs(&mut root, &mut defs, &mut counts), Err(SchemaError::MissingKey));
}

#[test]
fn make_definitions_result_wraps_only_when_there_are_definitions() {
    let schema = dict(vec![("type", s("int"))]);
    assert_eq!(make_definitions_result(schema.clone(), vec![]), schema);
    assert_eq!(
        make_definitions_result(schema.clone(), vec![int_a()]),
        with_definitions(schema, vec![int_a()])
    );
}

#[test]
fn ref_on_the_inner_schema_of_definitions_is_not_lifted() {
    let inner = dict(vec![("type", s("int")), ("ref", s("X"))]);
    let other = dict(vec![("type", s("str")), ("ref", s("Y"))]);
    let root = with_definitions(inner.clone(), vec![other.clone()]);
    let out = simplify_schema_references(&root, false).unwrap();
    assert_eq!(out, with_definitions(inner.clone(), vec![other]));

    let alone = with_definitions(inner.clone(), vec![]);
    let once = simplify_schema_references(&alone, false).unwrap();
    assert_eq!(once, inner);
    let twice = simplify_schema_references(&once, false).unwrap();
    assert_eq!(twice, with_definitions(reference("X"), vec![inner]));
}

#[test]
fn definition_used_once_inside_a_recursive_one_stays() {
    let b = dict(vec![("type", s("int")), ("ref", s("B"))]);
    let a = dict(vec![
        ("type", s("list")),
        (
            "items_schema",
            dict(vec![("type", s("tuple")), ("items_schema", list(vec![reference("A"), b.clone()]))]),
        ),
        ("ref", s("A")),
    ]);
    let out = simplify_schema_references(&a, true).unwrap();
    let flat_a = dict(vec![
        ("type", s("list")),
        (
            "items_schema",
            dict(vec![
                ("type", s("tuple")),
                ("items_schema", list(vec![reference("A"), reference("B")])),
            ]),
        ),
        ("ref", s("A")),
    ]);
    assert_eq!(out, with_definitions(reference("A"), vec![flat_a, b]));
}

#[test]
fn simplify_with_inlining_is_idempotent_on_an_example() {
    let shared = dict(vec![("type", s("str")), ("ref", s("S"))]);
    let once_only = dict(vec![("type", s("list")), ("items_schema", shared.clone()), ("ref", s("L"))]);
    let root = dict(vec![
        ("type", s("tuple")),
        ("items_schema", list(vec![once_only, shared.clone(), shared])),
    ]);
    let once = simplify_schema_references(&root, true).unwrap();
    let twice = simplify_schema_references(&once, true).unwrap();
    assert_eq!(once, twice);
    assert_eq!(
        once,
        with_definitions(
            dict(vec![
                ("type", s("tuple")),
                (
                    "items_schema",
                    list(vec![
                        dict(vec![("type", s("list")), ("items_schema", reference("S"))]),
                        reference("S"),
                        reference("S"),
                    ])
                ),
            ]),
            vec![dict(vec![("type", s("str")), ("ref", s("S"))])]
        )
    );
}

#[test]
fn count_stops_at_the_largest_count() {
    let counts = vec![(
        "A".to_string(),
        RefCounts { ref_count: u32::MAX, involved_in_recursion: false, recursion_ref_count: 0 },
    )];
    let mut root = reference("A");
    let mut defs = vec![("A".to_string(), int_a())];
    let mut counts = counts;
    assert_eq!(inline_refs(&mut root, &mut defs, &mut counts), Ok(()));
    assert_eq!(root, reference("A"));
    assert_eq!(defs.len(), 1);
}

#[test]
fn payload_is_kept_on_every_node_that_stays() {
    let model = dict(vec![
        ("cls", Value::Opaque(1)),
        ("type", s("model")),
        ("config", dict(vec![("title", s("M"))])),
        ("schema", dict(vec![("type", s("int")), ("strict", Value::Opaque(2))])),
        ("ref", s("M")),
        ("metadata", dict(vec![("js_functions", list(vec![Value::Opaque(3)]))])),
    ]);
    let root = dict(vec![
        ("max_length", Value::Opaque(4)),
        ("type", s("list")),
        ("items_schema", model.clone()),
        ("serialization", dict(vec![("type", s("to-string")), ("when_used", s("json"))])),
    ]);
    let kept = simplify_schema_references(&root, false).unwrap();
    let expected_root = dict(vec![
        ("max_length", Value::Opaque(4)),
        ("type", s("list")),
        ("items_schema", reference("M")),
        ("serialization", dict(vec![("type", s("to-string")), ("when_used", s("json"))])),
    ]);
    assert_eq!(kept, with_definitions(expected_root, vec![model.clone()]));

    let inlined = simplify_schema_references(&root, true).unwrap();
    let without_ref = dict(vec![
        ("cls", Value::Opaque(1)),
        ("type", s("model")),
        ("config", dict(vec![("title", s("M"))])),
        ("schema", dict(vec![("type", s("int")), ("strict", Value::Opaque(2))])),
        ("metadata", dict(vec![("js_functions", list(vec![Value::Opaque(3)]))])),
    ]);
    assert_eq!(
        inlined,
        dict(vec![
            ("max_length", Value::Opaque(4)),
            ("type", s("list")),
            ("items_schema", without_ref),
            ("serialization", dict(vec![("type", s("to-string")), ("when_used", s("json"))])),
        ])
    );
}

#[test]
fn nested_definitions_are_lifted_and_simplifying_again_changes_nothing() {
    let b = dict(vec![("type", s("str")), ("ref", s("B"))]);
    let a = dict(vec![
        ("type", s("list")),
        ("items_schema", with_definitions(reference("B"), vec![b.clone()])),
        ("ref", s("A")),
    ]);
    let root = with_definitions(
        dict(vec![("type", s("union")), ("choices", list(vec![reference("A"), reference("B")]))]),
        vec![a],
    );
    let once = simplify_schema_references(&root, false).unwrap();
    let flat_a = dict(vec![("type", s("list")), ("items_schema", reference("B")), ("ref", s("A"))]);
    assert_eq!(
        once,
        with_definitions(
            dict(vec![
                ("type", s("union")),
                ("choices", list(vec![reference("A"), reference("B")]))
            ]),
            vec![flat_a, b]
        )
    );
    assert_eq!(simplify_schema_references(&once, false).unwrap(), once);
}

#[test]
fn definitions_inside_definitions_are_lifted_too() {
    let a = dict(vec![("type", s("int")), ("ref", s("A"))]);
    let b = dict(vec![("type", s("str")), ("ref", s("B"))]);
    let inner = with_definitions(
        dict(vec![("type", s("union")), ("choices", list(vec![reference("A"), reference("B")]))]),
        vec![b.clone()],
    );
    let root = with_definitions(inner, vec![a.clone()]);
    let collected = collect_refs(&root).unwrap();
    assert_eq!(
        collected.schema,
        dict(vec![("type", s("union")), ("choices", list(vec![reference("A"), reference("B")]))])
    );
    assert_eq!(collected.all_defs, vec![("A".to_string(), a), ("B".to_string(), b)]);
}

fn marked(tag: &str, name: &str) -> Value {
    dict(vec![
        ("type", s(tag)),
        ("ref", s(name)),
        ("metadata", dict(vec![("invalid", Value::Opaque(1))])),
    ])
}

#[test]
fn a_valid_node_wins_wherever_it_stands() {
    let valid = dict(vec![("type", s("str")), ("ref", s("A"))]);
    let tuple = |items: Vec<Value>| dict(vec![("type", s("tuple")), ("items_schema", list(items))]);
    for root in [
        tuple(vec![marked("int", "A"), valid.clone(), marked("bool", "A")]),
        tuple(vec![valid.clone(), marked("int", "A")]),
        with_definitions(tuple(vec![marked("int", "A")]), vec![valid.clone()]),
        with_definitions(tuple(vec![valid.clone()]), vec![marked("int", "A")]),
    ] {
        let collected = collect_refs(&root).unwrap();
        assert_eq!(collected.all_defs, vec![("A".to_string(), valid.clone())]);
    }
}

#[test]
fn a_name_marked_both_ways_can_change_the_order_on_the_second_run() {
    let valid = dict(vec![("type", s("str")), ("ref", s("A"))]);
    let root = with_definitions(
        dict(vec![("type", s("int"))]),
        vec![marked("int", "A"), marked("bool", "B"), valid.clone()],
    );
    let once = simplify_schema_references(&root, false).unwrap();
    assert_eq!(
        once,
        with_definitions(dict(vec![("type", s("int"))]), vec![valid.clone(), marked("bool", "B")])
    );
    let twice = simplify_schema_references(&once, false).unwrap();
    assert_eq!(
        twice,
        with_definitions(dict(vec![("type", s("int"))]), vec![marked("bool", "B"), valid])
    );
}

#[test]
fn marks_on_nodes_without_a_ref_do_not_disturb_idempotence() {
    let noted = dict(vec![
        ("type", s("list")),
        ("items_schema", int_a()),
        ("metadata", dict(vec![("invalid", Value::Opaque(1))])),
    ]);
    let once = simplify_schema_references(&noted, false).unwrap();
    let twice = simplify_schema_references(&once, false).unwrap();
    assert_eq!(once, twice);
}

#[test]
fn inlining_after_simplifying_is_inlining_at_once() {
    let b = dict(vec![("type", s("list")), ("items_schema", reference("A")), ("ref", s("B"))]);
    let root = dict(vec![
        ("type", s("tuple")),
        ("items_schema", list(vec![int_a(), b, reference("B"), reference("B")])),
    ]);
    let plain = simplify_schema_references(&root, false).unwrap();
    assert_eq!(
        simplify_schema_references(&plain, true),
        simplify_schema_references(&root, true)
    );
}

#[test]
fn a_serialization_dropped_on_inlining_can_free_a_definition_for_the_second_run() {
    let b = dict(vec![("type", s("str")), ("ref", s("B"))]);
    let own = dict(vec![("type", s("function-plain")), ("schema", reference("B"))]);
    let a = dict(vec![("type", s("int")), ("ref", s("A")), ("serialization", own)]);
    let site = dict(vec![
        ("type", s("definition-ref")),
        ("schema_ref", s("A")),
        ("serialization", dict(vec![("type", s("to-string"))])),
    ]);
    let root = with_definitions(
        dict(vec![("type", s("tuple")), ("items_schema", list(vec![site, reference("B")]))]),
        vec![a, b.clone()],
    );
    let inlined = dict(vec![
        ("type", s("int")),
        ("serialization", dict(vec![("type", s("to-string"))])),
    ]);
    let once = simplify_schema_references(&root, true).unwrap();
    assert_eq!(
        once,
        with_definitions(
            dict(vec![
                ("type", s("tuple")),
                ("items_schema", list(vec![inlined.clone(), reference("B")])),
            ]),
            vec![b],
        )
    );
    let twice = simplify_schema_references(&once, true).unwrap();
    assert_eq!(
        twice,
        dict(vec![
            ("type", s("tuple")),
            ("items_schema", list(vec![inlined, dict(vec![("type", s("str"))])])),
        ])
    );
}

#[test]
fn an_inlined_definition_is_gone_and_spent() {
    let b = dict(vec![("type", s("list")), ("items_schema", reference("A")), ("ref", s("B"))]);
    let mut table = vec![("A".to_string(), int_a()), ("B".to_string(), b)];
    let mut root = dict(vec![
        ("type", s("tuple")),
        ("items_schema", list(vec![dict(vec![("type", s("bool"))]), reference("B")])),
    ]);
    let mut counts = count_refs(&root, &table).unwrap();
    assert_eq!(inline_refs(&mut root, &mut table, &mut counts), Ok(()));
    assert!(table.is_empty());
    assert!(counts.iter().all(|(_, c)| c.ref_count == 0));
    assert_eq!(
        root,
        dict(vec![
            ("type", s("tuple")),
            (
                "items_schema",
                list(vec![
                    dict(vec![("type", s("bool"))]),
                    dict(vec![("type", s("list")), ("items_schema", dict(vec![("type", s("int"))]))]),
                ])
            ),
        ])
    );
}

#[test]
fn marked_definitions_come_first_and_stay_there() {
    let valid = dict(vec![("type", s("str")), ("ref", s("B"))]);
    for definitions in [
        vec![marked("int", "A"), valid.clone()],
        vec![valid.clone(), marked("int", "A")],
    ] {
        let root = with_definitions(dict(vec![("type", s("int"))]), definitions);
        let once = simplify_schema_references(&root, false).unwrap();
        assert_eq!(
            once,
            with_definitions(
                dict(vec![("type", s("int"))]),
                vec![marked("int", "A"), valid.clone()]
            )
        );
        assert_eq!(simplify_schema_references(&once, false), Ok(once));
    }
}
