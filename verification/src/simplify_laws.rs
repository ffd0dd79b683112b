//! What holds of simplifying references: no `ref` is lost.

use crate::collect::ref_of;
use crate::inline_laws::flattened_spec;
use crate::simplify_schema::{
    flatten_entries_spec, flatten_entry_spec, flatten_from, flatten_spec, key_names, lift_spec,
    make_definitions_result_spec, merged_spec, overlay_spec, required_ref, simplify_spec,
    table_values, tables_spec, Registration,
};
use crate::value::{
    distinct_keys, lemma_position_first, lemma_position_is_first, lemma_position_none, lookup,
    position, store, Entries, Tree,
};
use crate::walk_core_schema::{
    lemma_place_decreases, lemma_recurse_valid, recurse_spec, tag_of, SchemaError,
};
use vstd::prelude::*;

verus! {

/// Whether every definition of the table is a record that bears the `ref` it
/// is kept under, and no `ref` stands twice.
pub open spec fn table_ok(defs: Entries) -> bool {
    &&& distinct_keys(defs)
    &&& forall|j: int|
        0 <= j < defs.len() ==> required_ref((#[trigger] defs[j]).1) == Ok::<
            Seq<char>,
            SchemaError,
        >(defs[j].0)
}

/// Whether the table holds `name`.
pub open spec fn holds(defs: Entries, name: Seq<char>) -> bool {
    position(defs, name) is Some
}

/// Storing a definition under the `ref` it bears keeps a table in order; the
/// table then holds that `ref` and what it held before.
pub proof fn lemma_store_ok(defs: Entries, name: Seq<char>, node: Tree)
    requires
        table_ok(defs),
        required_ref(node) == Ok::<Seq<char>, SchemaError>(name),
    ensures
        table_ok(store(defs, name, node)),
        forall|other: Seq<char>|
            holds(store(defs, name, node), other) <==> holds(defs, other) || other == name,
        holds(defs, name) ==> key_names(store(defs, name, node)) == key_names(defs),
{
    let after = store(defs, name, node);
    lemma_position_is_first(defs, name);
    match position(defs, name) {
        Some(i) => {
            assert(after =~= defs.update(i, (name, node)));
            assert forall|a: int, b: int| 0 <= a < b < after.len() implies (#[trigger] after[a]).0
                != (#[trigger] after[b]).0 by {
                assert(defs[a].0 != defs[b].0);
            }
            assert forall|other: Seq<char>|
                holds(after, other) <==> holds(defs, other) || other == name by {
                crate::ref_counts::lemma_same_keys_same_position(defs, after, other);
            }
            assert(key_names(after) =~= key_names(defs));
        },
        None => {
            assert(after =~= defs.push((name, node)));
            assert forall|a: int, b: int| 0 <= a < b < after.len() implies (#[trigger] after[a]).0
                != (#[trigger] after[b]).0 by {
                if b < defs.len() {
                    assert(defs[a].0 != defs[b].0);
                } else {
                    assert(defs[a].0 != name);
                }
            }
            assert forall|other: Seq<char>|
                holds(after, other) <==> holds(defs, other) || other == name by {
                lemma_position_is_first(defs, other);
                lemma_position_is_first(after, other);
                if other == name {
                    lemma_position_first(after, other, defs.len() as int);
                } else {
                    match position(defs, other) {
                        Some(i) => {
                            lemma_position_first(after, other, i);
                        },
                        None => {
                            lemma_position_none(after, other);
                        },
                    }
                }
            }
        },
    }
}

/// Whether every registration holds a record that bears the `ref` it is
/// registered under.
pub open spec fn bear_their_names(found: Seq<Registration>) -> bool {
    forall|k: int|
        0 <= k < found.len() ==> required_ref((#[trigger] found[k]).node) == Ok::<
            Seq<char>,
            SchemaError,
        >(found[k].name)
}

/// Whether `name` is registered from the `k`-th registration on.
pub open spec fn registered_from(found: Seq<Registration>, k: int, name: Seq<char>) -> bool {
    exists|j: int| k <= j < found.len() && (#[trigger] found[j]).name == name
}

/// Whether `name` is registered.
pub open spec fn registered(found: Seq<Registration>, name: Seq<char>) -> bool {
    registered_from(found, 0, name)
}

/// Storing under `name` makes a table hold `name` and leaves all else as it was.
pub proof fn lemma_store_holds(defs: Entries, name: Seq<char>, node: Tree, other: Seq<char>)
    requires
        table_ok(defs),
        required_ref(node) == Ok::<Seq<char>, SchemaError>(name),
    ensures
        holds(store(defs, name, node), other) <==> holds(defs, other) || other == name,
{
    lemma_store_ok(defs, name, node);
}

/// The two tables made of registrations are in order.
pub proof fn lemma_tables_ok(found: Seq<Registration>, k: int, valid: Entries, invalid: Entries)
    requires
        0 <= k,
        bear_their_names(found),
        table_ok(valid),
        table_ok(invalid),
    ensures
        table_ok(tables_spec(found, k, valid, invalid).0),
        table_ok(tables_spec(found, k, valid, invalid).1),
    decreases found.len() - k,
{
    if k < found.len() {
        let r = found[k];
        if r.invalid {
            lemma_store_ok(invalid, r.name, r.node);
            lemma_tables_ok(found, k + 1, valid, store(invalid, r.name, r.node));
        } else {
            lemma_store_ok(valid, r.name, r.node);
            lemma_tables_ok(found, k + 1, store(valid, r.name, r.node), invalid);
        }
    }
}

/// The two tables made of registrations hold between them what they held and
/// what was registered.
pub proof fn lemma_tables_hold(
    found: Seq<Registration>,
    k: int,
    valid: Entries,
    invalid: Entries,
    name: Seq<char>,
)
    requires
        0 <= k,
        bear_their_names(found),
        table_ok(valid),
        table_ok(invalid),
    ensures
        (holds(tables_spec(found, k, valid, invalid).0, name) || holds(
            tables_spec(found, k, valid, invalid).1,
            name,
        )) <==> (holds(valid, name) || holds(invalid, name) || registered_from(found, k, name)),
    decreases found.len() - k,
{
    if k < found.len() {
        let r = found[k];
        if registered_from(found, k, name) {
            let j = choose|j: int| k <= j < found.len() && (#[trigger] found[j]).name == name;
            if j > k {
                assert(k + 1 <= j < found.len() && found[j].name == name);
            }
        }
        if registered_from(found, k + 1, name) {
            let j = choose|j: int| k + 1 <= j < found.len() && (#[trigger] found[j]).name == name;
            assert(k <= j < found.len() && found[j].name == name);
        }
        if name == r.name {
            assert(k <= k < found.len() && found[k].name == name);
        }
        if r.invalid {
            let invalid1 = store(invalid, r.name, r.node);
            lemma_store_ok(invalid, r.name, r.node);
            lemma_store_holds(invalid, r.name, r.node, name);
            lemma_tables_hold(found, k + 1, valid, invalid1, name);
            assert(tables_spec(found, k, valid, invalid) == tables_spec(
                found,
                k + 1,
                valid,
                invalid1,
            ));
        } else {
            let valid1 = store(valid, r.name, r.node);
            lemma_store_ok(valid, r.name, r.node);
            lemma_store_holds(valid, r.name, r.node, name);
            lemma_tables_hold(found, k + 1, valid1, invalid, name);
            assert(tables_spec(found, k, valid, invalid) == tables_spec(
                found,
                k + 1,
                valid1,
                invalid,
            ));
        }
    }
}

/// Whether `name` is a key of `over` from the `k`-th entry on.
pub open spec fn keyed_from(over: Entries, k: int, name: Seq<char>) -> bool {
    exists|j: int| k <= j < over.len() && (#[trigger] over[j]).0 == name
}

/// A table holds exactly its keys.
pub proof fn lemma_holds_keys(defs: Entries, name: Seq<char>)
    ensures
        holds(defs, name) <==> keyed_from(defs, 0, name),
{
    lemma_position_is_first(defs, name);
    if keyed_from(defs, 0, name) {
        let j = choose|j: int| 0 <= j < defs.len() && (#[trigger] defs[j]).0 == name;
        assert(defs[j].0 == name);
    }
    if let Some(i) = position(defs, name) {
        assert(0 <= i < defs.len() && defs[i].0 == name);
    }
}

/// Overlaying one table in order with another gives a table in order.
pub proof fn lemma_overlay_ok(base: Entries, over: Entries, k: int)
    requires
        0 <= k,
        table_ok(base),
        table_ok(over),
    ensures
        table_ok(overlay_spec(base, over, k)),
    decreases over.len() - k,
{
    if k < over.len() {
        lemma_store_ok(base, over[k].0, over[k].1);
        lemma_overlay_ok(store(base, over[k].0, over[k].1), over, k + 1);
    }
}

/// Overlaying one table with another gives a table that holds what either held.
pub proof fn lemma_overlay_holds(base: Entries, over: Entries, k: int, name: Seq<char>)
    requires
        0 <= k,
        table_ok(base),
        table_ok(over),
    ensures
        holds(overlay_spec(base, over, k), name) <==> (holds(base, name) || keyed_from(
            over,
            k,
            name,
        )),
    decreases over.len() - k,
{
    if k < over.len() {
        let base1 = store(base, over[k].0, over[k].1);
        lemma_store_ok(base, over[k].0, over[k].1);
        lemma_store_holds(base, over[k].0, over[k].1, name);
        lemma_overlay_holds(base1, over, k + 1, name);
        assert(overlay_spec(base, over, k) == overlay_spec(base1, over, k + 1));
        if keyed_from(over, k, name) {
            let j = choose|j: int| k <= j < over.len() && (#[trigger] over[j]).0 == name;
            if j > k {
                assert(k + 1 <= j < over.len() && over[j].0 == name);
            }
        }
        if keyed_from(over, k + 1, name) {
            let j = choose|j: int| k + 1 <= j < over.len() && (#[trigger] over[j]).0 == name;
            assert(k <= j < over.len() && over[j].0 == name);
        }
        if name == over[k].0 {
            assert(k <= k < over.len() && over[k].0 == name);
        }
    }
}

/// An empty table is in order and holds nothing.
pub proof fn lemma_empty_ok()
    ensures
        table_ok(Seq::<(Seq<char>, Tree)>::empty()),
        forall|name: Seq<char>| !holds(Seq::<(Seq<char>, Tree)>::empty(), name),
{
    assert forall|name: Seq<char>| !holds(Seq::<(Seq<char>, Tree)>::empty(), name) by {
        lemma_position_none(Seq::<(Seq<char>, Tree)>::empty(), name);
    }
}

/// The table that registrations leave behind is in order and holds exactly the
/// names that were registered.
pub proof fn lemma_merged_ok(found: Seq<Registration>)
    requires
        bear_their_names(found),
    ensures
        table_ok(merged_spec(found)),
        forall|name: Seq<char>| holds(merged_spec(found), name) <==> registered(found, name),
{
    lemma_empty_ok();
    let empty = Seq::<(Seq<char>, Tree)>::empty();
    lemma_tables_ok(found, 0, empty, empty);
    let (valid, invalid) = tables_spec(found, 0, empty, empty);
    lemma_overlay_ok(invalid, valid, 0);
    assert forall|name: Seq<char>| holds(merged_spec(found), name) <==> registered(
        found,
        name,
    ) by {
        lemma_tables_hold(found, 0, empty, empty, name);
        lemma_overlay_holds(invalid, valid, 0, name);
        lemma_holds_keys(valid, name);
    }
}

/// Flattening a node keeps a table in order, with the same keys in the same
/// places.
pub proof fn lemma_flatten_keeps_table(t: Tree, defs: Entries)
    requires
        table_ok(defs),
    ensures
        table_ok(flatten_spec(t, defs).1),
        key_names(flatten_spec(t, defs).1) == key_names(defs),
    decreases t, 1int, 0int,
{
    if let Ok(tag) = tag_of(t) {
        if tag != "definitions"@ {
            lemma_flatten_from_keeps_table(t, 0, t, defs);
            let (t1, defs1, fault) = flatten_from(t, 0, t, defs);
            if fault is None && recurse_spec(t).failure is None {
                if let Ok(Some(name)) = ref_of(t1) {
                    if position(defs1, name) is Some {
                        if !t1.is_dict() {
                            lemma_position_none(t1.entries(), "ref"@);
                        }
                        lemma_store_ok(defs1, name, t1);
                    }
                }
            }
        }
    }
}

/// Flattening the later children of a node keeps a table in order, with the
/// same keys in the same places.
pub proof fn lemma_flatten_from_keeps_table(t: Tree, k: int, cur: Tree, defs: Entries)
    requires
        table_ok(defs),
    ensures
        table_ok(flatten_from(t, k, cur, defs).1),
        key_names(flatten_from(t, k, cur, defs).1) == key_names(defs),
    decreases t, 0int, recurse_spec(t).sites.len() - k,
{
    let sites = recurse_spec(t).sites;
    if 0 <= k < sites.len() {
        lemma_recurse_valid(t);
        lemma_place_decreases(t, sites[k]);
        lemma_flatten_keeps_table(sites[k].of(t), defs);
        let (child, defs1, fault) = flatten_spec(sites[k].of(t), defs);
        if fault is None {
            lemma_flatten_from_keeps_table(t, k + 1, sites[k].put(cur, child), defs1);
        }
    }
}

/// Flattening the definitions of a table in order keeps it in order, with the
/// same keys in the same places.
pub proof fn lemma_flatten_entries_keep_table(defs: Entries, keys: Seq<Seq<char>>, k: int)
    requires
        table_ok(defs),
    ensures
        table_ok(flatten_entries_spec(defs, keys, k).0),
        key_names(flatten_entries_spec(defs, keys, k).0) == key_names(defs),
    decreases keys.len() - k,
{
    if 0 <= k < keys.len() {
        let key = keys[k];
        lemma_position_is_first(defs, key);
        if let Some(target) = lookup(defs, key) {
            if target.is_dict() {
                lemma_flatten_keeps_table(target, defs);
                let i = position(defs, key)->0;
                assert(required_ref(defs[i].1) == Ok::<Seq<char>, SchemaError>(defs[i].0));
                assert(ref_of(target) == Ok::<Option<Seq<char>>, SchemaError>(Some(key)));
            }
        }
        let (defs1, fault) = flatten_entry_spec(defs, key);
        if fault is None {
            lemma_flatten_entries_keep_table(defs1, keys, k + 1);
        }
    }
}

/// Whether `out` is wrapped with definitions of which exactly one bears the
/// `ref` `name`.
pub open spec fn emitted_once(out: Tree, name: Seq<char>) -> bool {
    &&& tag_of(out) == Ok::<Seq<char>, SchemaError>("definitions"@)
    &&& out.get("definitions"@) matches Some(Tree::List(definitions)) && exists|j: int|
        {
            &&& 0 <= j < definitions.len()
            &&& required_ref(#[trigger] definitions[j]) == Ok::<Seq<char>, SchemaError>(name)
            &&& forall|i: int|
                0 <= i < definitions.len() && required_ref(#[trigger] definitions[i]) == Ok::<
                    Seq<char>,
                    SchemaError,
                >(name) ==> i == j
        }
}

/// Flattening the definitions of a table in turn leaves the table as long as
/// it was, if it gets through.
pub proof fn lemma_flatten_entries_keep_len(defs: Entries, keys: Seq<Seq<char>>, k: int)
    requires
        0 <= k,
        flatten_entries_spec(defs, keys, k).1 is None,
    ensures
        flatten_entries_spec(defs, keys, k).0.len() == defs.len(),
    decreases keys.len() - k,
{
    if k < keys.len() {
        let (defs1, fault) = flatten_entry_spec(defs, keys[k]);
        let target = lookup(defs, keys[k])->0;
        let (node, defs2, fault2) = flatten_spec(target, defs);
        crate::idempotence::lemma_flatten_is_dict(target, defs);
        assert(defs2.len() == key_names(defs2).len());
        assert(defs.len() == key_names(defs).len());
        lemma_same_keys_hold(defs, defs2, keys[k]);
        lemma_position_is_first(defs2, keys[k]);
        lemma_flatten_entries_keep_len(defs1, keys, k + 1);
    }
}

/// A schema wrapped with a table in order emits each `ref` of the table once.
pub proof fn lemma_wrapped_once(schema: Tree, defs: Entries, name: Seq<char>)
    requires
        table_ok(defs),
        holds(defs, name),
    ensures
        emitted_once(make_definitions_result_spec(schema, table_values(defs)), name),
{
    reveal_strlit("type");
    reveal_strlit("schema");
    reveal_strlit("definitions");
    let definitions = table_values(defs);
    let out = make_definitions_result_spec(schema, definitions);
    lemma_position_is_first(defs, name);
    let j = position(defs, name)->0;
    assert(definitions.len() == defs.len());
    assert("type"@.len() != "definitions"@.len());
    assert("schema"@.len() != "definitions"@.len());
    lemma_position_first(out.entries(), "type"@, 0);
    lemma_position_first(out.entries(), "definitions"@, 2);
    assert(required_ref(definitions[j]) == Ok::<Seq<char>, SchemaError>(name)) by {
        assert(required_ref(defs[j].1) == Ok::<Seq<char>, SchemaError>(defs[j].0));
    }
    assert forall|i: int|
        0 <= i < definitions.len() && required_ref(#[trigger] definitions[i]) == Ok::<
            Seq<char>,
            SchemaError,
        >(name) implies i == j by {
        assert(required_ref(defs[i].1) == Ok::<Seq<char>, SchemaError>(defs[i].0));
        if i < j {
            assert(defs[i].0 != defs[j].0);
        }
        if j < i {
            assert(defs[j].0 != defs[i].0);
        }
    }
}

/// No lost refs: where a schema is simplified without inlining, every `ref`
/// that was registered while its definitions were lifted is the `ref` of
/// exactly one of the definitions that come out.
///
/// This is stated of the schemas in which every node is registered as a record
/// that bears the `ref` it is registered under; a definition that is itself a
/// `definitions` node gives way to another node and breaks this.
pub proof fn lemma_no_lost_refs(root: Tree, name: Seq<char>)
    requires
        simplify_spec(root, false) is Ok,
        bear_their_names(lift_spec(root).1),
        registered(lift_spec(root).1, name),
    ensures
        emitted_once(simplify_spec(root, false)->Ok_0, name),
{
    let (lifted, found, fault) = lift_spec(root);
    let defs = merged_spec(found);
    lemma_merged_ok(found);
    let (root1, defs1, fault1) = flatten_spec(lifted, defs);
    lemma_flatten_keeps_table(lifted, defs);
    let (defs2, fault2) = flatten_entries_spec(defs1, key_names(defs1), 0);
    lemma_flatten_entries_keep_table(defs1, key_names(defs1), 0);
    lemma_same_keys_hold(defs, defs1, name);
    lemma_same_keys_hold(defs1, defs2, name);
    lemma_wrapped_once(root1, defs2, name);
}

/// Nothing comes out that was not registered: where a schema is simplified
/// without inlining, what comes out is the flattened schema wrapped with the
/// definitions of the flattened table, and the `j`-th of them bears a `ref`
/// that was registered while the definitions were lifted. Where nothing was
/// registered, the flattened schema comes out alone, without a wrapper.
///
/// With `lemma_no_lost_refs` this makes the `ref`s of the definitions that
/// come out the registered `ref`s, each once.
pub proof fn lemma_emitted_are_registered(root: Tree, j: int)
    requires
        simplify_spec(root, false) is Ok,
        bear_their_names(lift_spec(root).1),
    ensures
        simplify_spec(root, false)->Ok_0 == make_definitions_result_spec(
            flattened_spec(root).0,
            table_values(flattened_spec(root).1),
        ),
        lift_spec(root).1.len() == 0 ==> simplify_spec(root, false)->Ok_0 == flattened_spec(root).0,
        0 <= j < flattened_spec(root).1.len() ==> required_ref(
            table_values(flattened_spec(root).1)[j],
        ) is Ok && registered(
            lift_spec(root).1,
            required_ref(table_values(flattened_spec(root).1)[j])->Ok_0,
        ),
{
    let (lifted, found, fault) = lift_spec(root);
    let defs = merged_spec(found);
    lemma_merged_ok(found);
    let (root1, defs1, fault1) = flatten_spec(lifted, defs);
    lemma_flatten_keeps_table(lifted, defs);
    let (defs2, fault2) = flatten_entries_spec(defs1, key_names(defs1), 0);
    lemma_flatten_entries_keep_table(defs1, key_names(defs1), 0);
    assert(defs2.len() == key_names(defs2).len());
    assert(defs.len() == key_names(defs).len());
    if found.len() == 0 {
        let empty = Seq::<(Seq<char>, Tree)>::empty();
        assert(tables_spec(found, 0, empty, empty) == (empty, empty));
        assert(overlay_spec(empty, empty, 0) == empty);
        assert(table_values(defs2).len() == 0);
    }
    if 0 <= j < defs2.len() {
        let name = defs2[j].0;
        assert(required_ref(defs2[j].1) == Ok::<Seq<char>, SchemaError>(name));
        assert(keyed_from(defs2, 0, name));
        lemma_holds_keys(defs2, name);
        lemma_same_keys_hold(defs, defs1, name);
        lemma_same_keys_hold(defs1, defs2, name);
    }
}

/// Tables with the same keys in the same places hold the same names.
pub proof fn lemma_same_keys_hold(a: Entries, b: Entries, name: Seq<char>)
    requires
        key_names(a) == key_names(b),
    ensures
        holds(a, name) == holds(b, name),
{
    assert(a.len() == key_names(a).len());
    assert(b.len() == key_names(b).len());
    assert forall|i: int| 0 <= i < a.len() implies (#[trigger] a[i]).0 == (#[trigger] b[i]).0 by {
        assert(key_names(a)[i] == a[i].0);
        assert(key_names(b)[i] == b[i].0);
    }
    crate::ref_counts::lemma_same_keys_same_position(a, b, name);
}

/// Whether the table holds under each of its names a node that was registered
/// under that name with the mark `invalid`.
pub open spec fn drawn_as(defs: Entries, found: Seq<Registration>, invalid: bool) -> bool {
    forall|j: int| 0 <= j < defs.len() ==> registered_as(found, #[trigger] defs[j], invalid)
}

/// Whether `pair` is the name and the node of a registration with the mark
/// `invalid`.
pub open spec fn registered_as(found: Seq<Registration>, pair: (Seq<char>, Tree), invalid: bool) -> bool {
    exists|k: int|
        0 <= k < found.len() && (#[trigger] found[k]).name == pair.0 && found[k].node == pair.1
            && found[k].invalid == invalid
}

/// Storing a registration keeps a table drawn from the registrations of its mark.
pub proof fn lemma_store_drawn_as(
    defs: Entries,
    found: Seq<Registration>,
    invalid: bool,
    pair: (Seq<char>, Tree),
)
    requires
        drawn_as(defs, found, invalid),
        registered_as(found, pair, invalid),
    ensures
        drawn_as(store(defs, pair.0, pair.1), found, invalid),
{
    let after = store(defs, pair.0, pair.1);
    lemma_position_is_first(defs, pair.0);
    assert forall|j: int| 0 <= j < after.len() implies registered_as(
        found,
        #[trigger] after[j],
        invalid,
    ) by {
        match position(defs, pair.0) {
            Some(i) => {
                if j != i {
                    assert(after[j] == defs[j]);
                } else {
                    assert(after[j] == pair);
                }
            },
            None => {
                if j < defs.len() {
                    assert(after[j] == defs[j]);
                } else {
                    assert(after[j] == pair);
                }
            },
        }
    }
}

/// Each of the two tables made of registrations is drawn from the
/// registrations of its mark.
pub proof fn lemma_tables_drawn_as(found: Seq<Registration>, k: int, valid: Entries, invalid: Entries)
    requires
        0 <= k,
        drawn_as(valid, found, false),
        drawn_as(invalid, found, true),
    ensures
        drawn_as(tables_spec(found, k, valid, invalid).0, found, false),
        drawn_as(tables_spec(found, k, valid, invalid).1, found, true),
    decreases found.len() - k,
{
    if k < found.len() {
        let r = found[k];
        assert(registered_as(found, (r.name, r.node), r.invalid));
        if r.invalid {
            lemma_store_drawn_as(invalid, found, true, (r.name, r.node));
            lemma_tables_drawn_as(found, k + 1, valid, store(invalid, r.name, r.node));
        } else {
            lemma_store_drawn_as(valid, found, false, (r.name, r.node));
            lemma_tables_drawn_as(found, k + 1, store(valid, r.name, r.node), invalid);
        }
    }
}

/// The table of nodes not marked invalid holds every name that was registered
/// without that mark.
pub proof fn lemma_valid_holds(
    found: Seq<Registration>,
    k: int,
    valid: Entries,
    invalid: Entries,
    name: Seq<char>,
)
    requires
        0 <= k,
        holds(valid, name) || exists|j: int|
            k <= j < found.len() && (#[trigger] found[j]).name == name && !found[j].invalid,
    ensures
        holds(tables_spec(found, k, valid, invalid).0, name),
    decreases found.len() - k,
{
    if k < found.len() {
        let r = found[k];
        if r.invalid {
            if !holds(valid, name) {
                let j = choose|j: int|
                    k <= j < found.len() && (#[trigger] found[j]).name == name && !found[j].invalid;
                assert(k + 1 <= j < found.len() && found[j].name == name && !found[j].invalid);
            }
            lemma_valid_holds(found, k + 1, valid, store(invalid, r.name, r.node), name);
        } else {
            let valid1 = store(valid, r.name, r.node);
            lemma_store_any_holds(valid, r.name, r.node, name);
            if !holds(valid1, name) {
                let j = choose|j: int|
                    k <= j < found.len() && (#[trigger] found[j]).name == name && !found[j].invalid;
                assert(k + 1 <= j < found.len() && found[j].name == name && !found[j].invalid);
            }
            lemma_valid_holds(found, k + 1, valid1, invalid, name);
        }
    }
}

/// Storing under a name makes a table hold that name, and all that it held.
pub proof fn lemma_store_any_holds(defs: Entries, name: Seq<char>, node: Tree, other: Seq<char>)
    ensures
        holds(store(defs, name, node), other) <==> holds(defs, other) || other == name,
        position(defs, other) is Some && other != name ==> lookup(store(defs, name, node), other)
            == lookup(defs, other),
        lookup(store(defs, name, node), name) == Some(node),
{
    let after = store(defs, name, node);
    lemma_position_is_first(defs, name);
    lemma_position_is_first(defs, other);
    match position(defs, name) {
        Some(i) => {
            assert(after =~= defs.update(i, (name, node)));
            crate::ref_counts::lemma_same_keys_same_position(defs, after, other);
            crate::ref_counts::lemma_same_keys_same_position(defs, after, name);
        },
        None => {
            assert(after =~= defs.push((name, node)));
            lemma_position_first(after, name, defs.len() as int);
            match position(defs, other) {
                Some(i) => {
                    lemma_position_first(after, other, i);
                },
                None => {
                    if other != name {
                        lemma_position_none(after, other);
                    }
                },
            }
        },
    }
}

/// What an overlay holds under a name of the table laid over it is what that
/// table holds under it.
pub proof fn lemma_overlay_wins(base: Entries, over: Entries, k: int, name: Seq<char>)
    requires
        0 <= k,
        distinct_keys(over),
        exists|j: int| k <= j < over.len() && (#[trigger] over[j]).0 == name,
    ensures
        lookup(overlay_spec(base, over, k), name) == lookup(over, name),
    decreases over.len() - k,
{
    let j = choose|j: int| k <= j < over.len() && (#[trigger] over[j]).0 == name;
    assert forall|i: int| 0 <= i < j implies (#[trigger] over[i]).0 != name by {
        assert(over[i].0 != over[j].0);
    }
    lemma_position_first(over, name, j);
    let base1 = store(base, over[k].0, over[k].1);
    lemma_store_any_holds(base, over[k].0, over[k].1, name);
    if j == k {
        lemma_overlay_keeps(base1, over, k + 1, name);
    } else {
        assert(k + 1 <= j < over.len() && over[j].0 == name);
        lemma_overlay_wins(base1, over, k + 1, name);
    }
}

/// An overlay leaves what the table holds under a name that the rest of the
/// table laid over it does not hold.
pub proof fn lemma_overlay_keeps(base: Entries, over: Entries, k: int, name: Seq<char>)
    requires
        0 <= k,
        holds(base, name),
        forall|j: int| k <= j < over.len() ==> (#[trigger] over[j]).0 != name,
    ensures
        lookup(overlay_spec(base, over, k), name) == lookup(base, name),
    decreases over.len() - k,
{
    if k < over.len() {
        assert(over[k].0 != name);
        lemma_store_any_holds(base, over[k].0, over[k].1, name);
        lemma_overlay_keeps(store(base, over[k].0, over[k].1), over, k + 1, name);
    }
}

/// Storing keeps the keys of a table apart.
pub proof fn lemma_store_distinct(defs: Entries, name: Seq<char>, node: Tree)
    requires
        distinct_keys(defs),
    ensures
        distinct_keys(store(defs, name, node)),
{
    let after = store(defs, name, node);
    lemma_position_is_first(defs, name);
    match position(defs, name) {
        Some(i) => {
            assert(after =~= defs.update(i, (name, node)));
            assert forall|a: int, b: int| 0 <= a < b < after.len() implies (#[trigger] after[a]).0
                != (#[trigger] after[b]).0 by {
                assert(defs[a].0 != defs[b].0);
            }
        },
        None => {
            assert(after =~= defs.push((name, node)));
            assert forall|a: int, b: int| 0 <= a < b < after.len() implies (#[trigger] after[a]).0
                != (#[trigger] after[b]).0 by {
                if b < defs.len() {
                    assert(defs[a].0 != defs[b].0);
                } else {
                    assert(defs[a].0 != name);
                }
            }
        },
    }
}

/// The tables made of registrations hold no name twice.
pub proof fn lemma_tables_distinct(found: Seq<Registration>, k: int, valid: Entries, invalid: Entries)
    requires
        0 <= k,
        distinct_keys(valid),
        distinct_keys(invalid),
    ensures
        distinct_keys(tables_spec(found, k, valid, invalid).0),
        distinct_keys(tables_spec(found, k, valid, invalid).1),
    decreases found.len() - k,
{
    if k < found.len() {
        let r = found[k];
        if r.invalid {
            lemma_store_distinct(invalid, r.name, r.node);
            lemma_tables_distinct(found, k + 1, valid, store(invalid, r.name, r.node));
        } else {
            lemma_store_distinct(valid, r.name, r.node);
            lemma_tables_distinct(found, k + 1, store(valid, r.name, r.node), invalid);
        }
    }
}

/// The valid one wins: where a `ref` was registered for a node that is not
/// marked invalid, the table of definitions holds under it a node that was
/// registered under it without that mark, whatever else was registered.
pub proof fn lemma_valid_wins(found: Seq<Registration>, name: Seq<char>)
    requires
        exists|j: int| 0 <= j < found.len() && (#[trigger] found[j]).name == name && !found[j].invalid,
    ensures
        lookup(merged_spec(found), name) matches Some(node) && exists|k: int|
            0 <= k < found.len() && (#[trigger] found[k]).name == name && found[k].node == node
                && !found[k].invalid,
{
    let empty = Seq::<(Seq<char>, Tree)>::empty();
    let (valid, invalid) = tables_spec(found, 0, empty, empty);
    lemma_tables_drawn_as(found, 0, empty, empty);
    lemma_tables_distinct(found, 0, empty, empty);
    lemma_valid_holds(found, 0, empty, empty, name);
    lemma_position_is_first(valid, name);
    let i = position(valid, name)->0;
    assert(0 <= i < valid.len() && valid[i].0 == name);
    lemma_overlay_wins(invalid, valid, 0, name);
    assert(registered_as(found, valid[i], false));
}

} // verus!
