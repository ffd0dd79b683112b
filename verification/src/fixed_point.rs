//! Simplifying a schema that is simplified already gives the same schema.

use crate::collect::{invalid_schema_spec, ref_of};
use crate::inline_laws::touched;
use crate::inline_laws::touched_from;
use crate::inline_refs::{inlinable, inline_children, inline_from, inline_spec, Inlined};
use crate::ref_counts::{count_refs_spec, schema_ref_of, usage, Counts};
use crate::simplify_schema::{
    definition_ref, flatten_entries_spec, flatten_entry_spec, flatten_from, flatten_spec,
    kept_fold, key_names, lift_children_spec, lift_definitions_spec, lift_entries_spec, lift_from,
    lift_node_spec, lift_spec, make_definitions_result_spec, merged_spec, overlay_spec,
    required_ref, simplify_spec, table_values, tables_spec, Registration,
};
use crate::value::{
    distinct_keys, lemma_position_first, lemma_position_none, lemma_with_child_same, lookup,
    position, store, Entries, Tree,
};
use crate::walk_core_schema::{
    lemma_place_decreases, lemma_recurse_valid, recurse_spec, tag_of, Place, SchemaError,
};
use vstd::prelude::*;

verus! {

/// Whether a tree holds no `definitions` node and no node that bears a `ref`,
/// and can be walked without a fault.
pub open spec fn plain(t: Tree) -> bool
    decreases t, 1int, 0int,
{
    &&& tag_of(t) matches Ok(tag) && tag != "definitions"@
    &&& ref_of(t) == Ok::<Option<Seq<char>>, SchemaError>(None)
    &&& recurse_spec(t).failure is None
    &&& plain_from(t, 0)
}

/// Whether the child schemas of `t` from the `k`-th on are plain.
pub open spec fn plain_from(t: Tree, k: int) -> bool
    decreases t, 0int, recurse_spec(t).sites.len() - k,
{
    let sites = recurse_spec(t).sites;
    if 0 <= k < sites.len() {
        proof {
            lemma_recurse_valid(t);
            lemma_place_decreases(t, sites[k]);
        }
        plain(sites[k].of(t)) && plain_from(t, k + 1)
    } else {
        true
    }
}

/// Putting at a place what stands there changes nothing.
pub proof fn lemma_put_same(p: Place, t: Tree)
    requires
        p.valid(t),
    ensures
        p.put(t, p.of(t)) == t,
{
    match p {
        Place::Key(a) => {
            lemma_with_child_same(t, a);
        },
        Place::Item(a, b) => {
            lemma_with_child_same(t.child(a), b);
            lemma_with_child_same(t, a);
        },
        Place::Field(a, b, c) => {
            lemma_with_child_same(t.child(a).child(b), c);
            lemma_with_child_same(t.child(a), b);
            lemma_with_child_same(t, a);
        },
    }
}

/// Lifting leaves a plain tree as it is and registers nothing.
pub proof fn lemma_plain_lift(t: Tree)
    requires
        plain(t),
    ensures
        lift_spec(t) == (t, Seq::<Registration>::empty(), None::<SchemaError>),
        lift_children_spec(t) == (t, Seq::<Registration>::empty(), None::<SchemaError>),
    decreases t, 1int, 0int,
{
    lemma_plain_lift_from(t, 0);
}

/// Lifting leaves the plain children of a node as they are and registers
/// nothing.
pub proof fn lemma_plain_lift_from(t: Tree, k: int)
    requires
        0 <= k,
        plain_from(t, k),
    ensures
        lift_from(t, k, t) == (t, Seq::<Registration>::empty(), None::<SchemaError>),
    decreases t, 0int, recurse_spec(t).sites.len() - k,
{
    let sites = recurse_spec(t).sites;
    if k < sites.len() {
        lemma_recurse_valid(t);
        lemma_place_decreases(t, sites[k]);
        lemma_plain_lift(sites[k].of(t));
        lemma_put_same(sites[k], t);
        lemma_plain_lift_from(t, k + 1);
        assert(Seq::<Registration>::empty() + Seq::<Registration>::empty() =~= Seq::<
            Registration,
        >::empty());
    }
}

/// Flattening leaves a plain tree and the table as they are.
pub proof fn lemma_plain_flatten(t: Tree, defs: Entries)
    requires
        plain(t),
    ensures
        flatten_spec(t, defs) == (t, defs, None::<SchemaError>),
    decreases t, 1int, 0int,
{
    lemma_plain_flatten_from(t, 0, defs);
}

/// Flattening leaves the plain children of a node and the table as they are.
pub proof fn lemma_plain_flatten_from(t: Tree, k: int, defs: Entries)
    requires
        0 <= k,
        plain_from(t, k),
    ensures
        flatten_from(t, k, t, defs) == (t, defs, None::<SchemaError>),
    decreases t, 0int, recurse_spec(t).sites.len() - k,
{
    let sites = recurse_spec(t).sites;
    if k < sites.len() {
        lemma_recurse_valid(t);
        lemma_place_decreases(t, sites[k]);
        lemma_plain_flatten(sites[k].of(t), defs);
        lemma_put_same(sites[k], t);
        lemma_plain_flatten_from(t, k + 1, defs);
    }
}

/// Whether none of the definitions whose references inlining comes upon in `t`
/// is fit to be inlined.
pub open spec fn nothing_to_inline(t: Tree, defs: Entries, counts: Counts) -> bool {
    forall|name: Seq<char>| #[trigger]
        touched(t, defs, counts).contains(name) ==> !inlinable(usage(counts, name))
}

/// Whether none of the definitions whose references inlining comes upon in the
/// later children of `t` is fit to be inlined.
pub open spec fn nothing_to_inline_from(t: Tree, k: int, defs: Entries, counts: Counts) -> bool {
    forall|name: Seq<char>| #[trigger]
        touched_from(t, k, defs, counts).contains(name) ==> !inlinable(usage(counts, name))
}

/// Inlining that gets through and finds nothing to inline leaves everything
/// as it is.
pub proof fn lemma_idle_inline(t: Tree, defs: Entries, counts: Counts)
    requires
        inline_spec(t, defs, counts).fault is None,
        nothing_to_inline(t, defs, counts),
    ensures
        inline_spec(t, defs, counts) == (Inlined { node: t, defs, counts, fault: None }),
    decreases defs.len(), t, 2int, 0int,
{
    let tag = tag_of(t)->Ok_0;
    if tag != "definition-ref"@ {
        assert(inline_spec(t, defs, counts) == inline_children(t, defs, counts));
        assert(touched(t, defs, counts) == touched_from(t, 0, defs, counts));
        lemma_idle_children(t, defs, counts);
    } else {
        let name = schema_ref_of(t)->Ok_0;
        let c = usage(counts, name);
        assert(touched(t, defs, counts).contains(name)) by {
            if !inlinable(c) {
                assert(touched(t, defs, counts) == touched_from(t, 0, defs, counts).insert(name));
            }
        }
        assert(!inlinable(c));
        assert(inline_spec(t, defs, counts) == inline_children(t, defs, counts));
        assert(touched(t, defs, counts) == touched_from(t, 0, defs, counts).insert(name));
        assert forall|other: Seq<char>| #[trigger]
            touched_from(t, 0, defs, counts).contains(other) implies !inlinable(
            usage(counts, other),
        ) by {
            assert(touched(t, defs, counts).contains(other));
        }
        lemma_idle_children(t, defs, counts);
    }
}

/// Inlining that gets through the children of a node and finds nothing to
/// inline leaves everything as it is.
pub proof fn lemma_idle_children(t: Tree, defs: Entries, counts: Counts)
    requires
        inline_children(t, defs, counts).fault is None,
        nothing_to_inline_from(t, 0, defs, counts),
    ensures
        inline_children(t, defs, counts) == (Inlined { node: t, defs, counts, fault: None }),
    decreases defs.len(), t, 1int, 0int,
{
    let r = inline_from(t, 0, t, defs, counts);
    assert(r.fault is None);
    lemma_idle_inline_from(t, 0, defs, counts);
}

/// Inlining that gets through the later children of a node and finds nothing
/// to inline leaves everything as it is.
pub proof fn lemma_idle_inline_from(t: Tree, k: int, defs: Entries, counts: Counts)
    requires
        0 <= k,
        inline_from(t, k, t, defs, counts).fault is None,
        nothing_to_inline_from(t, k, defs, counts),
    ensures
        inline_from(t, k, t, defs, counts) == (Inlined { node: t, defs, counts, fault: None }),
    decreases defs.len(), t, 0int, recurse_spec(t).sites.len() - k,
{
    let sites = recurse_spec(t).sites;
    if k < sites.len() {
        lemma_recurse_valid(t);
        lemma_place_decreases(t, sites[k]);
        let child = sites[k].of(t);
        let r = inline_spec(child, defs, counts);
        crate::inline_refs::lemma_inline_shrinks(child, defs, counts);
        assert(r.fault is None);
        assert forall|name: Seq<char>| #[trigger]
            touched(child, defs, counts).contains(name) implies !inlinable(
            usage(counts, name),
        ) by {
            assert(touched_from(t, k, defs, counts).contains(name));
        }
        lemma_idle_inline(child, defs, counts);
        lemma_put_same(sites[k], t);
        assert forall|name: Seq<char>| #[trigger]
            touched_from(t, k + 1, defs, counts).contains(name) implies !inlinable(
            usage(counts, name),
        ) by {
            assert(touched_from(t, k, defs, counts).contains(name));
        }
        lemma_idle_inline_from(t, k + 1, defs, counts);
    }
}

/// Whether `d` is a definition in simplified form under the `ref` `key`: no
/// `definitions` node, bearing `key`, with plain children.
pub open spec fn flat_definition(d: Tree, key: Seq<char>) -> bool {
    &&& tag_of(d) matches Ok(tag) && tag != "definitions"@
    &&& ref_of(d) == Ok::<Option<Seq<char>>, SchemaError>(Some(key))
    &&& invalid_schema_spec(d) is Ok
    &&& recurse_spec(d).failure is None
    &&& plain_from(d, 0)
}

/// Whether a table of definitions is in simplified form: no `ref` twice, and
/// every definition in simplified form under its `ref`.
pub open spec fn flat_table(table: Entries) -> bool {
    &&& distinct_keys(table)
    &&& forall|j: int|
        0 <= j < table.len() ==> flat_definition((#[trigger] table[j]).1, table[j].0)
}

/// The registration of the `j`-th definition of a table in simplified form.
pub open spec fn registration_of(table: Entries, j: int) -> Registration {
    Registration {
        name: table[j].0,
        invalid: invalid_schema_spec(table[j].1)->Ok_0,
        node: table[j].1,
    }
}

/// Whether the first `m` definitions of the table are marked invalid and the
/// others are not.
pub open spec fn marks_first(table: Entries, m: int) -> bool {
    &&& 0 <= m <= table.len()
    &&& forall|j: int|
        0 <= j < table.len() ==> invalid_schema_spec((#[trigger] table[j]).1) == Ok::<
            bool,
            SchemaError,
        >(j < m)
}

/// What lifting registers for the definitions of a table in simplified form
/// from the `j`-th on: each definition twice, once as a node that bears a `ref`
/// and once as a definition.
pub open spec fn twice_from(table: Entries, j: int) -> Seq<Registration>
    decreases table.len() - j,
{
    if 0 <= j < table.len() {
        seq![registration_of(table, j), registration_of(table, j)] + twice_from(table, j + 1)
    } else {
        Seq::empty()
    }
}

/// Lifting leaves a definition in simplified form as it is and registers it.
pub proof fn lemma_flat_lift(d: Tree, key: Seq<char>)
    requires
        flat_definition(d, key),
    ensures
        lift_spec(d) == (
            d,
            seq![Registration { name: key, invalid: invalid_schema_spec(d)->Ok_0, node: d }],
            None::<SchemaError>,
        ),
        d.is_dict(),
        d.get("ref"@) == Some(Tree::Str(key)),
        required_ref(d) == Ok::<Seq<char>, SchemaError>(key),
{
    lemma_plain_lift_from(d, 0);
    let reg = Registration { name: key, invalid: invalid_schema_spec(d)->Ok_0, node: d };
    assert(seq![reg] + Seq::<Registration>::empty() =~= seq![reg]);
    assert(lift_node_spec(d) == (d, seq![reg], None::<SchemaError>));
}

/// Where the three keys of a wrapped schema stand.
pub proof fn lemma_wrapped_shape(root: Tree, definitions: Seq<Tree>)
    requires
        definitions.len() > 0,
    ensures
        ({
            let s = make_definitions_result_spec(root, definitions);
            &&& s.is_dict()
            &&& s.arity() == 3
            &&& tag_of(s) == Ok::<Seq<char>, SchemaError>("definitions"@)
            &&& position(s.entries(), "schema"@) == Some(1int)
            &&& position(s.entries(), "definitions"@) == Some(2int)
            &&& s.child(1) == root
            &&& s.child(2) == Tree::List(definitions)
        }),
{
    reveal_strlit("type");
    reveal_strlit("schema");
    reveal_strlit("definitions");
    let s = make_definitions_result_spec(root, definitions);
    assert("type"@.len() == 4 && "schema"@.len() == 6 && "definitions"@.len() == 11);
    lemma_position_first(s.entries(), "type"@, 0);
    lemma_position_first(s.entries(), "schema"@, 1);
    lemma_position_first(s.entries(), "definitions"@, 2);
}

/// Lifting the definitions of a schema wrapped with a table in simplified form
/// registers each of them twice and finds no fault.
pub proof fn lemma_wrapped_entries(root: Tree, table: Entries, j: int)
    requires
        flat_table(table),
        table.len() > 0,
        0 <= j,
    ensures
        lift_entries_spec(make_definitions_result_spec(root, table_values(table)), 2, j) == (
            twice_from(table, j),
            None::<SchemaError>,
        ),
    decreases table.len() - j,
{
    let s = make_definitions_result_spec(root, table_values(table));
    lemma_wrapped_shape(root, table_values(table));
    if j < table.len() {
        let d = table[j].1;
        let key = table[j].0;
        assert(s.child(2).child(j) == d);
        lemma_flat_lift(d, key);
        lemma_wrapped_entries(root, table, j + 1);
        let reg = registration_of(table, j);
        assert(seq![reg] + seq![reg] + twice_from(table, j + 1) =~= seq![reg, reg] + twice_from(
            table,
            j + 1,
        ));
    }
}

/// The registrations of a table in simplified form, by place.
pub proof fn lemma_twice_index(table: Entries, i: int, j: int)
    requires
        0 <= i <= j < table.len(),
    ensures
        twice_from(table, i).len() == 2 * (table.len() - i),
        twice_from(table, i)[2 * (j - i)] == registration_of(table, j),
        twice_from(table, i)[2 * (j - i) + 1] == registration_of(table, j),
    decreases table.len() - i,
{
    lemma_twice_len(table, i + 1);
    if i < j {
        lemma_twice_index(table, i + 1, j);
    }
}

/// How many registrations a table in simplified form gives.
pub proof fn lemma_twice_len(table: Entries, i: int)
    requires
        0 <= i <= table.len(),
    ensures
        twice_from(table, i).len() == 2 * (table.len() - i),
    decreases table.len() - i,
{
    if i < table.len() {
        lemma_twice_len(table, i + 1);
    }
}

/// The registrations of the unmarked definitions of a table in simplified
/// form, which come last, leave those definitions behind as the valid ones.
pub proof fn lemma_twice_valid(table: Entries, m: int, j: int)
    requires
        flat_table(table),
        marks_first(table, m),
        m <= j <= table.len(),
    ensures
        tables_spec(twice_from(table, 0), 2 * j, table.subrange(m, j), table.take(m)) == (
            table.subrange(m, table.len() as int),
            table.take(m),
        ),
    decreases table.len() - j,
{
    let found = twice_from(table, 0);
    lemma_twice_len(table, 0);
    if j < table.len() {
        lemma_twice_index(table, 0, j);
        let reg = registration_of(table, j);
        assert(!reg.invalid);
        let before = table.subrange(m, j);
        assert forall|i: int| 0 <= i < before.len() implies (#[trigger] before[i]).0 != reg.name by {
            assert(table[m + i].0 != table[j].0);
        }
        lemma_position_none(before, reg.name);
        let once = store(before, reg.name, reg.node);
        assert(once =~= table.subrange(m, j + 1));
        lemma_position_first(once, reg.name, j - m);
        assert(store(once, reg.name, reg.node) =~= once);
        lemma_twice_valid(table, m, j + 1);
        assert(tables_spec(found, 2 * j, before, table.take(m)) == tables_spec(
            found,
            2 * j + 1,
            once,
            table.take(m),
        ));
        assert(tables_spec(found, 2 * j + 1, once, table.take(m)) == tables_spec(
            found,
            2 * j + 2,
            once,
            table.take(m),
        ));
    }
}

/// The registrations of a table in simplified form whose marked definitions
/// come first leave the marked ones behind as the invalid ones and the others
/// as the valid ones.
pub proof fn lemma_twice_tables(table: Entries, m: int, j: int)
    requires
        flat_table(table),
        marks_first(table, m),
        0 <= j <= m,
    ensures
        tables_spec(twice_from(table, 0), 2 * j, Seq::empty(), table.take(j)) == (
            table.subrange(m, table.len() as int),
            table.take(m),
        ),
    decreases m - j,
{
    let found = twice_from(table, 0);
    let empty = Seq::<(Seq<char>, Tree)>::empty();
    lemma_twice_len(table, 0);
    if j < m {
        lemma_twice_index(table, 0, j);
        let reg = registration_of(table, j);
        assert(reg.invalid);
        let before = table.take(j);
        assert forall|i: int| 0 <= i < before.len() implies (#[trigger] before[i]).0 != reg.name by {
            assert(table[i].0 != table[j].0);
        }
        lemma_position_none(before, reg.name);
        let once = store(before, reg.name, reg.node);
        assert(once =~= table.take(j + 1));
        lemma_position_first(once, reg.name, j);
        assert(store(once, reg.name, reg.node) =~= once);
        lemma_twice_tables(table, m, j + 1);
        assert(tables_spec(found, 2 * j, empty, before) == tables_spec(
            found,
            2 * j + 1,
            empty,
            once,
        ));
        assert(tables_spec(found, 2 * j + 1, empty, once) == tables_spec(
            found,
            2 * j + 2,
            empty,
            once,
        ));
    } else {
        assert(table.subrange(m, m) =~= empty);
        lemma_twice_valid(table, m, m);
    }
}

/// Overlaying the first definitions of a table that holds no key twice with
/// the others gives that table.
pub proof fn lemma_overlay_same(table: Entries, m: int, k: int)
    requires
        distinct_keys(table),
        0 <= m,
        0 <= k,
        m + k <= table.len(),
    ensures
        overlay_spec(table.take(m + k), table.subrange(m, table.len() as int), k) == table,
    decreases table.len() - m - k,
{
    let over = table.subrange(m, table.len() as int);
    if m + k < table.len() {
        let before = table.take(m + k);
        assert(over[k] == table[m + k]);
        assert forall|i: int| 0 <= i < before.len() implies (#[trigger] before[i]).0 != table[m
            + k].0 by {
            assert(table[i].0 != table[m + k].0);
        }
        lemma_position_none(before, table[m + k].0);
        assert(store(before, table[m + k].0, table[m + k].1) =~= table.take(m + k + 1));
        lemma_overlay_same(table, m, k + 1);
    } else {
        assert(table.take(m + k) =~= table);
    }
}

/// A table that holds no key twice places each key where it stands.
pub proof fn lemma_distinct_position(table: Entries, j: int)
    requires
        distinct_keys(table),
        0 <= j < table.len(),
    ensures
        position(table, table[j].0) == Some(j),
        lookup(table, table[j].0) == Some(table[j].1),
{
    assert forall|i: int| 0 <= i < j implies (#[trigger] table[i]).0 != table[j].0 by {}
    lemma_position_first(table, table[j].0, j);
}

/// Flattening a definition in simplified form against the table it stands in
/// leaves the table as it is.
pub proof fn lemma_flat_entry(table: Entries, k: int)
    requires
        distinct_keys(table),
        0 <= k < table.len(),
        flat_definition(table[k].1, table[k].0),
    ensures
        flatten_entry_spec(table, table[k].0) == (table, None::<SchemaError>),
{
    let key = table[k].0;
    let d = table[k].1;
    lemma_distinct_position(table, k);
    lemma_flat_lift(d, key);
    lemma_plain_flatten_from(d, 0, table);
    assert(store(table, key, d) =~= table);
    assert(flatten_spec(d, table) == (definition_ref(key), table, None::<SchemaError>));
}

/// Flattening the definitions of a table in simplified form leaves the table
/// as it is.
pub proof fn lemma_flat_entries(table: Entries, k: int)
    requires
        flat_table(table),
        0 <= k,
    ensures
        flatten_entries_spec(table, key_names(table), k) == (table, None::<SchemaError>),
    decreases table.len() - k,
{
    if k < table.len() {
        assert(key_names(table)[k] == table[k].0);
        lemma_flat_entry(table, k);
        lemma_flat_entries(table, k + 1);
    }
}

/// Every definition of a table in simplified form is kept if each is still
/// referred to.
pub proof fn lemma_flat_kept(table: Entries, counts: Counts, k: int)
    requires
        flat_table(table),
        0 <= k <= table.len(),
        forall|j: int| 0 <= j < table.len() ==> usage(counts, (#[trigger] table[j]).0).ref_count > 0,
    ensures
        kept_fold(table, counts, k, table_values(table).take(k)) == (
            table_values(table),
            None::<SchemaError>,
        ),
    decreases table.len() - k,
{
    let values = table_values(table);
    if k < table.len() {
        lemma_flat_lift(table[k].1, table[k].0);
        assert(usage(counts, table[k].0).ref_count > 0);
        assert(values.take(k).push(table[k].1) =~= values.take(k + 1));
        lemma_flat_kept(table, counts, k + 1);
    } else {
        assert(values.take(k) =~= values);
    }
}

/// What lifting makes of a schema in simplified form: the schema without its
/// wrapping, and the table of its definitions.
pub proof fn lemma_simplified_collect(root: Tree, table: Entries, m: int)
    requires
        plain(root),
        flat_table(table),
        marks_first(table, m),
    ensures
        lift_spec(make_definitions_result_spec(root, table_values(table))).0 == root,
        lift_spec(make_definitions_result_spec(root, table_values(table))).2 is None,
        merged_spec(lift_spec(make_definitions_result_spec(root, table_values(table))).1)
            == table,
{
    let s = make_definitions_result_spec(root, table_values(table));
    let empty = Seq::<(Seq<char>, Tree)>::empty();
    lemma_plain_lift(root);
    if table.len() > 0 {
        lemma_wrapped_shape(root, table_values(table));
        lemma_wrapped_entries(root, table, 0);
        let found = twice_from(table, 0);
        assert(found + Seq::<Registration>::empty() =~= found);
        assert(lift_definitions_spec(s) == (root, found, None::<SchemaError>));
        assert(table.take(0) =~= empty);
        lemma_twice_tables(table, m, 0);
        lemma_overlay_same(table, m, 0);
    } else {
        assert(table =~= empty);
    }
}

/// Fixed point without inlining: simplifying a schema that is simplified
/// already gives the same schema.
///
/// A schema is simplified when it is a plain schema, with no `definitions`
/// node in it and no node that bears a `ref`, wrapped with definitions that
/// each bear their own `ref` and hold plain children, those that are marked
/// invalid first; or when it is such a plain schema alone.
pub proof fn lemma_simplified_is_fixed(root: Tree, table: Entries, m: int)
    requires
        plain(root),
        flat_table(table),
        marks_first(table, m),
    ensures
        simplify_spec(make_definitions_result_spec(root, table_values(table)), false) == Ok::<
            Tree,
            SchemaError,
        >(make_definitions_result_spec(root, table_values(table))),
{
    lemma_simplified_collect(root, table, m);
    lemma_plain_flatten(root, table);
    lemma_flat_entries(table, 0);
}

/// Fixed point with inlining: simplifying with inlining a schema that is
/// simplified already, in which every definition is referred to and none of
/// the references that inlining comes upon is fit to be inlined, gives the
/// same schema, if it gets through.
pub proof fn lemma_simplified_is_fixed_inline(root: Tree, table: Entries, m: int)
    requires
        plain(root),
        flat_table(table),
        marks_first(table, m),
        simplify_spec(make_definitions_result_spec(root, table_values(table)), true) is Ok,
        nothing_to_inline(root, table, count_refs_spec(root, table).0),
        forall|j: int|
            0 <= j < table.len() ==> usage(
                count_refs_spec(root, table).0,
                (#[trigger] table[j]).0,
            ).ref_count > 0,
    ensures
        simplify_spec(make_definitions_result_spec(root, table_values(table)), true) == Ok::<
            Tree,
            SchemaError,
        >(make_definitions_result_spec(root, table_values(table))),
{
    lemma_simplified_collect(root, table, m);
    lemma_plain_flatten(root, table);
    lemma_flat_entries(table, 0);
    let counts = count_refs_spec(root, table).0;
    lemma_idle_inline(root, table, counts);
    assert(table_values(table).take(0) =~= Seq::<Tree>::empty());
    lemma_flat_kept(table, counts, 0);
}

} // verus!
