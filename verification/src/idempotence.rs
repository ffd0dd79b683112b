//! Simplifying twice is simplifying once: what simplifying makes of a sound
//! schema is a schema in simplified form, which simplifying leaves as it is.

use crate::collect::{invalid_schema_spec, ref_of};
use crate::fixed_point::{
    flat_definition, flat_table, lemma_put_same, lemma_simplified_is_fixed, plain, plain_from,
};
use crate::simplify_laws::{
    bear_their_names, holds, lemma_flatten_keeps_table, lemma_merged_ok, lemma_same_keys_hold,
    registered, table_ok,
};
use crate::simplify_schema::{
    definition_ref, flatten_entries_spec, flatten_from, flatten_spec, key_names, lift_from,
    lift_spec, make_definitions_result_spec, merged_spec, required_ref, simplify_spec,
    table_values, Registration,
};
use crate::value::{
    lemma_position_first, lemma_position_is_first, lemma_position_none, position, store, Entries,
    Tree,
};
use crate::walk_core_schema::{
    lemma_place_decreases, lemma_recurse_valid, recurse_spec, tag_of, SchemaError,
};
use crate::lifting_laws::{complete, contained, sound};
use crate::walk_laws::lemma_replace_child;
use vstd::prelude::*;

verus! {

/// Whether a tree holds no `definitions` node and can be walked without a
/// fault, the metadata of every node that bears a `ref` being a record.
pub open spec fn bare(t: Tree) -> bool
    decreases t, 1int, 0int,
{
    &&& tag_of(t) matches Ok(tag) && tag != "definitions"@
    &&& ref_of(t) is Ok
    &&& ref_of(t) matches Ok(Some(_)) ==> invalid_schema_spec(t) is Ok
    &&& recurse_spec(t).failure is None
    &&& bare_from(t, 0)
}

/// Whether the child schemas of `t` from the `k`-th on are bare.
pub open spec fn bare_from(t: Tree, k: int) -> bool
    decreases t, 0int, recurse_spec(t).sites.len() - k,
{
    let sites = recurse_spec(t).sites;
    if 0 <= k < sites.len() {
        proof {
            lemma_recurse_valid(t);
            lemma_place_decreases(t, sites[k]);
        }
        bare(sites[k].of(t)) && bare_from(t, k + 1)
    } else {
        true
    }
}

/// The nodes of a bare tree that bear a `ref`, in visiting order, as they are
/// registered.
pub open spec fn named(t: Tree) -> Seq<Registration>
    decreases t, 1int, 0int,
{
    match ref_of(t) {
        Ok(Some(name)) => seq![
            Registration { name, invalid: invalid_schema_spec(t)->Ok_0, node: t },
        ] + named_from(t, 0),
        _ => named_from(t, 0),
    }
}

/// The nodes below the child schemas of `t` from the `k`-th on that bear a `ref`.
pub open spec fn named_from(t: Tree, k: int) -> Seq<Registration>
    decreases t, 0int, recurse_spec(t).sites.len() - k,
{
    let sites = recurse_spec(t).sites;
    if 0 <= k < sites.len() {
        proof {
            lemma_recurse_valid(t);
            lemma_place_decreases(t, sites[k]);
        }
        named(sites[k].of(t)) + named_from(t, k + 1)
    } else {
        Seq::empty()
    }
}

/// Whether some node of `t` bears the `ref` `name`.
pub open spec fn mentions(t: Tree, name: Seq<char>) -> bool
    decreases t, 1int, 0int,
{
    ref_of(t) == Ok::<Option<Seq<char>>, SchemaError>(Some(name)) || mentions_from(t, 0, name)
}

/// Whether some node below the child schemas of `t` from the `k`-th on bears
/// the `ref` `name`.
pub open spec fn mentions_from(t: Tree, k: int, name: Seq<char>) -> bool
    decreases t, 0int, recurse_spec(t).sites.len() - k,
{
    let sites = recurse_spec(t).sites;
    if 0 <= k < sites.len() {
        proof {
            lemma_recurse_valid(t);
            lemma_place_decreases(t, sites[k]);
        }
        mentions(sites[k].of(t), name) || mentions_from(t, k + 1, name)
    } else {
        false
    }
}

/// Lifting leaves a bare tree as it is and registers its nodes that bear a `ref`.
pub proof fn lemma_bare_lift(t: Tree)
    requires
        bare(t),
    ensures
        lift_spec(t) == (t, named(t), None::<SchemaError>),
    decreases t, 1int, 0int,
{
    lemma_bare_lift_from(t, 0);
}

/// Lifting leaves the bare children of a node as they are and registers their
/// nodes that bear a `ref`.
pub proof fn lemma_bare_lift_from(t: Tree, k: int)
    requires
        0 <= k,
        bare_from(t, k),
    ensures
        lift_from(t, k, t) == (t, named_from(t, k), None::<SchemaError>),
    decreases t, 0int, recurse_spec(t).sites.len() - k,
{
    let sites = recurse_spec(t).sites;
    if k < sites.len() {
        lemma_recurse_valid(t);
        lemma_place_decreases(t, sites[k]);
        lemma_bare_lift(sites[k].of(t));
        lemma_put_same(sites[k], t);
        lemma_bare_lift_from(t, k + 1);
    }
}

/// What is registered in one of two sequences is registered in both together.
pub proof fn lemma_registered_concat(a: Seq<Registration>, b: Seq<Registration>, name: Seq<char>)
    ensures
        registered(a + b, name) <==> registered(a, name) || registered(b, name),
{
    let both = a + b;
    if registered(both, name) {
        let j = choose|j: int| 0 <= j < both.len() && (#[trigger] both[j]).name == name;
        if j < a.len() {
            assert(a[j].name == name);
        } else {
            assert(b[j - a.len()].name == name);
        }
    }
    if registered(a, name) {
        let j = choose|j: int| 0 <= j < a.len() && (#[trigger] a[j]).name == name;
        assert(both[j].name == name);
    }
    if registered(b, name) {
        let j = choose|j: int| 0 <= j < b.len() && (#[trigger] b[j]).name == name;
        assert(both[j + a.len()].name == name);
    }
}

/// Two sequences of registrations that bear their names do so together.
pub proof fn lemma_bear_concat(a: Seq<Registration>, b: Seq<Registration>)
    requires
        bear_their_names(a),
        bear_their_names(b),
    ensures
        bear_their_names(a + b),
{
    let both = a + b;
    assert forall|k: int| 0 <= k < both.len() implies required_ref((#[trigger] both[k]).node)
        == Ok::<Seq<char>, SchemaError>(both[k].name) by {
        if k < a.len() {
            assert(both[k] == a[k]);
        } else {
            assert(both[k] == b[k - a.len()]);
        }
    }
}

/// The names registered for a bare tree are those that its nodes bear, and
/// every registration bears its name.
pub proof fn lemma_named(t: Tree, name: Seq<char>)
    requires
        bare(t),
    ensures
        registered(named(t), name) <==> mentions(t, name),
        bear_their_names(named(t)),
    decreases t, 1int, 0int,
{
    lemma_named_from(t, 0, name);
    if let Ok(Some(own)) = ref_of(t) {
        let first = seq![Registration { name: own, invalid: invalid_schema_spec(t)->Ok_0, node: t }];
        lemma_registered_concat(first, named_from(t, 0), name);
        assert(registered(first, name) <==> own == name) by {
            if own == name {
                assert(first[0].name == name);
            }
            if registered(first, name) {
                let j = choose|j: int| 0 <= j < first.len() && (#[trigger] first[j]).name == name;
                assert(first[j].name == own);
            }
        }
        if !t.is_dict() {
            lemma_position_none(t.entries(), "ref"@);
        }
        assert(bear_their_names(first)) by {
            assert forall|k: int| 0 <= k < first.len() implies required_ref(
                (#[trigger] first[k]).node,
            ) == Ok::<Seq<char>, SchemaError>(first[k].name) by {
                assert(first[k].node == t);
            }
        }
        lemma_bear_concat(first, named_from(t, 0));
    }
}

/// The names registered below the later children of a bare node are those that
/// the nodes there bear.
pub proof fn lemma_named_from(t: Tree, k: int, name: Seq<char>)
    requires
        0 <= k,
        bare_from(t, k),
    ensures
        registered(named_from(t, k), name) <==> mentions_from(t, k, name),
        bear_their_names(named_from(t, k)),
    decreases t, 0int, recurse_spec(t).sites.len() - k,
{
    let sites = recurse_spec(t).sites;
    if k < sites.len() {
        lemma_recurse_valid(t);
        lemma_place_decreases(t, sites[k]);
        lemma_named(sites[k].of(t), name);
        lemma_named_from(t, k + 1, name);
        lemma_registered_concat(named(sites[k].of(t)), named_from(t, k + 1), name);
        lemma_bear_concat(named(sites[k].of(t)), named_from(t, k + 1));
    } else {
        assert(!registered(named_from(t, k), name));
    }
}

/// A bare reference is a plain record without child schemas.
pub proof fn lemma_reference_plain(name: Seq<char>)
    ensures
        plain(definition_ref(name)),
        definition_ref(name).is_dict(),
        tag_of(definition_ref(name)) == Ok::<Seq<char>, SchemaError>("definition-ref"@),
        recurse_spec(definition_ref(name)) == crate::walk_core_schema::Plan::empty(),
{
    let r = definition_ref(name);
    reveal_strlit("type");
    reveal_strlit("schema_ref");
    reveal_strlit("ref");
    reveal_strlit("serialization");
    reveal_strlit("definition-ref");
    reveal_strlit("definitions");
    reveal_strlit("list");
    reveal_strlit("set");
    reveal_strlit("frozenset");
    reveal_strlit("generator");
    reveal_strlit("tuple-variable");
    reveal_strlit("tuple-positional");
    reveal_strlit("tuple");
    reveal_strlit("dict");
    reveal_strlit("function-plain");
    reveal_strlit("computed-field");
    reveal_strlit("function-wrap");
    reveal_strlit("union");
    reveal_strlit("tagged-union");
    reveal_strlit("chain");
    reveal_strlit("lax-or-strict");
    reveal_strlit("json-or-python");
    reveal_strlit("model-fields");
    reveal_strlit("typed-dict");
    reveal_strlit("dataclass-args");
    reveal_strlit("arguments");
    reveal_strlit("call");
    let tag = "definition-ref"@;
    assert(tag.len() == 14 && tag[0] == 'd' && tag[1] == 'e' && tag[2] == 'f');
    assert("function-plain"@[0] == 'f');
    assert("tuple-variable"@[0] == 't');
    assert("computed-field"@[0] == 'c');
    assert("json-or-python"@[0] == 'j');
    assert("dataclass-args"@[1] == 'a');
    assert("type"@.len() == 4 && "schema_ref"@.len() == 10 && "ref"@.len() == 3
        && "serialization"@.len() == 13);
    lemma_position_first(r.entries(), "type"@, 0);
    lemma_position_none(r.entries(), "ref"@);
    lemma_position_none(r.entries(), "serialization"@);
    assert(tag_of(r) == Ok::<Seq<char>, SchemaError>(tag));
    assert(recurse_spec(r) == crate::walk_core_schema::Plan::empty());
}

/// Whether `cur` is the node `t` with its first `k` child schemas replaced by
/// plain records, and nothing else changed.
pub open spec fn patched(t: Tree, cur: Tree, k: int) -> bool {
    &&& recurse_spec(cur) == recurse_spec(t)
    &&& tag_of(cur) == tag_of(t)
    &&& ref_of(cur) == ref_of(t)
    &&& invalid_schema_spec(cur) == invalid_schema_spec(t)
    &&& forall|j: int|
        0 <= j < k && j < recurse_spec(t).sites.len() ==> plain(
            (#[trigger] recurse_spec(t).sites[j]).of(cur),
        )
    &&& forall|j: int|
        k <= j < recurse_spec(t).sites.len() ==> (#[trigger] recurse_spec(t).sites[j]).of(cur)
            == recurse_spec(t).sites[j].of(t)
}

/// A node all of whose child schemas are plain has plain children.
pub proof fn lemma_plain_from_all(cur: Tree, k: int)
    requires
        0 <= k,
        forall|j: int|
            0 <= j < recurse_spec(cur).sites.len() ==> plain(
                (#[trigger] recurse_spec(cur).sites[j]).of(cur),
            ),
    ensures
        plain_from(cur, k),
    decreases recurse_spec(cur).sites.len() - k,
{
    if k < recurse_spec(cur).sites.len() {
        assert(plain(recurse_spec(cur).sites[k].of(cur)));
        lemma_plain_from_all(cur, k + 1);
    }
}

/// A node that bears a `ref` below a later child bears it below the children
/// from an earlier one on.
pub proof fn lemma_mentions_child(t: Tree, j: int, k: int, name: Seq<char>)
    requires
        0 <= j <= k < recurse_spec(t).sites.len(),
        mentions(recurse_spec(t).sites[k].of(t), name) || mentions_from(t, k + 1, name),
    ensures
        mentions_from(t, j, name),
    decreases k - j,
{
    if j < k {
        lemma_mentions_child(t, j + 1, k, name);
    }
}

/// Whether the table holds every `ref` that a node of `t` bears.
pub open spec fn covers(defs: Entries, t: Tree) -> bool {
    forall|name: Seq<char>| #[trigger] mentions(t, name) ==> holds(defs, name)
}

/// Whether the table holds every `ref` that a node below the child schemas of
/// `t` from the `k`-th on bears.
pub open spec fn covers_from(defs: Entries, t: Tree, k: int) -> bool {
    forall|name: Seq<char>| #[trigger] mentions_from(t, k, name) ==> holds(defs, name)
}

/// Flattening a bare tree against a table that holds all its `ref`s gets
/// through and leaves a plain record.
pub proof fn lemma_flatten_plain(t: Tree, defs: Entries)
    requires
        bare(t),
        table_ok(defs),
        covers(defs, t),
    ensures
        flatten_spec(t, defs).2 is None,
        plain(flatten_spec(t, defs).0),
        flatten_spec(t, defs).0.is_dict(),
        flatten_from(t, 0, t, defs).2 is None,
        patched(t, flatten_from(t, 0, t, defs).0, recurse_spec(t).sites.len() as int),
        plain_from(flatten_from(t, 0, t, defs).0, 0),
    decreases t, 1int, 0int,
{
    assert forall|name: Seq<char>| #[trigger] mentions_from(t, 0, name) implies holds(
        defs,
        name,
    ) by {
        assert(mentions(t, name));
    }
    lemma_flatten_from_plain(t, 0, t, defs);
    let (t1, defs1, fault) = flatten_from(t, 0, t, defs);
    assert forall|j: int| 0 <= j < recurse_spec(t1).sites.len() implies plain(
        (#[trigger] recurse_spec(t1).sites[j]).of(t1),
    ) by {
        assert(plain(recurse_spec(t).sites[j].of(t1)));
    }
    lemma_plain_from_all(t1, 0);
    crate::simplify_laws::lemma_flatten_from_keeps_table(t, 0, t, defs);
    if let Ok(Some(name)) = ref_of(t1) {
        assert(mentions(t, name));
        lemma_same_keys_hold(defs, defs1, name);
        lemma_reference_plain(name);
    } else {
        if !t1.is_dict() {
            lemma_position_none(t1.entries(), "type"@);
        }
    }
}

/// Flattening the later children of a bare node against a table that holds
/// all their `ref`s gets through and leaves the node with plain children.
pub proof fn lemma_flatten_from_plain(t: Tree, k: int, cur: Tree, defs: Entries)
    requires
        0 <= k,
        tag_of(t) matches Ok(tag) && tag != "definitions"@,
        bare_from(t, k),
        table_ok(defs),
        covers_from(defs, t, k),
        patched(t, cur, k),
    ensures
        flatten_from(t, k, cur, defs).2 is None,
        patched(t, flatten_from(t, k, cur, defs).0, recurse_spec(t).sites.len() as int),
    decreases t, 0int, recurse_spec(t).sites.len() - k,
{
    let sites = recurse_spec(t).sites;
    if k < sites.len() {
        lemma_recurse_valid(t);
        lemma_place_decreases(t, sites[k]);
        let child = sites[k].of(t);
        assert forall|name: Seq<char>| #[trigger] mentions(child, name) implies holds(
            defs,
            name,
        ) by {
            lemma_mentions_child(t, k, k, name);
        }
        lemma_flatten_plain(child, defs);
        lemma_flatten_keeps_table(child, defs);
        let (c, defs1, fault) = flatten_spec(child, defs);
        let cur1 = sites[k].put(cur, c);
        lemma_replace_child(cur, k, c);
        assert(patched(t, cur1, k + 1)) by {
            assert forall|j: int| 0 <= j < k + 1 && j < sites.len() implies plain(
                (#[trigger] sites[j]).of(cur1),
            ) by {
                if j < k {
                    assert(plain(sites[j].of(cur)));
                    assert(recurse_spec(cur).sites[j].of(cur1) == recurse_spec(cur).sites[j].of(
                        cur,
                    ));
                }
            }
            assert forall|j: int| k + 1 <= j < sites.len() implies (#[trigger] sites[j]).of(cur1)
                == sites[j].of(t) by {
                assert(recurse_spec(cur).sites[j].of(cur1) == recurse_spec(cur).sites[j].of(cur));
            }
        }
        assert forall|name: Seq<char>| #[trigger] mentions_from(t, k + 1, name) implies holds(
            defs1,
            name,
        ) by {
            lemma_mentions_child(t, k, k, name);
            lemma_same_keys_hold(defs, defs1, name);
        }
        lemma_flatten_from_plain(t, k + 1, cur1, defs1);
    }
}

/// Whether the table holds under `name` a definition in simplified form.
pub open spec fn flat_at(defs: Entries, name: Seq<char>) -> bool {
    position(defs, name) matches Some(i) && flat_definition(defs[i].1, name)
}

/// Storing under another `ref` leaves a definition in simplified form.
pub proof fn lemma_store_keeps_flat(defs: Entries, other: Seq<char>, node: Tree, name: Seq<char>)
    requires
        holds(defs, other),
        other != name,
        flat_at(defs, name),
    ensures
        flat_at(store(defs, other, node), name),
{
    lemma_position_is_first(defs, other);
    lemma_position_is_first(defs, name);
    let i = position(defs, other)->0;
    let after = store(defs, other, node);
    assert(after =~= defs.update(i, (other, node)));
    crate::ref_counts::lemma_same_keys_same_position(defs, after, name);
}

/// Flattening a bare tree leaves in simplified form every definition that was
/// so, and every definition whose `ref` a node of the tree bears.
pub proof fn lemma_flatten_progress(t: Tree, defs: Entries, name: Seq<char>)
    requires
        bare(t),
        table_ok(defs),
        covers(defs, t),
        flat_at(defs, name) || mentions(t, name),
    ensures
        flat_at(flatten_spec(t, defs).1, name),
    decreases t, 1int, 0int,
{
    lemma_flatten_plain(t, defs);
    let (t1, defs1, fault) = flatten_from(t, 0, t, defs);
    crate::simplify_laws::lemma_flatten_from_keeps_table(t, 0, t, defs);
    assert forall|other: Seq<char>| #[trigger] mentions_from(t, 0, other) implies holds(
        defs,
        other,
    ) by {
        assert(mentions(t, other));
    }
    let own = ref_of(t);
    if flat_at(defs, name) || mentions_from(t, 0, name) {
        lemma_flatten_from_progress(t, 0, t, defs, name);
    }
    if let Ok(Some(r)) = own {
        assert(mentions(t, r));
        lemma_same_keys_hold(defs, defs1, r);
        if name == r {
            lemma_position_is_first(defs1, r);
            let i = position(defs1, r)->0;
            let after = store(defs1, r, t1);
            assert(after =~= defs1.update(i, (r, t1)));
            crate::ref_counts::lemma_same_keys_same_position(defs1, after, r);
        } else {
            lemma_store_keeps_flat(defs1, r, t1, name);
        }
    }
}

/// Flattening the later children of a bare node leaves in simplified form
/// every definition that was so, and every definition whose `ref` a node below
/// those children bears.
pub proof fn lemma_flatten_from_progress(t: Tree, k: int, cur: Tree, defs: Entries, name: Seq<char>)
    requires
        0 <= k,
        bare_from(t, k),
        table_ok(defs),
        covers_from(defs, t, k),
        flat_at(defs, name) || mentions_from(t, k, name),
    ensures
        flat_at(flatten_from(t, k, cur, defs).1, name),
    decreases t, 0int, recurse_spec(t).sites.len() - k,
{
    let sites = recurse_spec(t).sites;
    if k < sites.len() {
        lemma_recurse_valid(t);
        lemma_place_decreases(t, sites[k]);
        let child = sites[k].of(t);
        assert forall|other: Seq<char>| #[trigger] mentions(child, other) implies holds(
            defs,
            other,
        ) by {
            lemma_mentions_child(t, k, k, other);
        }
        lemma_flatten_plain(child, defs);
        lemma_flatten_keeps_table(child, defs);
        let (c, defs1, fault) = flatten_spec(child, defs);
        if flat_at(defs, name) || mentions(child, name) {
            lemma_flatten_progress(child, defs, name);
        }
        assert forall|other: Seq<char>| #[trigger] mentions_from(t, k + 1, other) implies holds(
            defs1,
            other,
        ) by {
            lemma_mentions_child(t, k, k, other);
            lemma_same_keys_hold(defs, defs1, other);
        }
        lemma_flatten_from_progress(t, k + 1, sites[k].put(cur, c), defs1, name);
    }
}

/// Flattening a bare tree leaves every definition whose `ref` no node of the
/// tree bears as it is, in its place.
pub proof fn lemma_flatten_leaves(t: Tree, defs: Entries, j: int)
    requires
        bare(t),
        table_ok(defs),
        covers(defs, t),
        0 <= j < defs.len(),
        !mentions(t, defs[j].0),
    ensures
        flatten_spec(t, defs).1.len() == defs.len(),
        flatten_spec(t, defs).1[j] == defs[j],
    decreases t, 1int, 0int,
{
    lemma_flatten_plain(t, defs);
    let (t1, defs1, fault) = flatten_from(t, 0, t, defs);
    crate::simplify_laws::lemma_flatten_from_keeps_table(t, 0, t, defs);
    lemma_same_len(defs, defs1);
    assert forall|other: Seq<char>| #[trigger] mentions_from(t, 0, other) implies holds(
        defs,
        other,
    ) by {
        assert(mentions(t, other));
    }
    lemma_flatten_from_leaves(t, 0, t, defs, j);
    if let Ok(Some(r)) = ref_of(t) {
        assert(mentions(t, r));
        lemma_same_keys_hold(defs, defs1, r);
        lemma_position_is_first(defs1, r);
        let i = position(defs1, r)->0;
        let after = store(defs1, r, t1);
        assert(after =~= defs1.update(i, (r, t1)));
        assert(key_names(defs1)[j] == defs1[j].0 && key_names(defs)[j] == defs[j].0);
    }
}

/// Tables with the same keys are as long as one another.
pub proof fn lemma_same_len(a: Entries, b: Entries)
    requires
        key_names(a) == key_names(b),
    ensures
        a.len() == b.len(),
        forall|i: int| 0 <= i < a.len() ==> (#[trigger] a[i]).0 == b[i].0,
{
    assert(a.len() == key_names(a).len());
    assert(b.len() == key_names(b).len());
    assert forall|i: int| 0 <= i < a.len() implies (#[trigger] a[i]).0 == b[i].0 by {
        assert(key_names(a)[i] == a[i].0);
        assert(key_names(b)[i] == b[i].0);
    }
}

/// Flattening the later children of a bare node leaves every definition whose
/// `ref` no node below them bears as it is, in its place.
pub proof fn lemma_flatten_from_leaves(t: Tree, k: int, cur: Tree, defs: Entries, j: int)
    requires
        0 <= k,
        bare_from(t, k),
        table_ok(defs),
        covers_from(defs, t, k),
        0 <= j < defs.len(),
        !mentions_from(t, k, defs[j].0),
    ensures
        flatten_from(t, k, cur, defs).1.len() == defs.len(),
        flatten_from(t, k, cur, defs).1[j] == defs[j],
    decreases t, 0int, recurse_spec(t).sites.len() - k,
{
    let sites = recurse_spec(t).sites;
    if k < sites.len() {
        lemma_recurse_valid(t);
        lemma_place_decreases(t, sites[k]);
        let child = sites[k].of(t);
        assert forall|other: Seq<char>| #[trigger] mentions(child, other) implies holds(
            defs,
            other,
        ) by {
            lemma_mentions_child(t, k, k, other);
        }
        lemma_flatten_plain(child, defs);
        lemma_flatten_keeps_table(child, defs);
        lemma_flatten_leaves(child, defs, j);
        let (c, defs1, fault) = flatten_spec(child, defs);
        assert forall|other: Seq<char>| #[trigger] mentions_from(t, k + 1, other) implies holds(
            defs1,
            other,
        ) by {
            lemma_mentions_child(t, k, k, other);
            lemma_same_keys_hold(defs, defs1, other);
        }
        lemma_flatten_from_leaves(t, k + 1, sites[k].put(cur, c), defs1, j);
    }
}

/// Whether the definition in place `j` of the table is in simplified form, or
/// is a bare record all of whose `ref`s the table holds.
pub open spec fn ready_at(defs: Entries, j: int) -> bool {
    flat_definition(defs[j].1, defs[j].0) || (bare(defs[j].1) && covers(defs, defs[j].1))
}

/// Whether the table is in order and each of its definitions is in simplified
/// form, or a bare record all of whose `ref`s the table holds.
pub open spec fn ready(defs: Entries) -> bool {
    &&& table_ok(defs)
    &&& forall|j: int| 0 <= j < defs.len() ==> #[trigger] ready_at(defs, j)
}

/// Flattening a bare tree leaves each definition of a ready table in simplified
/// form, or as a bare record all of whose `ref`s the table holds; and in
/// simplified form if it was so.
pub proof fn lemma_flatten_state(t: Tree, defs: Entries, j: int)
    requires
        bare(t),
        ready(defs),
        covers(defs, t),
        0 <= j < defs.len(),
    ensures
        flatten_spec(t, defs).1.len() == defs.len(),
        ready_at(flatten_spec(t, defs).1, j),
        flat_definition(defs[j].1, defs[j].0) ==> flat_definition(
            flatten_spec(t, defs).1[j].1,
            flatten_spec(t, defs).1[j].0,
        ),
{
    let after = flatten_spec(t, defs).1;
    lemma_flatten_keeps_table(t, defs);
    lemma_same_len(defs, after);
    let name = defs[j].0;
    crate::fixed_point::lemma_distinct_position(defs, j);
    crate::fixed_point::lemma_distinct_position(after, j);
    assert(ready_at(defs, j));
    if flat_definition(defs[j].1, name) || mentions(t, name) {
        lemma_flatten_progress(t, defs, name);
    } else {
        lemma_flatten_leaves(t, defs, j);
        assert forall|other: Seq<char>| #[trigger] mentions(after[j].1, other) implies holds(
            after,
            other,
        ) by {
            lemma_same_keys_hold(defs, after, other);
        }
    }
}

/// Flattening a bare tree keeps a table ready.
pub proof fn lemma_flatten_keeps_ready(t: Tree, defs: Entries)
    requires
        bare(t),
        ready(defs),
        covers(defs, t),
    ensures
        ready(flatten_spec(t, defs).1),
        flatten_spec(t, defs).1.len() == defs.len(),
{
    let after = flatten_spec(t, defs).1;
    lemma_flatten_keeps_table(t, defs);
    lemma_same_len(defs, after);
    assert forall|j: int| 0 <= j < after.len() implies #[trigger] ready_at(after, j) by {
        lemma_flatten_state(t, defs, j);
    }
}

/// Flattening one definition of a ready table gets through, keeps the table
/// ready, and leaves that definition, and all that were so, in simplified form.
pub proof fn lemma_ready_entry(defs: Entries, k: int)
    requires
        ready(defs),
        0 <= k < defs.len(),
    ensures
        crate::simplify_schema::flatten_entry_spec(defs, defs[k].0).1 is None,
        ready(crate::simplify_schema::flatten_entry_spec(defs, defs[k].0).0),
        key_names(crate::simplify_schema::flatten_entry_spec(defs, defs[k].0).0) == key_names(defs),
        crate::simplify_schema::flatten_entry_spec(defs, defs[k].0).0.len() == defs.len(),
        flat_definition(
            crate::simplify_schema::flatten_entry_spec(defs, defs[k].0).0[k].1,
            defs[k].0,
        ),
        forall|j: int|
            0 <= j < defs.len() && flat_definition((#[trigger] defs[j]).1, defs[j].0)
                ==> flat_definition(
                crate::simplify_schema::flatten_entry_spec(defs, defs[k].0).0[j].1,
                defs[j].0,
            ),
{
    let key = defs[k].0;
    let target = defs[k].1;
    crate::fixed_point::lemma_distinct_position(defs, k);
    assert(ready_at(defs, k));
    assert(required_ref(target) == Ok::<Seq<char>, SchemaError>(key));
    if flat_definition(target, key) {
        crate::fixed_point::lemma_flat_entry(defs, k);
    } else {
        lemma_flatten_plain(target, defs);
        lemma_flatten_keeps_ready(target, defs);
        lemma_flatten_keeps_table(target, defs);
        let (node, defs1, fault) = flatten_spec(target, defs);
        lemma_same_len(defs, defs1);
        assert(mentions(target, key));
        lemma_flatten_state(target, defs, k);
        lemma_flatten_progress(target, defs, key);
        crate::fixed_point::lemma_distinct_position(defs1, k);
        assert(crate::simplify_schema::flatten_entry_spec(defs, key) == (
            defs1,
            None::<SchemaError>,
        ));
        assert forall|j: int|
            0 <= j < defs.len() && flat_definition((#[trigger] defs[j]).1, defs[j].0)
                implies flat_definition(defs1[j].1, defs[j].0) by {
            lemma_flatten_state(target, defs, j);
        }
    }
}

/// Flattening the definitions of a ready table, one after the other, gets
/// through and leaves every definition in simplified form.
pub proof fn lemma_ready_entries(defs: Entries, keys: Seq<Seq<char>>, k: int)
    requires
        0 <= k,
        ready(defs),
        keys == key_names(defs),
        forall|j: int|
            0 <= j < k && j < defs.len() ==> flat_definition((#[trigger] defs[j]).1, defs[j].0),
    ensures
        flatten_entries_spec(defs, keys, k).1 is None,
        flat_table(flatten_entries_spec(defs, keys, k).0),
    decreases keys.len() - k,
{
    assert(keys.len() == defs.len());
    if k < defs.len() {
        assert(keys[k] == defs[k].0);
        lemma_ready_entry(defs, k);
        let defs1 = crate::simplify_schema::flatten_entry_spec(defs, defs[k].0).0;
        lemma_same_len(defs, defs1);
        assert forall|j: int| 0 <= j < k + 1 && j < defs1.len() implies flat_definition(
            (#[trigger] defs1[j]).1,
            defs1[j].0,
        ) by {
            if j < k {
                assert(flat_definition(defs[j].1, defs[j].0));
            }
        }
        lemma_ready_entries(defs1, keys, k + 1);
    } else {
        assert(flat_table(defs));
    }
}

/// Whether every definition of the table was registered as it stands.
pub open spec fn drawn(defs: Entries, found: Seq<Registration>) -> bool {
    forall|j: int| 0 <= j < defs.len() ==> is_registration(found, #[trigger] defs[j])
}

/// Whether `pair` is the name and the node of one of the registrations.
pub open spec fn is_registration(found: Seq<Registration>, pair: (Seq<char>, Tree)) -> bool {
    exists|k: int| 0 <= k < found.len() && (#[trigger] found[k]).name == pair.0 && found[k].node
        == pair.1
}

/// Storing a registration keeps a table drawn from the registrations.
pub proof fn lemma_store_drawn(defs: Entries, found: Seq<Registration>, pair: (Seq<char>, Tree))
    requires
        drawn(defs, found),
        is_registration(found, pair),
    ensures
        drawn(store(defs, pair.0, pair.1), found),
{
    let after = store(defs, pair.0, pair.1);
    lemma_position_is_first(defs, pair.0);
    assert forall|j: int| 0 <= j < after.len() implies is_registration(found, #[trigger] after[j]) by {
        match position(defs, pair.0) {
            Some(i) => {
                if j != i {
                    assert(after[j] == defs[j]);
                } else {
                    assert(after[j] == pair);
                }
            },
            None => {
                if j < defs.len() {
                    assert(after[j] == defs[j]);
                } else {
                    assert(after[j] == pair);
                }
            },
        }
    }
}

/// The two tables made of registrations are drawn from them.
pub proof fn lemma_tables_drawn(found: Seq<Registration>, k: int, valid: Entries, invalid: Entries)
    requires
        0 <= k,
        drawn(valid, found),
        drawn(invalid, found),
    ensures
        drawn(crate::simplify_schema::tables_spec(found, k, valid, invalid).0, found),
        drawn(crate::simplify_schema::tables_spec(found, k, valid, invalid).1, found),
    decreases found.len() - k,
{
    if k < found.len() {
        let r = found[k];
        assert(is_registration(found, (r.name, r.node)));
        if r.invalid {
            lemma_store_drawn(invalid, found, (r.name, r.node));
            lemma_tables_drawn(found, k + 1, valid, store(invalid, r.name, r.node));
        } else {
            lemma_store_drawn(valid, found, (r.name, r.node));
            lemma_tables_drawn(found, k + 1, store(valid, r.name, r.node), invalid);
        }
    }
}

/// Overlaying tables that are drawn from registrations gives one that is.
pub proof fn lemma_overlay_drawn(base: Entries, over: Entries, k: int, found: Seq<Registration>)
    requires
        0 <= k,
        drawn(base, found),
        drawn(over, found),
    ensures
        drawn(crate::simplify_schema::overlay_spec(base, over, k), found),
    decreases over.len() - k,
{
    if k < over.len() {
        assert(is_registration(found, over[k]));
        lemma_store_drawn(base, found, over[k]);
        lemma_overlay_drawn(store(base, over[k].0, over[k].1), over, k + 1, found);
    }
}

/// The table that complete registrations leave behind is ready.
pub proof fn lemma_merged_ready(found: Seq<Registration>)
    requires
        complete(found),
    ensures
        ready(merged_spec(found)),
        forall|name: Seq<char>| holds(merged_spec(found), name) <==> registered(found, name),
{
    let empty = Seq::<(Seq<char>, Tree)>::empty();
    crate::lifting_laws::lemma_complete_bears(found);
    lemma_merged_ok(found);
    lemma_tables_drawn(found, 0, empty, empty);
    let (valid, invalid) = crate::simplify_schema::tables_spec(found, 0, empty, empty);
    lemma_overlay_drawn(invalid, valid, 0, found);
    let defs = merged_spec(found);
    assert forall|j: int| 0 <= j < defs.len() implies #[trigger] ready_at(defs, j) by {
        assert(is_registration(found, defs[j]));
        let k = choose|k: int|
            0 <= k < found.len() && (#[trigger] found[k]).name == defs[j].0 && found[k].node
                == defs[j].1;
        assert(bare(found[k].node));
        assert(contained(found, found[k].node));
        assert forall|name: Seq<char>| #[trigger] mentions(defs[j].1, name) implies holds(
            defs,
            name,
        ) by {
            assert(registered(found, name));
        }
    }
}

/// What simplifying makes of a sound schema: a plain schema wrapped with
/// definitions in simplified form.
pub proof fn lemma_sound_simplified(root: Tree)
    requires
        sound(root),
    ensures
        plain(crate::inline_laws::flattened_spec(root).0),
        flat_table(crate::inline_laws::flattened_spec(root).1),
        simplify_spec(root, false) == Ok::<Tree, SchemaError>(
            make_definitions_result_spec(
                crate::inline_laws::flattened_spec(root).0,
                table_values(crate::inline_laws::flattened_spec(root).1),
            ),
        ),
{
    crate::lifting_laws::lemma_sound_lift(root);
    let (lifted, found, fault) = lift_spec(root);
    let defs = merged_spec(found);
    lemma_merged_ready(found);
    assert forall|name: Seq<char>| #[trigger] mentions(lifted, name) implies holds(defs, name) by {
        assert(registered(found, name));
    }
    lemma_flatten_plain(lifted, defs);
    lemma_flatten_keeps_ready(lifted, defs);
    let (root1, defs1, fault1) = flatten_spec(lifted, defs);
    lemma_ready_entries(defs1, key_names(defs1), 0);
}

/// Lifting and flattening a sound schema get through.
pub proof fn lemma_sound_gets_through(root: Tree)
    requires
        sound(root),
    ensures
        lift_spec(root).2 is None,
        flatten_spec(lift_spec(root).0, merged_spec(lift_spec(root).1)).2 is None,
        ({
            let defs1 = flatten_spec(lift_spec(root).0, merged_spec(lift_spec(root).1)).1;
            flatten_entries_spec(defs1, key_names(defs1), 0).1 is None
        }),
{
    lemma_sound_simplified(root);
}

/// Whether no `ref` is borne both by a node that is marked invalid and by a
/// node that is not.
pub open spec fn unmixed(root: Tree) -> bool {
    forall|name: Seq<char>|
        !(#[trigger] crate::mark_laws::carries(root, name, true) && crate::mark_laws::carries(
            root,
            name,
            false,
        ))
}

/// How many `ref`s lifting registers for nodes that are marked invalid.
pub open spec fn marked_count(root: Tree) -> int {
    crate::simplify_schema::tables_spec(lift_spec(root).1, 0, Seq::empty(), Seq::empty()).1.len() as int
}

/// Overlaying a table with another whose keys it does not hold puts the other
/// behind it.
pub proof fn lemma_overlay_apart(base: Entries, over: Entries, k: int)
    requires
        0 <= k <= over.len(),
        crate::value::distinct_keys(over),
        forall|j: int| k <= j < over.len() ==> position(base, (#[trigger] over[j]).0) is None,
    ensures
        crate::simplify_schema::overlay_spec(base, over, k) == base + over.subrange(
            k,
            over.len() as int,
        ),
    decreases over.len() - k,
{
    if k < over.len() {
        let next = store(base, over[k].0, over[k].1);
        assert(next == base.push(over[k]));
        assert forall|j: int| k + 1 <= j < over.len() implies position(
            next,
            (#[trigger] over[j]).0,
        ) is None by {
            lemma_position_is_first(base, over[j].0);
            assert forall|i: int| 0 <= i < next.len() implies (#[trigger] next[i]).0
                != over[j].0 by {
                if i < base.len() {
                    assert(next[i] == base[i]);
                } else {
                    assert(over[k].0 != over[j].0);
                }
            }
            lemma_position_none(next, over[j].0);
        }
        lemma_overlay_apart(next, over, k + 1);
        assert(base.push(over[k]) + over.subrange(k + 1, over.len() as int) =~= base
            + over.subrange(k, over.len() as int));
    } else {
        assert(base + over.subrange(k, over.len() as int) =~= base);
    }
}

/// The table that lifting leaves of a sound schema in which no `ref` is borne
/// with both marks holds the definitions marked invalid first.
pub proof fn lemma_merged_marks(root: Tree)
    requires
        sound(root),
        unmixed(root),
    ensures
        crate::fixed_point::marks_first(merged_spec(lift_spec(root).1), marked_count(root)),
{
    let found = lift_spec(root).1;
    let empty = Seq::<(Seq<char>, Tree)>::empty();
    let (valid, invalid) = crate::simplify_schema::tables_spec(found, 0, empty, empty);
    crate::simplify_laws::lemma_tables_drawn_as(found, 0, empty, empty);
    crate::simplify_laws::lemma_tables_distinct(found, 0, empty, empty);
    assert forall|j: int| 0 <= j < valid.len() implies position(invalid, (#[trigger] valid[j]).0)
        is None by {
        lemma_position_is_first(invalid, valid[j].0);
        if let Some(i) = position(invalid, valid[j].0) {
            assert(crate::simplify_laws::registered_as(found, invalid[i], true));
            assert(crate::simplify_laws::registered_as(found, valid[j], false));
            let a = choose|a: int|
                0 <= a < found.len() && (#[trigger] found[a]).name == invalid[i].0 && found[a].node
                    == invalid[i].1 && found[a].invalid == true;
            let b = choose|b: int|
                0 <= b < found.len() && (#[trigger] found[b]).name == valid[j].0 && found[b].node
                    == valid[j].1 && found[b].invalid == false;
            crate::lineage::lemma_registration_carried(root, a);
            crate::lineage::lemma_registration_carried(root, b);
        }
    }
    lemma_overlay_apart(invalid, valid, 0);
    let all = merged_spec(found);
    assert(valid.subrange(0, valid.len() as int) =~= valid);
    assert(all == invalid + valid);
    assert forall|j: int| 0 <= j < all.len() implies invalid_schema_spec((#[trigger] all[j]).1)
        == Ok::<bool, SchemaError>(j < invalid.len()) by {
        if j < invalid.len() {
            assert(all[j] == invalid[j]);
            assert(crate::simplify_laws::registered_as(found, invalid[j], true));
            let a = choose|a: int|
                0 <= a < found.len() && (#[trigger] found[a]).name == invalid[j].0 && found[a].node
                    == invalid[j].1 && found[a].invalid == true;
            crate::lineage::lemma_registration_carried(root, a);
        } else {
            let i = j - invalid.len();
            assert(all[j] == valid[i]);
            assert(crate::simplify_laws::registered_as(found, valid[i], false));
            let b = choose|b: int|
                0 <= b < found.len() && (#[trigger] found[b]).name == valid[i].0 && found[b].node
                    == valid[i].1 && found[b].invalid == false;
            crate::lineage::lemma_registration_carried(root, b);
        }
    }
}

/// A definition of the table that lifting leaves shows a node of the schema
/// that bears its `ref`, with its mark.
pub proof fn lemma_merged_carried(root: Tree, j: int)
    requires
        sound(root),
        0 <= j < merged_spec(lift_spec(root).1).len(),
    ensures
        invalid_schema_spec(merged_spec(lift_spec(root).1)[j].1) is Ok,
        crate::mark_laws::carries(
            root,
            merged_spec(lift_spec(root).1)[j].0,
            invalid_schema_spec(merged_spec(lift_spec(root).1)[j].1)->Ok_0,
        ),
{
    let found = lift_spec(root).1;
    let empty = Seq::<(Seq<char>, Tree)>::empty();
    lemma_tables_drawn(found, 0, empty, empty);
    let (valid, invalid) = crate::simplify_schema::tables_spec(found, 0, empty, empty);
    lemma_overlay_drawn(invalid, valid, 0, found);
    let all = merged_spec(found);
    assert(is_registration(found, all[j]));
    let k = choose|k: int|
        0 <= k < found.len() && (#[trigger] found[k]).name == all[j].0 && found[k].node == all[j].1;
    crate::lineage::lemma_registration_carried(root, k);
}

/// The definitions that a sound schema in which no `ref` is borne with both
/// marks is wrapped with come with those marked invalid first.
pub proof fn lemma_sound_marks(root: Tree)
    requires
        sound(root),
        unmixed(root),
    ensures
        crate::fixed_point::marks_first(
            crate::inline_laws::flattened_spec(root).1,
            marked_count(root),
        ),
{
    lemma_merged_marks(root);
    lemma_sound_gets_through(root);
    let (lifted, found, fault) = lift_spec(root);
    let defs = merged_spec(found);
    crate::lifting_laws::lemma_sound_lift(root);
    crate::lifting_laws::lemma_complete_bears(found);
    lemma_merged_ok(found);
    let (root1, defs1, fault1) = flatten_spec(lifted, defs);
    lemma_flatten_keeps_table(lifted, defs);
    crate::simplify_laws::lemma_flatten_entries_keep_table(defs1, key_names(defs1), 0);
    let table = crate::inline_laws::flattened_spec(root).1;
    assert(table.len() == key_names(table).len());
    assert(defs.len() == key_names(defs).len());
    assert forall|j: int| 0 <= j < table.len() implies invalid_schema_spec((#[trigger] table[j]).1)
        == Ok::<bool, SchemaError>(j < marked_count(root)) by {
        assert(key_names(table)[j] == table[j].0);
        assert(key_names(defs)[j] == defs[j].0);
        crate::lineage::lemma_definition_carried(root, j);
        lemma_merged_carried(root, j);
    }
}

/// Idempotence without inlining: simplifying a sound schema in which no `ref`
/// is borne both by a node that is marked invalid and by one that is not gets
/// through, and simplifying the result gives the result.
///
/// A schema is sound when it can be walked without a fault, and each of its
/// `definitions` nodes holds definitions that bear a `ref` and are no
/// `definitions` nodes, and an inner schema that bears no `ref`, or is a sound
/// `definitions` node itself.
pub proof fn lemma_simplify_idempotent(root: Tree)
    requires
        sound(root),
        unmixed(root),
    ensures
        simplify_spec(root, false) is Ok,
        simplify_spec(simplify_spec(root, false)->Ok_0, false) == simplify_spec(root, false),
{
    lemma_sound_simplified(root);
    lemma_sound_marks(root);
    lemma_simplified_is_fixed(
        crate::inline_laws::flattened_spec(root).0,
        crate::inline_laws::flattened_spec(root).1,
        marked_count(root),
    );
}

/// Inlining can wait: simplifying with inlining what simplifying without
/// inlining made of a sound schema gives what simplifying with inlining makes
/// of the schema itself, fault for fault.
pub proof fn lemma_inline_after_simplify(root: Tree)
    requires
        sound(root),
        unmixed(root),
    ensures
        simplify_spec(root, false) is Ok,
        simplify_spec(simplify_spec(root, false)->Ok_0, true) == simplify_spec(root, true),
{
    lemma_sound_simplified(root);
    let (root1, table) = crate::inline_laws::flattened_spec(root);
    lemma_sound_marks(root);
    crate::fixed_point::lemma_simplified_collect(root1, table, marked_count(root));
    crate::fixed_point::lemma_plain_flatten(root1, table);
    crate::fixed_point::lemma_flat_entries(table, 0);
}

/// Idempotence with inlining, where inlining finds nothing to do: where a
/// sound schema is simplified with inlining, every definition is referred to,
/// and none of the references that inlining comes upon is fit to be inlined,
/// the result is that of simplifying without inlining, and simplifying it
/// again with inlining gives the same.
pub proof fn lemma_simplify_idempotent_idle(root: Tree)
    requires
        sound(root),
        unmixed(root),
        simplify_spec(root, true) is Ok,
        crate::fixed_point::nothing_to_inline(
            crate::inline_laws::flattened_spec(root).0,
            crate::inline_laws::flattened_spec(root).1,
            crate::inline_laws::counted_spec(root),
        ),
        forall|j: int|
            0 <= j < crate::inline_laws::flattened_spec(root).1.len() ==> crate::ref_counts::usage(
                crate::inline_laws::counted_spec(root),
                (#[trigger] crate::inline_laws::flattened_spec(root).1[j]).0,
            ).ref_count > 0,
    ensures
        simplify_spec(root, true) == simplify_spec(root, false),
        simplify_spec(simplify_spec(root, true)->Ok_0, true) == simplify_spec(root, true),
{
    lemma_sound_simplified(root);
    lemma_inline_after_simplify(root);
    let (root1, table) = crate::inline_laws::flattened_spec(root);
    let counts = crate::inline_laws::counted_spec(root);
    crate::fixed_point::lemma_idle_inline(root1, table, counts);
    assert(table_values(table).take(0) =~= Seq::<Tree>::empty());
    crate::fixed_point::lemma_flat_kept(table, counts, 0);
}

/// No lost refs, for sound schemas: where a sound schema is simplified without
/// inlining, every `ref` that lifting registers is the `ref` of exactly one of
/// the definitions that come out.
pub proof fn lemma_no_lost_refs_sound(root: Tree, name: Seq<char>)
    requires
        sound(root),
        registered(lift_spec(root).1, name),
    ensures
        simplify_spec(root, false) is Ok,
        crate::simplify_laws::emitted_once(simplify_spec(root, false)->Ok_0, name),
{
    lemma_sound_simplified(root);
    crate::lifting_laws::lemma_sound_lift(root);
    crate::lifting_laws::lemma_complete_bears(lift_spec(root).1);
    crate::simplify_laws::lemma_no_lost_refs(root, name);
}

/// Inlining soundness, for sound schemas: where a sound schema is simplified
/// with inlining and that gets through, a definition that comes out, and
/// whose references the inlining pass came upon, is referred to at least twice
/// or lies on a cycle of references.
pub proof fn lemma_inlining_leaves_shared_sound(root: Tree, j: int, name: Seq<char>)
    requires
        sound(root),
        simplify_spec(root, true) is Ok,
        0 <= j < crate::inline_laws::emitted_spec(root).len(),
        required_ref(crate::inline_laws::emitted_spec(root)[j]) == Ok::<Seq<char>, SchemaError>(
            name,
        ),
        crate::inline_laws::touched(
            crate::inline_laws::flattened_spec(root).0,
            crate::inline_laws::flattened_spec(root).1,
            crate::inline_laws::counted_spec(root),
        ).contains(name),
    ensures
        crate::ref_counts::usage(crate::inline_laws::counted_spec(root), name).ref_count >= 2
            || crate::ref_counts::usage(
            crate::inline_laws::counted_spec(root),
            name,
        ).involved_in_recursion,
{
    crate::lifting_laws::lemma_sound_lift(root);
    crate::lifting_laws::lemma_complete_bears(lift_spec(root).1);
    crate::inline_laws::lemma_inlining_leaves_shared(root, j, name);
}

/// A bare schema is sound.
pub proof fn lemma_bare_is_sound(t: Tree)
    requires
        bare(t),
    ensures
        sound(t),
        crate::lifting_laws::sound_node(t),
    decreases t, 1int, 0int,
{
    lemma_bare_from_is_sound(t, 0);
}

/// The bare children of a node are sound.
pub proof fn lemma_bare_from_is_sound(t: Tree, k: int)
    requires
        0 <= k,
        bare_from(t, k),
    ensures
        crate::lifting_laws::sound_from(t, k),
    decreases t, 0int, recurse_spec(t).sites.len() - k,
{
    let sites = recurse_spec(t).sites;
    if k < sites.len() {
        lemma_recurse_valid(t);
        lemma_place_decreases(t, sites[k]);
        lemma_bare_is_sound(sites[k].of(t));
        lemma_bare_from_is_sound(t, k + 1);
    }
}

/// No lost refs, for bare schemas: where a schema that holds no `definitions`
/// node and can be walked without a fault is simplified without inlining,
/// every `ref` that a node of it bears is the `ref` of exactly one of the
/// definitions that come out.
pub proof fn lemma_no_lost_refs_bare(root: Tree, name: Seq<char>)
    requires
        bare(root),
        mentions(root, name),
    ensures
        simplify_spec(root, false) is Ok,
        crate::simplify_laws::emitted_once(simplify_spec(root, false)->Ok_0, name),
{
    lemma_bare_is_sound(root);
    lemma_bare_lift(root);
    lemma_named(root, name);
    lemma_no_lost_refs_sound(root, name);
}

/// Whether no node of `t` bears a `ref` that the table holds.
pub open spec fn cleared(t: Tree, defs: Entries) -> bool {
    forall|name: Seq<char>| #[trigger] mentions(t, name) ==> !holds(defs, name)
}

/// Flattening leaves a record, if it gets through, and the keys of the table.
pub proof fn lemma_flatten_is_dict(t: Tree, defs: Entries)
    requires
        flatten_spec(t, defs).2 is None,
    ensures
        flatten_spec(t, defs).0.is_dict(),
        key_names(flatten_spec(t, defs).1) == key_names(defs),
    decreases t, 1int, 0int,
{
    if !t.is_dict() {
        lemma_position_none(t.entries(), "type"@);
    }
    lemma_flatten_from_shape(t, 0, t, defs);
    let (t1, defs1, fault) = flatten_from(t, 0, t, defs);
    if let Ok(Some(own)) = ref_of(t1) {
        lemma_reference_plain(own);
        if position(defs1, own) is Some {
            lemma_position_is_first(defs1, own);
            let after = store(defs1, own, t1);
            assert(after =~= defs1.update(position(defs1, own)->0, (own, t1)));
            assert(key_names(after) =~= key_names(defs1));
        }
    }
}

/// Flattening the later children of a node leaves the node a record that is
/// walked as before, with the same tag and the same `ref`, and leaves the
/// earlier children in their places.
pub proof fn lemma_flatten_from_shape(t: Tree, k: int, cur: Tree, defs: Entries)
    requires
        0 <= k,
        tag_of(t) matches Ok(tag) && tag != "definitions"@,
        flatten_from(t, k, cur, defs).2 is None,
        recurse_spec(cur) == recurse_spec(t),
        tag_of(cur) == tag_of(t),
        ref_of(cur) == ref_of(t),
    ensures
        recurse_spec(flatten_from(t, k, cur, defs).0) == recurse_spec(t),
        tag_of(flatten_from(t, k, cur, defs).0) == tag_of(t),
        ref_of(flatten_from(t, k, cur, defs).0) == ref_of(t),
        key_names(flatten_from(t, k, cur, defs).1) == key_names(defs),
        forall|j: int|
            0 <= j < k && j < recurse_spec(t).sites.len() ==> (#[trigger] recurse_spec(
                t,
            ).sites[j]).of(flatten_from(t, k, cur, defs).0) == recurse_spec(t).sites[j].of(cur),
    decreases t, 0int, recurse_spec(t).sites.len() - k,
{
    let sites = recurse_spec(t).sites;
    if k < sites.len() {
        lemma_recurse_valid(t);
        lemma_place_decreases(t, sites[k]);
        let child = sites[k].of(t);
        let (c, defs1, fault) = flatten_spec(child, defs);
        assert(fault is None);
        lemma_flatten_is_dict(child, defs);
        let cur1 = sites[k].put(cur, c);
        lemma_replace_child(cur, k, c);
        lemma_flatten_from_shape(t, k + 1, cur1, defs1);
        let (last, defs2, later) = flatten_from(t, k + 1, cur1, defs1);
        assert forall|j: int| 0 <= j < k && j < sites.len() implies (#[trigger] sites[j]).of(last)
            == sites[j].of(cur) by {
            assert(sites[j].of(last) == sites[j].of(cur1));
            assert(recurse_spec(cur).sites[j].of(cur1) == recurse_spec(cur).sites[j].of(cur));
        }
    }
}

/// Flattening the later children of a node leaves below them no node that
/// bears a `ref` that the table holds.
pub proof fn lemma_flatten_from_clears(t: Tree, k: int, cur: Tree, defs: Entries, name: Seq<char>)
    requires
        0 <= k,
        tag_of(t) matches Ok(tag) && tag != "definitions"@,
        flatten_from(t, k, cur, defs).2 is None,
        recurse_spec(cur) == recurse_spec(t),
        tag_of(cur) == tag_of(t),
        ref_of(cur) == ref_of(t),
        holds(defs, name),
    ensures
        forall|j: int|
            k <= j < recurse_spec(t).sites.len() ==> !mentions(
                (#[trigger] recurse_spec(t).sites[j]).of(flatten_from(t, k, cur, defs).0),
                name,
            ),
    decreases t, 0int, recurse_spec(t).sites.len() - k,
{
    let sites = recurse_spec(t).sites;
    if k < sites.len() {
        lemma_recurse_valid(t);
        lemma_place_decreases(t, sites[k]);
        let child = sites[k].of(t);
        let (c, defs1, fault) = flatten_spec(child, defs);
        assert(fault is None);
        lemma_flatten_is_dict(child, defs);
        lemma_flatten_clears_name(child, defs, name);
        let cur1 = sites[k].put(cur, c);
        lemma_replace_child(cur, k, c);
        lemma_same_keys_hold(defs, defs1, name);
        lemma_flatten_from_clears(t, k + 1, cur1, defs1, name);
        lemma_flatten_from_shape(t, k + 1, cur1, defs1);
        let (last, defs2, later) = flatten_from(t, k + 1, cur1, defs1);
        assert(sites[k].of(last) == sites[k].of(cur1));
    }
}

/// Flattening leaves no node that bears a `ref` that the table holds.
pub proof fn lemma_flatten_clears_name(t: Tree, defs: Entries, name: Seq<char>)
    requires
        flatten_spec(t, defs).2 is None,
        holds(defs, name),
    ensures
        !mentions(flatten_spec(t, defs).0, name),
    decreases t, 1int, 0int,
{
    if !t.is_dict() {
        lemma_position_none(t.entries(), "type"@);
    }
    lemma_flatten_from_shape(t, 0, t, defs);
    lemma_flatten_from_clears(t, 0, t, defs, name);
    let (t1, defs1, fault) = flatten_from(t, 0, t, defs);
    let out = flatten_spec(t, defs).0;
    lemma_same_keys_hold(defs, defs1, name);
    if let Ok(Some(own)) = ref_of(t1) {
        if position(defs1, own) is Some {
            lemma_reference_plain(own);
            lemma_plain_mentions_nothing(definition_ref(own), name);
        }
    }
    if out == t1 && mentions_from(t1, 0, name) {
        crate::lifting_laws::lemma_mentions_some(t1, 0, name);
        let j = choose|j: int|
            0 <= j < recurse_spec(t1).sites.len() && mentions(
                (#[trigger] recurse_spec(t1).sites[j]).of(t1),
                name,
            );
        assert(!mentions(recurse_spec(t).sites[j].of(t1), name));
    }
}

/// Flattening clears the tree: where flattening gets through, no node of the
/// tree that comes back bears a `ref` that the table holds; every such node has
/// given way to a reference.
pub proof fn lemma_flatten_clears(t: Tree, defs: Entries)
    requires
        flatten_spec(t, defs).2 is None,
    ensures
        cleared(flatten_spec(t, defs).0, defs),
        key_names(flatten_spec(t, defs).1) == key_names(defs),
{
    lemma_flatten_is_dict(t, defs);
    let out = flatten_spec(t, defs).0;
    assert forall|name: Seq<char>| #[trigger] mentions(out, name) implies !holds(defs, name) by {
        if holds(defs, name) {
            lemma_flatten_clears_name(t, defs, name);
        }
    }
}

/// No node of a plain tree bears a `ref`.
pub proof fn lemma_plain_mentions_nothing(t: Tree, name: Seq<char>)
    requires
        plain(t),
    ensures
        !mentions(t, name),
    decreases t, 1int, 0int,
{
    lemma_plain_from_mentions_nothing(t, 0, name);
}

/// No node below the plain children of a node bears a `ref`.
pub proof fn lemma_plain_from_mentions_nothing(t: Tree, k: int, name: Seq<char>)
    requires
        0 <= k,
        plain_from(t, k),
    ensures
        !mentions_from(t, k, name),
    decreases t, 0int, recurse_spec(t).sites.len() - k,
{
    let sites = recurse_spec(t).sites;
    if k < sites.len() {
        lemma_recurse_valid(t);
        lemma_place_decreases(t, sites[k]);
        lemma_plain_mentions_nothing(sites[k].of(t), name);
        lemma_plain_from_mentions_nothing(t, k + 1, name);
    }
}

} // verus!
