//! Preservation from end to end: every node of a schema that was lifted and
//! flattened stems from a node of the schema it was made from, at whatever
//! depth it stands, and has the keys of that node, in their order, and every
//! value of it that is no child schema.

use crate::idempotence::{
    is_registration, lemma_flatten_is_dict, lemma_overlay_drawn, lemma_reference_plain,
    lemma_sound_gets_through, lemma_tables_drawn,
};
use crate::inline_laws::flattened_spec;
use crate::mark_laws::{
    carries, carries_definitions, carries_entries, carries_from,
};
use crate::lifting_laws::{
    lemma_sound_lift, lemma_sound_lift_children, sound, sound_definitions, sound_entries,
    sound_from, sound_node,
};
use crate::preservation::{
    is_payload, lemma_entries_from_start, lemma_flatten_from_keeps, lemma_flatten_preserves,
    lemma_lift_preserves, lemma_preserved_twice, preserved,
};
use crate::simplify_schema::{
    definition_ref, flatten_entries_spec, flatten_entry_spec, flatten_from, flatten_spec,
    key_names, lift_children_spec, lift_definitions_spec, lift_entries_spec, lift_from,
    lift_spec, merged_spec, tables_spec, Registration,
};
use crate::value::{
    distinct_keys, lemma_child_decreases, lemma_position_first, lemma_position_is_first,
    lemma_position_none, lookup, position, Entries, Tree,
};
use crate::walk_core_schema::{
    lemma_place_decreases, lemma_recurse_valid, recurse_spec, tag_of, SchemaError,
};
use crate::walk_laws::{lemma_replace_child, lemma_site_is_no_type};
use vstd::prelude::*;

verus! {

/// Whether `s` is a bare reference.
pub open spec fn is_placeholder(s: Tree) -> bool {
    exists|name: Seq<char>| s == #[trigger] definition_ref(name)
}

/// Whether the node `s` stems from the node `t`: `s` is a bare reference that
/// stands for `t`; or `t` is a `definitions` node and `s` stems from its inner
/// schema; or `s` is `t` with the same keys in the same order, the same value
/// under every key that holds no child schema, and child schemas that stem
/// from those of `t`, each from the one in its place.
pub open spec fn stems(t: Tree, s: Tree) -> bool
    decreases t, 1int, 0int,
{
    ||| is_placeholder(s)
    ||| {
        &&& tag_of(t) == Ok::<Seq<char>, SchemaError>("definitions"@)
        &&& position(t.entries(), "schema"@) is Some
        &&& 0 <= position(t.entries(), "schema"@)->0 < t.arity()
        &&& ({
            let i = position(t.entries(), "schema"@)->0;
            proof {
                if 0 <= i < t.arity() {
                    lemma_child_decreases(t, i);
                }
            }
            stems(t.child(i), s)
        })
    }
    ||| {
        &&& tag_of(t) != Ok::<Seq<char>, SchemaError>("definitions"@)
        &&& preserved(t, s)
        &&& recurse_spec(s) == recurse_spec(t)
        &&& stems_from(t, s, 0)
    }
}

/// Whether the child schemas of `s` from the `k`-th on stem from those of
/// `t`, each from the one in its place.
pub open spec fn stems_from(t: Tree, s: Tree, k: int) -> bool
    decreases t, 0int, recurse_spec(t).sites.len() - k,
{
    let sites = recurse_spec(t).sites;
    if 0 <= k < sites.len() {
        proof {
            lemma_recurse_valid(t);
            lemma_place_decreases(t, sites[k]);
        }
        stems(sites[k].of(t), sites[k].of(s)) && stems_from(t, s, k + 1)
    } else {
        true
    }
}

/// Child schemas that each stem from the one in their place do so from any
/// place on.
pub proof fn lemma_stems_from_all(t: Tree, s: Tree, k: int)
    requires
        0 <= k,
        forall|j: int|
            0 <= j < recurse_spec(t).sites.len() ==> stems(
                (#[trigger] recurse_spec(t).sites[j]).of(t),
                recurse_spec(t).sites[j].of(s),
            ),
    ensures
        stems_from(t, s, k),
    decreases recurse_spec(t).sites.len() - k,
{
    if k < recurse_spec(t).sites.len() {
        assert(stems(recurse_spec(t).sites[k].of(t), recurse_spec(t).sites[k].of(s)));
        lemma_stems_from_all(t, s, k + 1);
    }
}

/// Where the child schemas stem from those in their place from `k` on, each
/// of them does.
pub proof fn lemma_stems_child(t: Tree, s: Tree, k: int, j: int)
    requires
        0 <= k <= j < recurse_spec(t).sites.len(),
        stems_from(t, s, k),
    ensures
        stems(recurse_spec(t).sites[j].of(t), recurse_spec(t).sites[j].of(s)),
    decreases j - k,
{
    if k < j {
        lemma_stems_child(t, s, k + 1, j);
    }
}

/// Flattening leaves nodes that stem from those it found: where flattening a
/// node gets through, what stands in its place stems from it.
pub proof fn lemma_flatten_stems(t: Tree, defs: Entries)
    requires
        flatten_spec(t, defs).2 is None,
    ensures
        stems(t, flatten_spec(t, defs).0),
    decreases t, 1int, 0int,
{
    lemma_flatten_preserves(t, defs);
    let out = flatten_spec(t, defs).0;
    if !is_placeholder(out) {
        let (t1, defs1, fault) = flatten_from(t, 0, t, defs);
        assert(out == t1) by {
            if out != t1 {
                let name = crate::collect::ref_of(t1)->Ok_0->0;
                assert(out == definition_ref(name));
            }
        }
        lemma_flatten_from_stems(t, 0, t, defs);
        lemma_stems_from_all(t, t1, 0);
    }
}

/// The same, for the later child schemas of a node.
pub proof fn lemma_flatten_from_stems(t: Tree, k: int, cur: Tree, defs: Entries)
    requires
        0 <= k,
        tag_of(t) matches Ok(tag) && tag != "definitions"@,
        flatten_from(t, k, cur, defs).2 is None,
        recurse_spec(cur) == recurse_spec(t),
        tag_of(cur) == tag_of(t),
        forall|j: int|
            0 <= j < k && j < recurse_spec(t).sites.len() ==> stems(
                (#[trigger] recurse_spec(t).sites[j]).of(t),
                recurse_spec(t).sites[j].of(cur),
            ),
        forall|j: int|
            k <= j < recurse_spec(t).sites.len() ==> (#[trigger] recurse_spec(t).sites[j]).of(cur)
                == recurse_spec(t).sites[j].of(t),
    ensures
        recurse_spec(flatten_from(t, k, cur, defs).0) == recurse_spec(t),
        forall|j: int|
            0 <= j < recurse_spec(t).sites.len() ==> stems(
                (#[trigger] recurse_spec(t).sites[j]).of(t),
                recurse_spec(t).sites[j].of(flatten_from(t, k, cur, defs).0),
            ),
    decreases t, 0int, recurse_spec(t).sites.len() - k,
{
    let sites = recurse_spec(t).sites;
    if k < sites.len() {
        lemma_recurse_valid(t);
        lemma_place_decreases(t, sites[k]);
        let child = sites[k].of(t);
        let (c, defs1, fault) = flatten_spec(child, defs);
        lemma_flatten_stems(child, defs);
        lemma_flatten_is_dict(child, defs);
        let cur1 = sites[k].put(cur, c);
        lemma_replace_child(cur, k, c);
        assert forall|j: int| 0 <= j < k + 1 && j < sites.len() implies stems(
            (#[trigger] sites[j]).of(t),
            sites[j].of(cur1),
        ) by {
            if j < k {
                assert(stems(sites[j].of(t), sites[j].of(cur)));
                assert(recurse_spec(cur).sites[j].of(cur1) == recurse_spec(cur).sites[j].of(cur));
            }
        }
        assert forall|j: int| k + 1 <= j < sites.len() implies (#[trigger] sites[j]).of(cur1)
            == sites[j].of(t) by {
            assert(recurse_spec(cur).sites[j].of(cur1) == recurse_spec(cur).sites[j].of(cur));
        }
        lemma_flatten_from_stems(t, k + 1, cur1, defs1);
    }
}

/// A node that is preserved is tagged as it was.
pub proof fn lemma_preserved_keeps_tag(t: Tree, after: Tree)
    requires
        preserved(t, after),
    ensures
        tag_of(after) == tag_of(t),
{
    lemma_position_is_first(t.entries(), "type"@);
    match position(t.entries(), "type"@) {
        Some(i) => {
            assert forall|j: int| 0 <= j < i implies (#[trigger] after.entries()[j]).0 != "type"@ by {
                assert(t.entries()[j].0 != "type"@);
            }
            assert(after.entries()[i].0 == t.entries()[i].0);
            lemma_position_first(after.entries(), "type"@, i);
            assert(is_payload(t, i)) by {
                assert forall|k: int| 0 <= k < recurse_spec(t).sites.len() implies (
                #[trigger] recurse_spec(t).sites[k]).entry() != i by {
                    lemma_site_is_no_type(t, k);
                }
            }
            assert(after.entries()[i] == t.entries()[i]);
        },
        None => {
            assert forall|j: int| 0 <= j < after.entries().len() implies (
            #[trigger] after.entries()[j]).0 != "type"@ by {
                assert(t.entries()[j].0 != "type"@);
            }
            lemma_position_none(after.entries(), "type"@);
        },
    }
}

/// What is preserved of a bare reference is that reference.
pub proof fn lemma_placeholder_stays(b: Tree, c: Tree)
    requires
        is_placeholder(b),
        preserved(b, c),
    ensures
        c == b,
{
    let name = choose|name: Seq<char>| b == #[trigger] definition_ref(name);
    lemma_reference_plain(name);
    assert forall|i: int| 0 <= i < b.entries().len() implies is_payload(b, i) by {}
    assert(c.entries() =~= b.entries());
}

/// Stemming goes from pass to pass: what stems from a node that stems from
/// another stems from that other.
pub proof fn lemma_stems_twice(a: Tree, b: Tree, c: Tree)
    requires
        stems(a, b),
        stems(b, c),
    ensures
        stems(a, c),
    decreases a, 1int, 0int,
{
    if !is_placeholder(c) {
        if tag_of(a) == Ok::<Seq<char>, SchemaError>("definitions"@) {
            if !is_placeholder(b) {
                let i = position(a.entries(), "schema"@)->0;
                lemma_child_decreases(a, i);
                lemma_stems_twice(a.child(i), b, c);
            } else {
                lemma_placeholder_after(b, c);
            }
        } else if is_placeholder(b) {
            lemma_placeholder_after(b, c);
        } else {
            lemma_preserved_keeps_tag(a, b);
            lemma_preserved_twice(a, b, c);
            lemma_stems_from_twice(a, b, c, 0);
        }
    }
}

/// What stems from a bare reference is a bare reference.
pub proof fn lemma_placeholder_after(b: Tree, c: Tree)
    requires
        is_placeholder(b),
        stems(b, c),
    ensures
        is_placeholder(c),
{
    let name = choose|name: Seq<char>| b == #[trigger] definition_ref(name);
    lemma_reference_plain(name);
    reveal_strlit("definition-ref");
    reveal_strlit("definitions");
    assert("definition-ref"@.len() != "definitions"@.len());
    if !is_placeholder(c) {
        lemma_placeholder_stays(b, c);
    }
}

/// The same, for the later child schemas of a node.
pub proof fn lemma_stems_from_twice(a: Tree, b: Tree, c: Tree, k: int)
    requires
        0 <= k,
        recurse_spec(b) == recurse_spec(a),
        recurse_spec(c) == recurse_spec(a),
        stems_from(a, b, k),
        stems_from(b, c, k),
    ensures
        stems_from(a, c, k),
    decreases a, 0int, recurse_spec(a).sites.len() - k,
{
    let sites = recurse_spec(a).sites;
    if k < sites.len() {
        lemma_recurse_valid(a);
        lemma_place_decreases(a, sites[k]);
        lemma_stems_twice(sites[k].of(a), sites[k].of(b), sites[k].of(c));
        lemma_stems_from_twice(a, b, c, k + 1);
    }
}

/// Lifting leaves nodes that stem from those it found: what lifting leaves
/// in the place of a sound schema stems from it.
pub proof fn lemma_lift_stems(t: Tree)
    requires
        sound(t),
    ensures
        stems(t, lift_spec(t).0),
    decreases t, 2int, 0int,
{
    let tag = tag_of(t)->Ok_0;
    if tag == "definitions"@ {
        lemma_lift_definitions_stems(t);
    } else {
        lemma_lift_children_stems(t);
    }
}

/// The same, for a `definitions` node.
pub proof fn lemma_lift_definitions_stems(t: Tree)
    requires
        tag_of(t) == Ok::<Seq<char>, SchemaError>("definitions"@),
        sound_definitions(t),
    ensures
        stems(t, lift_definitions_spec(t).0),
    decreases t, 1int, 1int,
{
    let a = position(t.entries(), "definitions"@)->0;
    let s = position(t.entries(), "schema"@)->0;
    lemma_position_is_first(t.entries(), "definitions"@);
    lemma_position_is_first(t.entries(), "schema"@);
    crate::lifting_laws::lemma_sound_lift_entries(t, a, 0);
    let inner = t.child(s);
    lemma_child_decreases(t, s);
    assert(lift_entries_spec(t, a, 0).1 is None);
    if tag_of(inner) == Ok::<Seq<char>, SchemaError>("definitions"@) {
        assert(inner.is_dict());
        lemma_lift_definitions_stems(inner);
        assert(lift_definitions_spec(t).0 == lift_definitions_spec(inner).0);
    } else {
        assert(sound_node(inner));
        assert(inner.is_dict());
        lemma_lift_children_stems(inner);
        assert(lift_definitions_spec(t).0 == lift_children_spec(inner).0);
    }
    assert(stems(inner, lift_definitions_spec(t).0));
}

/// The same, for a node that is no `definitions` node.
pub proof fn lemma_lift_children_stems(t: Tree)
    requires
        sound_node(t),
    ensures
        stems(t, lift_children_spec(t).0),
        lift_spec(t).0 == lift_children_spec(t).0,
    decreases t, 1int, 0int,
{
    lemma_lift_preserves(t);
    lemma_sound_lift_children(t);
    lemma_lift_from_stems(t, 0, t);
    lemma_stems_from_all(t, lift_from(t, 0, t).0, 0);
}

/// The same, for the later child schemas of a node.
pub proof fn lemma_lift_from_stems(t: Tree, k: int, cur: Tree)
    requires
        0 <= k,
        tag_of(t) matches Ok(tag) && tag != "definitions"@,
        sound_from(t, k),
        recurse_spec(cur) == recurse_spec(t),
        tag_of(cur) == tag_of(t),
        forall|j: int|
            0 <= j < k && j < recurse_spec(t).sites.len() ==> stems(
                (#[trigger] recurse_spec(t).sites[j]).of(t),
                recurse_spec(t).sites[j].of(cur),
            ),
        forall|j: int|
            k <= j < recurse_spec(t).sites.len() ==> (#[trigger] recurse_spec(t).sites[j]).of(cur)
                == recurse_spec(t).sites[j].of(t),
    ensures
        forall|j: int|
            0 <= j < recurse_spec(t).sites.len() ==> stems(
                (#[trigger] recurse_spec(t).sites[j]).of(t),
                recurse_spec(t).sites[j].of(lift_from(t, k, cur).0),
            ),
    decreases t, 0int, recurse_spec(t).sites.len() - k,
{
    let sites = recurse_spec(t).sites;
    if k < sites.len() {
        lemma_recurse_valid(t);
        lemma_place_decreases(t, sites[k]);
        let child = sites[k].of(t);
        let (c, found, fault) = lift_spec(child);
        lemma_lift_stems(child);
        lemma_sound_lift(child);
        let cur1 = sites[k].put(cur, c);
        lemma_replace_child(cur, k, c);
        assert forall|j: int| 0 <= j < k + 1 && j < sites.len() implies stems(
            (#[trigger] sites[j]).of(t),
            sites[j].of(cur1),
        ) by {
            if j < k {
                assert(stems(sites[j].of(t), sites[j].of(cur)));
                assert(recurse_spec(cur).sites[j].of(cur1) == recurse_spec(cur).sites[j].of(cur));
            }
        }
        assert forall|j: int| k + 1 <= j < sites.len() implies (#[trigger] sites[j]).of(cur1)
            == sites[j].of(t) by {
            assert(recurse_spec(cur).sites[j].of(cur1) == recurse_spec(cur).sites[j].of(cur));
        }
        lemma_lift_from_stems(t, k + 1, cur1);
    }
}

/// Preservation from end to end: where a sound schema is lifted and
/// flattened, the schema that stands in the end stems from it, and so does
/// every node of that schema from the node of the first in whose place it
/// stands. It is the schema that simplifying wraps with the definitions.
pub proof fn lemma_schema_stems(root: Tree)
    requires
        sound(root),
    ensures
        stems(root, flattened_spec(root).0),
{
    lemma_sound_gets_through(root);
    lemma_sound_lift(root);
    lemma_lift_stems(root);
    let (lifted, found, fault) = lift_spec(root);
    lemma_flatten_stems(lifted, merged_spec(found));
    lemma_stems_twice(root, lifted, flattened_spec(root).0);
}

/// Whether `d` stems from a node of `t`: from `t` itself, from a node below
/// one of its child schemas, or, where `t` is a `definitions` node, from a
/// node of one of its definitions or of its inner schema.
pub open spec fn offers(t: Tree, d: Tree) -> bool
    decreases t, 3int, 0int,
{
    stems(t, d) || match tag_of(t) {
        Err(_) => false,
        Ok(tag) => if tag == "definitions"@ {
            offers_definitions(t, d)
        } else {
            offers_from(t, 0, d)
        },
    }
}

/// Whether `d` stems from a node of the definitions or of the inner schema of
/// the `definitions` node `t`.
pub open spec fn offers_definitions(t: Tree, d: Tree) -> bool
    decreases t, 2int, 0int,
{
    ||| position(t.entries(), "definitions"@) is Some && offers_entries(
        t,
        position(t.entries(), "definitions"@)->0,
        0,
        d,
    )
    ||| {
        &&& position(t.entries(), "schema"@) is Some
        &&& 0 <= position(t.entries(), "schema"@)->0 < t.arity()
        &&& ({
            let i = position(t.entries(), "schema"@)->0;
            proof {
                if 0 <= i < t.arity() {
                    lemma_child_decreases(t, i);
                }
            }
            offers(t.child(i), d)
        })
    }
}

/// Whether `d` stems from a node below the child schemas of `t` from the
/// `k`-th on.
pub open spec fn offers_from(t: Tree, k: int, d: Tree) -> bool
    decreases t, 0int, recurse_spec(t).sites.len() - k,
{
    let sites = recurse_spec(t).sites;
    if 0 <= k < sites.len() {
        proof {
            lemma_recurse_valid(t);
            lemma_place_decreases(t, sites[k]);
        }
        offers(sites[k].of(t), d) || offers_from(t, k + 1, d)
    } else {
        false
    }
}

/// Whether `d` stems from a node of the definitions of the `definitions` node
/// `t` from the `j`-th on; the list stands in entry `a`.
pub open spec fn offers_entries(t: Tree, a: int, j: int, d: Tree) -> bool
    decreases t, 0int, t.child(a).arity() - j,
{
    let list = t.child(a);
    if 0 <= a < t.arity() && 0 <= j < list.arity() {
        proof {
            lemma_child_decreases(t, a);
            lemma_child_decreases(list, j);
        }
        offers(list.child(j), d) || offers_entries(t, a, j + 1, d)
    } else {
        false
    }
}

/// Every node that lifting registers stems from a node of the schema.
pub proof fn lemma_lift_offers(t: Tree, n: int)
    requires
        sound(t),
        0 <= n < lift_spec(t).1.len(),
    ensures
        offers(t, lift_spec(t).1[n].node),
    decreases t, 3int, 0int,
{
    let tag = tag_of(t)->Ok_0;
    if tag == "definitions"@ {
        lemma_lift_definitions_offers(t, n);
    } else {
        lemma_lift_node_offers(t, n);
    }
}

/// The same, for a `definitions` node.
pub proof fn lemma_lift_definitions_offers(t: Tree, n: int)
    requires
        tag_of(t) == Ok::<Seq<char>, SchemaError>("definitions"@),
        sound_definitions(t),
        0 <= n < lift_definitions_spec(t).1.len(),
    ensures
        offers_definitions(t, lift_definitions_spec(t).1[n].node),
    decreases t, 2int, 0int,
{
    let a = position(t.entries(), "definitions"@)->0;
    let s = position(t.entries(), "schema"@)->0;
    lemma_position_is_first(t.entries(), "definitions"@);
    lemma_position_is_first(t.entries(), "schema"@);
    crate::lifting_laws::lemma_sound_lift_entries(t, a, 0);
    let (found, fault) = lift_entries_spec(t, a, 0);
    let inner = t.child(s);
    lemma_child_decreases(t, s);
    if n < found.len() {
        lemma_lift_entries_offers(t, a, 0, n);
        if tag_of(inner) == Ok::<Seq<char>, SchemaError>("definitions"@) {
            assert(inner.is_dict());
            assert(lift_definitions_spec(t).1[n] == found[n]);
        } else {
            assert(sound_node(inner));
            assert(lift_definitions_spec(t).1[n] == found[n]);
        }
    } else if tag_of(inner) == Ok::<Seq<char>, SchemaError>("definitions"@) {
        assert(inner.is_dict());
        let more = lift_definitions_spec(inner).1;
        assert(lift_definitions_spec(t).1[n] == more[n - found.len()]);
        lemma_lift_definitions_offers(inner, n - found.len());
    } else {
        assert(sound_node(inner));
        let more = lift_children_spec(inner).1;
        assert(lift_definitions_spec(t).1[n] == more[n - found.len()]);
        lemma_lift_from_offers(inner, 0, inner, n - found.len());
    }
}

/// The same, for a node that is no `definitions` node.
pub proof fn lemma_lift_node_offers(t: Tree, n: int)
    requires
        sound_node(t),
        0 <= n < lift_spec(t).1.len(),
    ensures
        offers(t, lift_spec(t).1[n].node),
    decreases t, 2int, 0int,
{
    let (node, below, fault) = lift_children_spec(t);
    lemma_lift_children_stems(t);
    match crate::collect::ref_of(t) {
        Ok(Some(own)) => {
            if n == 0 {
                assert(lift_spec(t).1[0].node == node);
            } else {
                assert(lift_spec(t).1[n] == below[n - 1]);
                lemma_lift_from_offers(t, 0, t, n - 1);
            }
        },
        _ => {
            lemma_lift_from_offers(t, 0, t, n);
        },
    }
}

/// The same, for the later child schemas of a node.
pub proof fn lemma_lift_from_offers(t: Tree, k: int, cur: Tree, n: int)
    requires
        0 <= k,
        sound_from(t, k),
        0 <= n < lift_from(t, k, cur).1.len(),
    ensures
        offers_from(t, k, lift_from(t, k, cur).1[n].node),
    decreases t, 0int, recurse_spec(t).sites.len() - k,
{
    let sites = recurse_spec(t).sites;
    if k < sites.len() {
        lemma_recurse_valid(t);
        lemma_place_decreases(t, sites[k]);
        let child = sites[k].of(t);
        let (c, found, fault) = lift_spec(child);
        lemma_sound_lift(child);
        let cur1 = sites[k].put(cur, c);
        let more = lift_from(t, k + 1, cur1).1;
        if n < found.len() {
            assert(lift_from(t, k, cur).1[n] == found[n]);
            lemma_lift_offers(child, n);
        } else {
            assert(lift_from(t, k, cur).1[n] == more[n - found.len()]);
            lemma_lift_from_offers(t, k + 1, cur1, n - found.len());
        }
    }
}

/// What lifting registers for the definitions of a sound `definitions` node
/// from the `j`-th on: what it registers below the `j`-th, then the `j`-th
/// itself, then the rest.
pub proof fn lemma_sound_entries_shape(t: Tree, a: int, j: int)
    requires
        0 <= a < t.arity(),
        0 <= j < t.child(a).arity(),
        sound_entries(t, a, j),
    ensures
        lift_spec(t.child(a).child(j)).2 is None,
        lift_entries_spec(t, a, j).0.len() == lift_spec(t.child(a).child(j)).1.len() + 1
            + lift_entries_spec(t, a, j + 1).0.len(),
        forall|n: int|
            0 <= n < lift_spec(t.child(a).child(j)).1.len() ==> lift_entries_spec(t, a, j).0[n]
                == lift_spec(t.child(a).child(j)).1[n],
        lift_entries_spec(t, a, j).0[lift_spec(t.child(a).child(j)).1.len() as int].node
            == lift_spec(t.child(a).child(j)).0,
        forall|n: int|
            0 <= n < lift_entries_spec(t, a, j + 1).0.len() ==> lift_entries_spec(t, a, j).0[n
                + lift_spec(t.child(a).child(j)).1.len() + 1] == #[trigger] lift_entries_spec(
                t,
                a,
                j + 1,
            ).0[n],
{
    let list = t.child(a);
    let entry = list.child(j);
    if !entry.is_dict() {
        lemma_position_none(entry.entries(), "ref"@);
    }
    crate::lifting_laws::lemma_sound_lift_node(entry);
    let (node, below, fault) = lift_spec(entry);
    let (rest, later) = lift_entries_spec(t, a, j + 1);
    let own = crate::collect::ref_of(entry)->Ok_0->0;
    let mark = crate::collect::invalid_schema_spec(node)->Ok_0;
    let one = seq![Registration { name: own, invalid: mark, node }];
    assert(lift_entries_spec(t, a, j).0 == below + one + rest);
}

/// The same, for the definitions of a `definitions` node.
pub proof fn lemma_lift_entries_offers(t: Tree, a: int, j: int, n: int)
    requires
        0 <= j,
        0 <= a < t.arity(),
        sound_entries(t, a, j),
        0 <= n < lift_entries_spec(t, a, j).0.len(),
    ensures
        offers_entries(t, a, j, lift_entries_spec(t, a, j).0[n].node),
    decreases t, 0int, t.child(a).arity() - j,
{
    let list = t.child(a);
    if j < list.arity() {
        let entry = list.child(j);
        lemma_child_decreases(t, a);
        lemma_child_decreases(list, j);
        lemma_sound_entries_shape(t, a, j);
        let below = lift_spec(entry).1;
        let rest = lift_entries_spec(t, a, j + 1).0;
        let all = lift_entries_spec(t, a, j).0;
        assert(sound_node(entry));
        assert(sound(entry));
        assert(all.len() == below.len() + 1 + rest.len());
        if n < below.len() {
            lemma_lift_offers(entry, n);
            assert(all[n] == below[n]);
            assert(offers(entry, all[n].node));
        } else if n == below.len() {
            lemma_lift_stems(entry);
            assert(offers(entry, all[n].node));
        } else {
            let m = n - below.len() - 1;
            assert(0 <= m < rest.len());
            assert(all[m + below.len() + 1] == rest[m]);
            lemma_lift_entries_offers(t, a, j + 1, m);
            assert(offers_entries(t, a, j + 1, all[n].node));
        }
    }
}

/// What stems from a node of a node that stems from another stems from a node
/// of that other.
pub proof fn lemma_offers_after(a: Tree, b: Tree, x: Tree)
    requires
        stems(a, b),
        offers(b, x),
    ensures
        offers(a, x),
    decreases a, 1int, 0int,
{
    if stems(b, x) {
        lemma_stems_twice(a, b, x);
    } else if is_placeholder(b) {
        let name = choose|name: Seq<char>| b == #[trigger] definition_ref(name);
        lemma_reference_plain(name);
        reveal_strlit("definition-ref");
        reveal_strlit("definitions");
        assert("definition-ref"@.len() != "definitions"@.len());
    } else if tag_of(a) == Ok::<Seq<char>, SchemaError>("definitions"@) {
        let i = position(a.entries(), "schema"@)->0;
        lemma_child_decreases(a, i);
        lemma_offers_after(a.child(i), b, x);
    } else {
        lemma_preserved_keeps_tag(a, b);
        lemma_offers_from_after(a, b, x, 0);
    }
}

/// The same, for the later child schemas of a node.
pub proof fn lemma_offers_from_after(a: Tree, b: Tree, x: Tree, k: int)
    requires
        0 <= k,
        recurse_spec(b) == recurse_spec(a),
        stems_from(a, b, k),
        offers_from(b, k, x),
    ensures
        offers_from(a, k, x),
    decreases a, 0int, recurse_spec(a).sites.len() - k,
{
    let sites = recurse_spec(a).sites;
    lemma_recurse_valid(a);
    lemma_place_decreases(a, sites[k]);
    if offers(sites[k].of(b), x) {
        lemma_offers_after(sites[k].of(a), sites[k].of(b), x);
    } else {
        lemma_offers_from_after(a, b, x, k + 1);
    }
}

/// What stems from a node of a node that stems from a node of another stems
/// from a node of that other.
pub proof fn lemma_offers_twice(t: Tree, x: Tree, e: Tree)
    requires
        offers(t, x),
        offers(x, e),
    ensures
        offers(t, e),
    decreases t, 3int, 0int,
{
    if stems(t, x) {
        lemma_offers_after(t, x, e);
    } else {
        let tag = tag_of(t)->Ok_0;
        if tag == "definitions"@ {
            lemma_offers_definitions_twice(t, x, e);
        } else {
            lemma_offers_from_twice(t, 0, x, e);
        }
    }
}

/// The same, below a `definitions` node.
pub proof fn lemma_offers_definitions_twice(t: Tree, x: Tree, e: Tree)
    requires
        offers_definitions(t, x),
        offers(x, e),
    ensures
        offers_definitions(t, e),
    decreases t, 2int, 0int,
{
    if position(t.entries(), "definitions"@) is Some && offers_entries(
        t,
        position(t.entries(), "definitions"@)->0,
        0,
        x,
    ) {
        lemma_offers_entries_twice(t, position(t.entries(), "definitions"@)->0, 0, x, e);
    } else {
        let i = position(t.entries(), "schema"@)->0;
        lemma_child_decreases(t, i);
        lemma_offers_twice(t.child(i), x, e);
    }
}

/// The same, below the later child schemas of a node.
pub proof fn lemma_offers_from_twice(t: Tree, k: int, x: Tree, e: Tree)
    requires
        offers_from(t, k, x),
        offers(x, e),
    ensures
        offers_from(t, k, e),
    decreases t, 0int, recurse_spec(t).sites.len() - k,
{
    let sites = recurse_spec(t).sites;
    lemma_recurse_valid(t);
    lemma_place_decreases(t, sites[k]);
    if offers(sites[k].of(t), x) {
        lemma_offers_twice(sites[k].of(t), x, e);
    } else {
        lemma_offers_from_twice(t, k + 1, x, e);
    }
}

/// The same, below the definitions of a `definitions` node.
pub proof fn lemma_offers_entries_twice(t: Tree, a: int, j: int, x: Tree, e: Tree)
    requires
        offers_entries(t, a, j, x),
        offers(x, e),
    ensures
        offers_entries(t, a, j, e),
    decreases t, 0int, t.child(a).arity() - j,
{
    let list = t.child(a);
    lemma_child_decreases(t, a);
    lemma_child_decreases(list, j);
    if offers(list.child(j), x) {
        lemma_offers_twice(list.child(j), x, e);
    } else {
        lemma_offers_entries_twice(t, a, j + 1, x, e);
    }
}

/// A node whose child schemas were flattened stems from the node it was.
pub proof fn lemma_flattened_stems(t: Tree, defs: Entries)
    requires
        tag_of(t) matches Ok(tag) && tag != "definitions"@,
        flatten_from(t, 0, t, defs).2 is None,
    ensures
        stems(t, flatten_from(t, 0, t, defs).0),
{
    let t1 = flatten_from(t, 0, t, defs).0;
    lemma_flatten_from_keeps(t, 0, t, defs);
    lemma_entries_from_start(t);
    lemma_flatten_from_stems(t, 0, t, defs);
    lemma_stems_from_all(t, t1, 0);
}

/// Whatever flattening puts into the table stems from a node of what was
/// flattened: where flattening a node gets through, the table is as long as
/// it was, and its `j`-th definition is what it was or stems from a node of
/// that node.
pub proof fn lemma_flatten_sourced(t: Tree, defs: Entries, j: int)
    requires
        flatten_spec(t, defs).2 is None,
        0 <= j < defs.len(),
    ensures
        flatten_spec(t, defs).1.len() == defs.len(),
        flatten_spec(t, defs).1[j].1 == defs[j].1 || offers(t, flatten_spec(t, defs).1[j].1),
    decreases t, 1int, 0int,
{
    lemma_flatten_from_sourced(t, 0, t, defs, j);
    let (t1, defs1, fault) = flatten_from(t, 0, t, defs);
    lemma_flattened_stems(t, defs);
    if let Ok(Some(name)) = crate::collect::ref_of(t1) {
        lemma_position_is_first(defs1, name);
    }
}

/// The same, for the later child schemas of a node.
pub proof fn lemma_flatten_from_sourced(t: Tree, k: int, cur: Tree, defs: Entries, j: int)
    requires
        0 <= k,
        flatten_from(t, k, cur, defs).2 is None,
        0 <= j < defs.len(),
    ensures
        flatten_from(t, k, cur, defs).1.len() == defs.len(),
        flatten_from(t, k, cur, defs).1[j].1 == defs[j].1 || offers_from(
            t,
            k,
            flatten_from(t, k, cur, defs).1[j].1,
        ),
    decreases t, 0int, recurse_spec(t).sites.len() - k,
{
    let sites = recurse_spec(t).sites;
    if k < sites.len() {
        lemma_recurse_valid(t);
        lemma_place_decreases(t, sites[k]);
        let child = sites[k].of(t);
        let (c, defs1, fault) = flatten_spec(child, defs);
        lemma_flatten_sourced(child, defs, j);
        lemma_flatten_from_sourced(t, k + 1, sites[k].put(cur, c), defs1, j);
    }
}

/// The same, for the flattening of one definition of the table.
pub proof fn lemma_flatten_entry_sourced(defs: Entries, key: Seq<char>, j: int)
    requires
        flatten_entry_spec(defs, key).1 is None,
        0 <= j < defs.len(),
    ensures
        flatten_entry_spec(defs, key).0.len() == defs.len(),
        flatten_entry_spec(defs, key).0[j].1 == defs[j].1 || offers(
            lookup(defs, key)->0,
            flatten_entry_spec(defs, key).0[j].1,
        ),
{
    let target = lookup(defs, key)->0;
    let (node, defs1, fault) = flatten_spec(target, defs);
    lemma_flatten_sourced(target, defs, j);
    lemma_flatten_stems(target, defs);
    lemma_flatten_is_dict(target, defs);
    crate::simplify_laws::lemma_same_keys_hold(defs, defs1, key);
    lemma_position_is_first(defs1, key);
}

/// Where every definition of a table stems from a node of a schema, every
/// definition of the table stems from one after its definitions were
/// flattened in turn.
pub proof fn lemma_flatten_entries_sourced(root: Tree, defs: Entries, keys: Seq<Seq<char>>, k: int, j: int)
    requires
        0 <= k,
        forall|i: int| 0 <= i < defs.len() ==> offers(root, (#[trigger] defs[i]).1),
        flatten_entries_spec(defs, keys, k).1 is None,
        0 <= j < defs.len(),
    ensures
        flatten_entries_spec(defs, keys, k).0.len() == defs.len(),
        offers(root, flatten_entries_spec(defs, keys, k).0[j].1),
    decreases keys.len() - k,
{
    if k < keys.len() {
        let (defs1, fault) = flatten_entry_spec(defs, keys[k]);
        let target = lookup(defs, keys[k])->0;
        lemma_position_is_first(defs, keys[k]);
        lemma_flatten_entry_sourced(defs, keys[k], j);
        assert forall|i: int| 0 <= i < defs1.len() implies offers(root, (#[trigger] defs1[i]).1) by {
            lemma_flatten_entry_sourced(defs, keys[k], i);
            if defs1[i].1 != defs[i].1 {
                assert(offers(root, defs[position(defs, keys[k])->0].1));
                lemma_offers_twice(root, target, defs1[i].1);
            } else {
                assert(offers(root, defs[i].1));
            }
        }
        lemma_flatten_entries_sourced(root, defs1, keys, k + 1, j);
    }
}

/// Every definition of the table that lifting leaves stems from a node of
/// the schema.
pub proof fn lemma_merged_offered(root: Tree, i: int)
    requires
        sound(root),
        0 <= i < merged_spec(lift_spec(root).1).len(),
    ensures
        offers(root, merged_spec(lift_spec(root).1)[i].1),
{
    let found = lift_spec(root).1;
    let defs = merged_spec(found);
    let empty = Seq::<(Seq<char>, Tree)>::empty();
    lemma_tables_drawn(found, 0, empty, empty);
    let (valid, invalid) = tables_spec(found, 0, empty, empty);
    lemma_overlay_drawn(invalid, valid, 0, found);
    assert(is_registration(found, defs[i]));
    let k = choose|k: int|
        0 <= k < found.len() && (#[trigger] found[k]).name == defs[i].0 && found[k].node
            == defs[i].1;
    lemma_lift_offers(root, k);
}

/// Every definition of the table stems from a node of the schema once the
/// lifted schema was flattened.
pub proof fn lemma_flat_root_offered(root: Tree, i: int)
    requires
        sound(root),
        flatten_spec(lift_spec(root).0, merged_spec(lift_spec(root).1)).2 is None,
        0 <= i < merged_spec(lift_spec(root).1).len(),
    ensures
        flatten_spec(lift_spec(root).0, merged_spec(lift_spec(root).1)).1.len() == merged_spec(
            lift_spec(root).1,
        ).len(),
        offers(root, flatten_spec(lift_spec(root).0, merged_spec(lift_spec(root).1)).1[i].1),
{
    let (lifted, found, fault) = lift_spec(root);
    let defs = merged_spec(found);
    let defs1 = flatten_spec(lifted, defs).1;
    lemma_flatten_sourced(lifted, defs, i);
    if defs1[i].1 != defs[i].1 {
        lemma_lift_stems(root);
        lemma_offers_after(root, lifted, defs1[i].1);
    } else {
        lemma_merged_offered(root, i);
    }
}

/// None of the definitions that a sound schema is wrapped with is a bare
/// reference.
pub proof fn lemma_definition_stays(root: Tree, j: int)
    requires
        sound(root),
        0 <= j < flattened_spec(root).1.len(),
    ensures
        !is_placeholder(flattened_spec(root).1[j].1),
{
    crate::idempotence::lemma_sound_simplified(root);
    let table = flattened_spec(root).1;
    lemma_definition_is_no_placeholder(table[j].1, table[j].0);
}

/// A definition in simplified form is no bare reference: it bears a `ref`.
pub proof fn lemma_definition_is_no_placeholder(d: Tree, key: Seq<char>)
    requires
        crate::fixed_point::flat_definition(d, key),
    ensures
        !is_placeholder(d),
{
    if is_placeholder(d) {
        let name = choose|name: Seq<char>| d == #[trigger] definition_ref(name);
        lemma_reference_plain(name);
    }
}

/// Preservation from end to end, for the definitions: where a sound schema is
/// lifted and flattened, every definition that stands in the table stems from
/// a node of the schema, and so does every node of it from the node in whose
/// place it stands. These are the definitions that simplifying without
/// inlining wraps the schema with.
pub proof fn lemma_definitions_stem(root: Tree, j: int)
    requires
        sound(root),
        0 <= j < flattened_spec(root).1.len(),
    ensures
        offers(root, flattened_spec(root).1[j].1),
        !is_placeholder(flattened_spec(root).1[j].1),
{
    lemma_definition_stays(root, j);
    lemma_sound_gets_through(root);
    let (lifted, found, fault) = lift_spec(root);
    let defs = merged_spec(found);
    let defs1 = flatten_spec(lifted, defs).1;
    lemma_flatten_is_dict(lifted, defs);
    assert(defs1.len() == key_names(defs1).len());
    assert(defs.len() == key_names(defs).len());
    assert forall|i: int| 0 <= i < defs1.len() implies offers(root, (#[trigger] defs1[i]).1) by {
        lemma_flat_root_offered(root, i);
    }
    crate::simplify_laws::lemma_flatten_entries_keep_len(defs1, key_names(defs1), 0);
    lemma_flatten_entries_sourced(root, defs1, key_names(defs1), 0, j);
}

/// Whether no record among the nodes of `t` holds a key twice.
pub open spec fn single_keyed(t: Tree) -> bool
    decreases t, 3int, 0int,
{
    distinct_keys(t.entries()) && match tag_of(t) {
        Err(_) => true,
        Ok(tag) => if tag == "definitions"@ {
            single_keyed_definitions(t)
        } else {
            single_keyed_from(t, 0)
        },
    }
}

/// Whether no record among the nodes of the definitions and of the inner
/// schema of the `definitions` node `t` holds a key twice.
pub open spec fn single_keyed_definitions(t: Tree) -> bool
    decreases t, 2int, 0int,
{
    &&& position(t.entries(), "definitions"@) is Some ==> single_keyed_entries(
        t,
        position(t.entries(), "definitions"@)->0,
        0,
    )
    &&& position(t.entries(), "schema"@) is Some && 0 <= position(t.entries(), "schema"@)->0
        < t.arity() ==> ({
        let i = position(t.entries(), "schema"@)->0;
        proof {
            if 0 <= i < t.arity() {
                lemma_child_decreases(t, i);
            }
        }
        single_keyed(t.child(i))
    })
}

/// Whether no record among the nodes below the child schemas of `t` from the
/// `k`-th on holds a key twice.
pub open spec fn single_keyed_from(t: Tree, k: int) -> bool
    decreases t, 0int, recurse_spec(t).sites.len() - k,
{
    let sites = recurse_spec(t).sites;
    if 0 <= k < sites.len() {
        proof {
            lemma_recurse_valid(t);
            lemma_place_decreases(t, sites[k]);
        }
        single_keyed(sites[k].of(t)) && single_keyed_from(t, k + 1)
    } else {
        true
    }
}

/// Whether no record among the nodes of the definitions of the `definitions`
/// node `t` from the `j`-th on holds a key twice; the list stands in entry `a`.
pub open spec fn single_keyed_entries(t: Tree, a: int, j: int) -> bool
    decreases t, 0int, t.child(a).arity() - j,
{
    let list = t.child(a);
    if 0 <= a < t.arity() && 0 <= j < list.arity() {
        proof {
            lemma_child_decreases(t, a);
            lemma_child_decreases(list, j);
        }
        single_keyed(list.child(j)) && single_keyed_entries(t, a, j + 1)
    } else {
        true
    }
}

/// What stems from a node with no key twice, and is no bare reference, holds
/// no key twice.
pub proof fn lemma_stems_keys(t: Tree, d: Tree)
    requires
        stems(t, d),
        single_keyed(t),
        !is_placeholder(d),
    ensures
        distinct_keys(d.entries()),
    decreases t, 1int, 0int,
{
    if tag_of(t) == Ok::<Seq<char>, SchemaError>("definitions"@) {
        let i = position(t.entries(), "schema"@)->0;
        lemma_child_decreases(t, i);
        lemma_stems_keys(t.child(i), d);
    } else {
        assert forall|i: int, j: int| 0 <= i < j < d.entries().len() implies (
        #[trigger] d.entries()[i]).0 != (#[trigger] d.entries()[j]).0 by {
            assert(d.entries()[i].0 == t.entries()[i].0);
            assert(d.entries()[j].0 == t.entries()[j].0);
        }
    }
}

/// What stems from a node of a schema in which no record holds a key twice,
/// and is no bare reference, holds no key twice.
pub proof fn lemma_offers_keys(t: Tree, d: Tree)
    requires
        offers(t, d),
        single_keyed(t),
        !is_placeholder(d),
    ensures
        distinct_keys(d.entries()),
    decreases t, 3int, 0int,
{
    if stems(t, d) {
        lemma_stems_keys(t, d);
    } else {
        let tag = tag_of(t)->Ok_0;
        if tag == "definitions"@ {
            if position(t.entries(), "definitions"@) is Some && offers_entries(
                t,
                position(t.entries(), "definitions"@)->0,
                0,
                d,
            ) {
                lemma_offers_entries_keys(t, position(t.entries(), "definitions"@)->0, 0, d);
            } else {
                let i = position(t.entries(), "schema"@)->0;
                lemma_child_decreases(t, i);
                lemma_offers_keys(t.child(i), d);
            }
        } else {
            lemma_offers_from_keys(t, 0, d);
        }
    }
}

/// The same, below the later child schemas of a node.
pub proof fn lemma_offers_from_keys(t: Tree, k: int, d: Tree)
    requires
        offers_from(t, k, d),
        single_keyed_from(t, k),
        !is_placeholder(d),
    ensures
        distinct_keys(d.entries()),
    decreases t, 0int, recurse_spec(t).sites.len() - k,
{
    let sites = recurse_spec(t).sites;
    lemma_recurse_valid(t);
    lemma_place_decreases(t, sites[k]);
    if offers(sites[k].of(t), d) {
        lemma_offers_keys(sites[k].of(t), d);
    } else {
        lemma_offers_from_keys(t, k + 1, d);
    }
}

/// The same, below the definitions of a `definitions` node.
pub proof fn lemma_offers_entries_keys(t: Tree, a: int, j: int, d: Tree)
    requires
        offers_entries(t, a, j, d),
        single_keyed_entries(t, a, j),
        !is_placeholder(d),
    ensures
        distinct_keys(d.entries()),
    decreases t, 0int, t.child(a).arity() - j,
{
    let list = t.child(a);
    lemma_child_decreases(t, a);
    lemma_child_decreases(list, j);
    if offers(list.child(j), d) {
        lemma_offers_keys(list.child(j), d);
    } else {
        lemma_offers_entries_keys(t, a, j + 1, d);
    }
}

/// Where no record of a sound schema holds a key twice, none of the
/// definitions that it is wrapped with does.
pub proof fn lemma_definitions_single_keyed(root: Tree, j: int)
    requires
        sound(root),
        single_keyed(root),
        0 <= j < flattened_spec(root).1.len(),
    ensures
        distinct_keys(flattened_spec(root).1[j].1.entries()),
{
    lemma_definitions_stem(root, j);
    lemma_offers_keys(root, flattened_spec(root).1[j].1);
}

/// A node that is preserved bears the `ref` it bore, or none as before.
pub proof fn lemma_preserved_same_ref(t: Tree, after: Tree)
    requires
        preserved(t, after),
    ensures
        crate::collect::ref_of(after) == crate::collect::ref_of(t),
{
    lemma_position_is_first(t.entries(), "ref"@);
    match position(t.entries(), "ref"@) {
        Some(i) => {
            assert forall|j: int| 0 <= j < i implies (#[trigger] after.entries()[j]).0 != "ref"@ by {
                assert(t.entries()[j].0 != "ref"@);
            }
            assert(after.entries()[i].0 == t.entries()[i].0);
            lemma_position_first(after.entries(), "ref"@, i);
            assert(is_payload(t, i)) by {
                assert forall|k: int| 0 <= k < recurse_spec(t).sites.len() implies (
                #[trigger] recurse_spec(t).sites[k]).entry() != i by {
                    crate::walk_laws::lemma_site_is_no_ref(t, k);
                }
            }
            assert(after.entries()[i] == t.entries()[i]);
        },
        None => {
            assert forall|j: int| 0 <= j < after.entries().len() implies (
            #[trigger] after.entries()[j]).0 != "ref"@ by {
                assert(t.entries()[j].0 != "ref"@);
            }
            lemma_position_none(after.entries(), "ref"@);
        },
    }
}

/// A node that is preserved with a `ref` bore that `ref`, with the same mark.
pub proof fn lemma_preserved_carried(t: Tree, d: Tree, name: Seq<char>, invalid: bool)
    requires
        preserved(t, d),
        crate::collect::ref_of(d) == Ok::<Option<Seq<char>>, SchemaError>(Some(name)),
        crate::collect::invalid_schema_spec(d) == Ok::<bool, SchemaError>(invalid),
    ensures
        crate::collect::ref_of(t) == Ok::<Option<Seq<char>>, SchemaError>(Some(name)),
        crate::collect::invalid_schema_spec(t) == Ok::<bool, SchemaError>(invalid),
{
    lemma_preserved_same_ref(t, d);
    crate::mark_laws::lemma_preserved_keeps_mark(t, d);
}

/// What stems from a sound node and bears a `ref` shows a node that bears
/// that `ref` with the same mark.
pub proof fn lemma_stems_carries(t: Tree, d: Tree, name: Seq<char>, invalid: bool)
    requires
        sound(t),
        stems(t, d),
        !is_placeholder(d),
        crate::collect::ref_of(d) == Ok::<Option<Seq<char>>, SchemaError>(Some(name)),
        crate::collect::invalid_schema_spec(d) == Ok::<bool, SchemaError>(invalid),
    ensures
        carries(t, name, invalid),
    decreases t, 1int, 0int,
{
    if tag_of(t) == Ok::<Seq<char>, SchemaError>("definitions"@) {
        lemma_stems_carries_definitions(t, d, name, invalid);
    } else {
        assert(preserved(t, d));
        lemma_preserved_carried(t, d, name, invalid);
        assert(crate::mark_laws::carries_node(t, name, invalid));
    }
}

/// The same, for a `definitions` node.
pub proof fn lemma_stems_carries_definitions(t: Tree, d: Tree, name: Seq<char>, invalid: bool)
    requires
        tag_of(t) == Ok::<Seq<char>, SchemaError>("definitions"@),
        sound_definitions(t),
        stems(t, d),
        !is_placeholder(d),
        crate::collect::ref_of(d) == Ok::<Option<Seq<char>>, SchemaError>(Some(name)),
        crate::collect::invalid_schema_spec(d) == Ok::<bool, SchemaError>(invalid),
    ensures
        carries_definitions(t, name, invalid),
    decreases t, 0int, 0int,
{
    let i = position(t.entries(), "schema"@)->0;
    lemma_position_is_first(t.entries(), "schema"@);
    lemma_child_decreases(t, i);
    let inner = t.child(i);
    assert(stems(inner, d));
    if tag_of(inner) == Ok::<Seq<char>, SchemaError>("definitions"@) {
        assert(inner.is_dict());
        lemma_stems_carries_definitions(inner, d, name, invalid);
    } else {
        assert(sound_node(inner));
        assert(preserved(inner, d));
        lemma_preserved_carried(inner, d, name, invalid);
    }
}

/// What stems from a node of a sound schema and bears a `ref` shows a node of
/// the schema that bears that `ref` with the same mark.
pub proof fn lemma_offers_carries(t: Tree, d: Tree, name: Seq<char>, invalid: bool)
    requires
        sound(t),
        offers(t, d),
        !is_placeholder(d),
        crate::collect::ref_of(d) == Ok::<Option<Seq<char>>, SchemaError>(Some(name)),
        crate::collect::invalid_schema_spec(d) == Ok::<bool, SchemaError>(invalid),
    ensures
        carries(t, name, invalid),
    decreases t, 3int, 0int,
{
    if stems(t, d) {
        lemma_stems_carries(t, d, name, invalid);
    } else {
        let tag = tag_of(t)->Ok_0;
        if tag == "definitions"@ {
            lemma_offers_definitions_carries(t, d, name, invalid);
        } else {
            lemma_offers_from_carries(t, 0, d, name, invalid);
        }
    }
}

/// The same, below a `definitions` node.
pub proof fn lemma_offers_definitions_carries(t: Tree, d: Tree, name: Seq<char>, invalid: bool)
    requires
        tag_of(t) == Ok::<Seq<char>, SchemaError>("definitions"@),
        sound_definitions(t),
        offers_definitions(t, d),
        !is_placeholder(d),
        crate::collect::ref_of(d) == Ok::<Option<Seq<char>>, SchemaError>(Some(name)),
        crate::collect::invalid_schema_spec(d) == Ok::<bool, SchemaError>(invalid),
    ensures
        carries_definitions(t, name, invalid),
    decreases t, 2int, 0int,
{
    let a = position(t.entries(), "definitions"@)->0;
    lemma_position_is_first(t.entries(), "definitions"@);
    if offers_entries(t, a, 0, d) {
        lemma_offers_entries_carries(t, a, 0, d, name, invalid);
    } else {
        let i = position(t.entries(), "schema"@)->0;
        lemma_child_decreases(t, i);
        let inner = t.child(i);
        if tag_of(inner) == Ok::<Seq<char>, SchemaError>("definitions"@) {
            assert(inner.is_dict());
            if stems(inner, d) {
                lemma_stems_carries(inner, d, name, invalid);
            } else {
                lemma_offers_definitions_carries(inner, d, name, invalid);
            }
        } else {
            assert(sound_node(inner));
            if stems(inner, d) {
                lemma_preserved_same_ref(inner, d);
            } else {
                lemma_offers_from_carries(inner, 0, d, name, invalid);
            }
        }
    }
}

/// The same, below the later child schemas of a node.
pub proof fn lemma_offers_from_carries(t: Tree, k: int, d: Tree, name: Seq<char>, invalid: bool)
    requires
        sound_from(t, k),
        offers_from(t, k, d),
        !is_placeholder(d),
        crate::collect::ref_of(d) == Ok::<Option<Seq<char>>, SchemaError>(Some(name)),
        crate::collect::invalid_schema_spec(d) == Ok::<bool, SchemaError>(invalid),
    ensures
        carries_from(t, k, name, invalid),
    decreases t, 0int, recurse_spec(t).sites.len() - k,
{
    let sites = recurse_spec(t).sites;
    lemma_recurse_valid(t);
    lemma_place_decreases(t, sites[k]);
    if offers(sites[k].of(t), d) {
        lemma_offers_carries(sites[k].of(t), d, name, invalid);
    } else {
        lemma_offers_from_carries(t, k + 1, d, name, invalid);
    }
}

/// The same, below the definitions of a `definitions` node.
pub proof fn lemma_offers_entries_carries(t: Tree, a: int, j: int, d: Tree, name: Seq<char>, invalid: bool)
    requires
        sound_entries(t, a, j),
        offers_entries(t, a, j, d),
        !is_placeholder(d),
        crate::collect::ref_of(d) == Ok::<Option<Seq<char>>, SchemaError>(Some(name)),
        crate::collect::invalid_schema_spec(d) == Ok::<bool, SchemaError>(invalid),
    ensures
        carries_entries(t, a, j, name, invalid),
    decreases t, 0int, t.child(a).arity() - j,
{
    let list = t.child(a);
    lemma_child_decreases(t, a);
    lemma_child_decreases(list, j);
    if offers(list.child(j), d) {
        assert(sound_node(list.child(j)));
        assert(sound(list.child(j)));
        lemma_offers_carries(list.child(j), d, name, invalid);
    } else {
        lemma_offers_entries_carries(t, a, j + 1, d, name, invalid);
    }
}

/// Every node that lifting registers for a sound schema shows a node of the
/// schema that bears the `ref` it is registered under, with its mark.
pub proof fn lemma_registration_carried(root: Tree, k: int)
    requires
        sound(root),
        0 <= k < lift_spec(root).1.len(),
    ensures
        carries(root, lift_spec(root).1[k].name, lift_spec(root).1[k].invalid),
        crate::collect::invalid_schema_spec(lift_spec(root).1[k].node) == Ok::<bool, SchemaError>(
            lift_spec(root).1[k].invalid,
        ),
{
    lemma_sound_lift(root);
    let reg = lift_spec(root).1[k];
    lemma_lift_offers(root, k);
    assert(crate::idempotence::bare(reg.node));
    if is_placeholder(reg.node) {
        let name = choose|name: Seq<char>| reg.node == #[trigger] definition_ref(name);
        lemma_reference_plain(name);
    }
    lemma_offers_carries(root, reg.node, reg.name, reg.invalid);
}

/// Every definition that a sound schema is wrapped with shows a node of the
/// schema that bears its `ref`, with its mark.
pub proof fn lemma_definition_carried(root: Tree, j: int)
    requires
        sound(root),
        0 <= j < flattened_spec(root).1.len(),
    ensures
        crate::collect::invalid_schema_spec(flattened_spec(root).1[j].1) is Ok,
        carries(
            root,
            flattened_spec(root).1[j].0,
            crate::collect::invalid_schema_spec(flattened_spec(root).1[j].1)->Ok_0,
        ),
{
    crate::idempotence::lemma_sound_simplified(root);
    lemma_definitions_stem(root, j);
    let d = flattened_spec(root).1[j];
    lemma_offers_carries(root, d.1, d.0, crate::collect::invalid_schema_spec(d.1)->Ok_0);
}

} // verus!
