//! What holds of inlining: a definition that the pass comes upon and leaves in
//! the table is used more than once or lies on a cycle.

use crate::inline_refs::{
    inlinable, inline_children, inline_from, inline_spec, inlined_node, lemma_inline_shrinks,
};
use crate::ref_counts::{count_refs_spec, schema_ref_of, usage, Counts};
use crate::simplify_laws::{
    bear_their_names, holds, lemma_flatten_entries_keep_table, lemma_flatten_keeps_table,
    lemma_merged_ok, lemma_store_any_holds, table_ok,
};
use crate::simplify_schema::{
    flatten_entries_spec, flatten_spec, kept_fold, key_names, lift_spec, merged_spec, required_ref,
    simplify_spec,
};
use crate::value::{
    discard, distinct_keys, lemma_position_first, lemma_position_is_first, lemma_position_none,
    lookup, position, Entries, Tree,
};
use crate::walk_core_schema::{
    lemma_place_decreases, lemma_recurse_valid, recurse_spec, tag_of, SchemaError,
};
use vstd::prelude::*;

verus! {

/// The names of the references that inlining comes upon in one node: the
/// reference that the node is, and those in the children of what stands in its
/// place.
pub open spec fn touched(t: Tree, defs: Entries, counts: Counts) -> Set<Seq<char>>
    decreases defs.len(), t, 2int, 0int,
{
    match tag_of(t) {
        Err(_) => Set::empty(),
        Ok(tag) => if tag != "definition-ref"@ {
            touched_from(t, 0, defs, counts)
        } else {
            match schema_ref_of(t) {
                Err(_) => Set::empty(),
                Ok(name) => {
                    let c = usage(counts, name);
                    if !inlinable(c) {
                        touched_from(t, 0, defs, counts).insert(name)
                    } else {
                        match position(defs, name) {
                            None => set![name],
                            Some(i) => {
                                let target = defs[i].1;
                                if !target.is_dict() || !target.has("ref"@) {
                                    set![name]
                                } else {
                                    proof {
                                        lemma_position_is_first(defs, name);
                                    }
                                    touched_from(
                                        inlined_node(t, target),
                                        0,
                                        defs.remove(i),
                                        counts.insert(name, c.unmet()),
                                    ).insert(name)
                                }
                            },
                        }
                    }
                },
            }
        },
    }
}

/// The names of the references that inlining comes upon in the child schemas
/// of `t` from the `k`-th on.
pub open spec fn touched_from(t: Tree, k: int, defs: Entries, counts: Counts) -> Set<Seq<char>>
    decreases defs.len(), t, 0int, recurse_spec(t).sites.len() - k,
{
    let sites = recurse_spec(t).sites;
    if 0 <= k < sites.len() {
        proof {
            lemma_recurse_valid(t);
            lemma_place_decreases(t, sites[k]);
        }
        let r = inline_spec(sites[k].of(t), defs, counts);
        let first = touched(sites[k].of(t), defs, counts);
        if r.fault is Some || r.defs.len() > defs.len() {
            first
        } else {
            first.union(touched_from(t, k + 1, r.defs, r.counts))
        }
    } else {
        Set::empty()
    }
}

/// A table without one of its entries holds what it held but the key of that
/// entry, and no key twice.
pub proof fn lemma_remove_holds(defs: Entries, i: int, name: Seq<char>)
    requires
        distinct_keys(defs),
        0 <= i < defs.len(),
    ensures
        distinct_keys(defs.remove(i)),
        holds(defs.remove(i), name) <==> holds(defs, name) && name != defs[i].0,
{
    let after = defs.remove(i);
    assert forall|a: int, b: int| 0 <= a < b < after.len() implies (#[trigger] after[a]).0 != (
    #[trigger] after[b]).0 by {
        let a0 = if a < i {
            a
        } else {
            a + 1
        };
        let b0 = if b < i {
            b
        } else {
            b + 1
        };
        assert(defs[a0].0 != defs[b0].0);
    }
    lemma_position_is_first(defs, name);
    lemma_position_is_first(after, name);
    if let Some(j) = position(after, name) {
        let j0 = if j < i {
            j
        } else {
            j + 1
        };
        assert(defs[j0].0 == name);
        crate::simplify_laws::lemma_holds_keys(defs, name);
        assert(0 <= j0 < defs.len() && defs[j0].0 == name);
        if name == defs[i].0 {
            if j0 < i {
                assert(defs[j0].0 != defs[i].0);
            } else {
                assert(defs[i].0 != defs[j0].0);
            }
        }
    }
    if let Some(j) = position(defs, name) {
        if name != defs[i].0 {
            let j1 = if j < i {
                j
            } else {
                j - 1
            };
            assert(after[j1].0 == name);
            crate::simplify_laws::lemma_holds_keys(after, name);
            assert(0 <= j1 < after.len() && after[j1].0 == name);
        }
    }
}

/// Inlining in one node leaves no key twice in the table.
pub proof fn lemma_inline_distinct(t: Tree, defs: Entries, counts: Counts)
    requires
        distinct_keys(defs),
    ensures
        distinct_keys(inline_spec(t, defs, counts).defs),
    decreases defs.len(), t, 2int, 0int,
{
    if let Ok(tag) = tag_of(t) {
        if tag != "definition-ref"@ {
            lemma_inline_from_distinct(t, 0, t, defs, counts);
        } else if let Ok(name) = schema_ref_of(t) {
            let c = usage(counts, name);
            if !inlinable(c) {
                lemma_inline_from_distinct(t, 0, t, defs, counts);
            } else if let Some(i) = position(defs, name) {
                let target = defs[i].1;
                lemma_position_is_first(defs, name);
                if target.is_dict() && target.has("ref"@) {
                    let node = inlined_node(t, target);
                    lemma_remove_holds(defs, i, name);
                    lemma_inline_from_distinct(
                        node,
                        0,
                        node,
                        defs.remove(i),
                        counts.insert(name, c.unmet()),
                    );
                }
            }
        }
    }
}

/// Inlining in the later children of a node leaves no key twice in the table.
pub proof fn lemma_inline_from_distinct(t: Tree, k: int, cur: Tree, defs: Entries, counts: Counts)
    requires
        distinct_keys(defs),
    ensures
        distinct_keys(inline_from(t, k, cur, defs, counts).defs),
    decreases defs.len(), t, 0int, recurse_spec(t).sites.len() - k,
{
    let sites = recurse_spec(t).sites;
    if 0 <= k < sites.len() {
        lemma_recurse_valid(t);
        lemma_place_decreases(t, sites[k]);
        lemma_inline_distinct(sites[k].of(t), defs, counts);
        let r = inline_spec(sites[k].of(t), defs, counts);
        if !(r.fault is Some || r.defs.len() > defs.len()) {
            lemma_inline_from_distinct(t, k + 1, sites[k].put(cur, r.node), r.defs, r.counts);
        }
    }
}

/// A definition that is in the table after inlining in one node was in it
/// before, with the same counts.
pub proof fn lemma_inline_keeps(t: Tree, defs: Entries, counts: Counts, name: Seq<char>)
    requires
        distinct_keys(defs),
        holds(inline_spec(t, defs, counts).defs, name),
    ensures
        holds(defs, name),
        usage(inline_spec(t, defs, counts).counts, name) == usage(counts, name),
    decreases defs.len(), t, 2int, 0int,
{
    if let Ok(tag) = tag_of(t) {
        if tag != "definition-ref"@ {
            lemma_inline_from_keeps(t, 0, t, defs, counts, name);
        } else if let Ok(own) = schema_ref_of(t) {
            let c = usage(counts, own);
            if !inlinable(c) {
                lemma_inline_from_keeps(t, 0, t, defs, counts, name);
            } else if let Some(i) = position(defs, own) {
                let target = defs[i].1;
                lemma_position_is_first(defs, own);
                if target.is_dict() && target.has("ref"@) {
                    let node = inlined_node(t, target);
                    lemma_remove_holds(defs, i, name);
                    lemma_inline_from_keeps(
                        node,
                        0,
                        node,
                        defs.remove(i),
                        counts.insert(own, c.unmet()),
                        name,
                    );
                }
            }
        }
    }
}

/// A definition that is in the table after inlining in the later children of a
/// node was in it before, with the same counts.
pub proof fn lemma_inline_from_keeps(
    t: Tree,
    k: int,
    cur: Tree,
    defs: Entries,
    counts: Counts,
    name: Seq<char>,
)
    requires
        distinct_keys(defs),
        holds(inline_from(t, k, cur, defs, counts).defs, name),
    ensures
        holds(defs, name),
        usage(inline_from(t, k, cur, defs, counts).counts, name) == usage(counts, name),
    decreases defs.len(), t, 0int, recurse_spec(t).sites.len() - k,
{
    let sites = recurse_spec(t).sites;
    if 0 <= k < sites.len() {
        lemma_recurse_valid(t);
        lemma_place_decreases(t, sites[k]);
        let r = inline_spec(sites[k].of(t), defs, counts);
        if !(r.fault is Some || r.defs.len() > defs.len()) {
            lemma_inline_distinct(sites[k].of(t), defs, counts);
            lemma_inline_from_keeps(t, k + 1, sites[k].put(cur, r.node), r.defs, r.counts, name);
        }
        lemma_inline_keeps(sites[k].of(t), defs, counts, name);
    }
}

/// A definition that inlining came upon in one node and that is in the table
/// afterwards was not fit to be inlined.
pub proof fn lemma_inline_leaves(t: Tree, defs: Entries, counts: Counts, name: Seq<char>)
    requires
        distinct_keys(defs),
        inline_spec(t, defs, counts).fault is None,
        touched(t, defs, counts).contains(name),
        holds(inline_spec(t, defs, counts).defs, name),
    ensures
        !inlinable(usage(counts, name)),
    decreases defs.len(), t, 2int, 0int,
{
    let tag = tag_of(t)->Ok_0;
    if tag != "definition-ref"@ {
        lemma_inline_from_leaves(t, 0, t, defs, counts, name);
    } else {
        let own = schema_ref_of(t)->Ok_0;
        let c = usage(counts, own);
        if !inlinable(c) {
            if name != own {
                lemma_inline_from_leaves(t, 0, t, defs, counts, name);
            }
        } else {
            let i = position(defs, own)->0;
            let target = defs[i].1;
            lemma_position_is_first(defs, own);
            let node = inlined_node(t, target);
            let defs1 = defs.remove(i);
            let counts1 = counts.insert(own, c.unmet());
            lemma_remove_holds(defs, i, name);
            lemma_inline_from_keeps(node, 0, node, defs1, counts1, name);
            lemma_inline_from_leaves(node, 0, node, defs1, counts1, name);
        }
    }
}

/// A definition that inlining came upon in the later children of a node and
/// that is in the table afterwards was not fit to be inlined.
pub proof fn lemma_inline_from_leaves(
    t: Tree,
    k: int,
    cur: Tree,
    defs: Entries,
    counts: Counts,
    name: Seq<char>,
)
    requires
        distinct_keys(defs),
        inline_from(t, k, cur, defs, counts).fault is None,
        touched_from(t, k, defs, counts).contains(name),
        holds(inline_from(t, k, cur, defs, counts).defs, name),
    ensures
        !inlinable(usage(counts, name)),
    decreases defs.len(), t, 0int, recurse_spec(t).sites.len() - k,
{
    let sites = recurse_spec(t).sites;
    assert(0 <= k < sites.len());
    lemma_recurse_valid(t);
    lemma_place_decreases(t, sites[k]);
    let child = sites[k].of(t);
    let r = inline_spec(child, defs, counts);
    let cur1 = sites[k].put(cur, r.node);
    lemma_inline_shrinks(child, defs, counts);
    lemma_inline_distinct(child, defs, counts);
    assert(r.fault is None);
    assert(inline_from(t, k, cur, defs, counts) == inline_from(t, k + 1, cur1, r.defs, r.counts));
    lemma_inline_from_keeps(t, k + 1, cur1, r.defs, r.counts, name);
    assert(holds(r.defs, name));
    if touched(child, defs, counts).contains(name) {
        lemma_inline_leaves(child, defs, counts, name);
    } else {
        assert(touched_from(t, k + 1, r.defs, r.counts).contains(name));
        lemma_inline_from_leaves(t, k + 1, cur1, r.defs, r.counts, name);
        lemma_inline_keeps(child, defs, counts, name);
    }
}

/// A table in order without one of its entries is in order.
pub proof fn lemma_remove_ok(defs: Entries, i: int)
    requires
        table_ok(defs),
        0 <= i < defs.len(),
    ensures
        table_ok(defs.remove(i)),
{
    lemma_remove_holds(defs, i, defs[i].0);
    let after = defs.remove(i);
    assert forall|j: int| 0 <= j < after.len() implies required_ref((#[trigger] after[j]).1) == Ok::<
        Seq<char>,
        SchemaError,
    >(after[j].0) by {
        let j0 = if j < i {
            j
        } else {
            j + 1
        };
        assert(required_ref(defs[j0].1) == Ok::<Seq<char>, SchemaError>(defs[j0].0));
    }
}

/// Inlining in one node keeps a table in order.
pub proof fn lemma_inline_ok(t: Tree, defs: Entries, counts: Counts)
    requires
        table_ok(defs),
    ensures
        table_ok(inline_spec(t, defs, counts).defs),
    decreases defs.len(), t, 2int, 0int,
{
    if let Ok(tag) = tag_of(t) {
        if tag != "definition-ref"@ {
            lemma_inline_from_ok(t, 0, t, defs, counts);
        } else if let Ok(name) = schema_ref_of(t) {
            let c = usage(counts, name);
            if !inlinable(c) {
                lemma_inline_from_ok(t, 0, t, defs, counts);
            } else if let Some(i) = position(defs, name) {
                let target = defs[i].1;
                lemma_position_is_first(defs, name);
                if target.is_dict() && target.has("ref"@) {
                    let node = inlined_node(t, target);
                    lemma_remove_ok(defs, i);
                    lemma_inline_from_ok(
                        node,
                        0,
                        node,
                        defs.remove(i),
                        counts.insert(name, c.unmet()),
                    );
                }
            }
        }
    }
}

/// Inlining in the later children of a node keeps a table in order.
pub proof fn lemma_inline_from_ok(t: Tree, k: int, cur: Tree, defs: Entries, counts: Counts)
    requires
        table_ok(defs),
    ensures
        table_ok(inline_from(t, k, cur, defs, counts).defs),
    decreases defs.len(), t, 0int, recurse_spec(t).sites.len() - k,
{
    let sites = recurse_spec(t).sites;
    if 0 <= k < sites.len() {
        lemma_recurse_valid(t);
        lemma_place_decreases(t, sites[k]);
        lemma_inline_ok(sites[k].of(t), defs, counts);
        let r = inline_spec(sites[k].of(t), defs, counts);
        if !(r.fault is Some || r.defs.len() > defs.len()) {
            lemma_inline_from_ok(t, k + 1, sites[k].put(cur, r.node), r.defs, r.counts);
        }
    }
}

/// Every definition that is kept stands in the table, or was kept before.
pub proof fn lemma_kept_from_table(defs: Entries, counts: Counts, k: int, kept: Seq<Tree>, j: int)
    requires
        0 <= k,
        0 <= j < kept_fold(defs, counts, k, kept).0.len(),
    ensures
        j < kept.len() && kept_fold(defs, counts, k, kept).0[j] == kept[j] || exists|i: int|
            k <= i < defs.len() && kept_fold(defs, counts, k, kept).0[j] == (#[trigger] defs[i]).1,
    decreases defs.len() - k,
{
    if k < defs.len() {
        if let Ok(name) = required_ref(defs[k].1) {
            let kept1 = if usage(counts, name).ref_count > 0 {
                kept.push(defs[k].1)
            } else {
                kept
            };
            lemma_kept_from_table(defs, counts, k + 1, kept1, j);
            let out = kept_fold(defs, counts, k, kept).0;
            if j < kept1.len() && out[j] == kept1[j] {
                if j >= kept.len() {
                    assert(k <= k < defs.len() && out[j] == defs[k].1);
                }
            } else {
                let i = choose|i: int| k + 1 <= i < defs.len() && out[j] == (#[trigger] defs[i]).1;
                assert(k <= i < defs.len() && out[j] == defs[i].1);
            }
        }
    }
}

/// The schema and the table of definitions as they stand once a schema has
/// been lifted and flattened, before any reference is counted.
pub open spec fn flattened_spec(root: Tree) -> (Tree, Entries) {
    let (lifted, found, fault) = lift_spec(root);
    let (root1, defs1, fault1) = flatten_spec(lifted, merged_spec(found));
    (root1, flatten_entries_spec(defs1, key_names(defs1), 0).0)
}

/// The counts of the references of a schema that has been lifted and flattened.
pub open spec fn counted_spec(root: Tree) -> Counts {
    count_refs_spec(flattened_spec(root).0, flattened_spec(root).1).0
}

/// The definitions that come out when a schema is simplified with inlining.
pub open spec fn emitted_spec(root: Tree) -> Seq<Tree> {
    let r = inline_spec(flattened_spec(root).0, flattened_spec(root).1, counted_spec(root));
    kept_fold(r.defs, r.counts, 0, Seq::empty()).0
}

/// Inlining soundness: where a schema is simplified with inlining, a
/// definition that comes out, and whose references the inlining pass came
/// upon, is referred to at least twice or lies on a cycle of references.
///
/// This is stated of the definitions that are referred to from outside the
/// definitions that stay: the pass does not look into a definition that stays,
/// so a definition that is referred to once, from inside one that stays, comes
/// out as well. It is stated of the schemas in which every node is registered
/// as a record that bears the `ref` it is registered under.
pub proof fn lemma_inlining_leaves_shared(root: Tree, j: int, name: Seq<char>)
    requires
        simplify_spec(root, true) is Ok,
        bear_their_names(lift_spec(root).1),
        0 <= j < emitted_spec(root).len(),
        required_ref(emitted_spec(root)[j]) == Ok::<Seq<char>, SchemaError>(name),
        touched(flattened_spec(root).0, flattened_spec(root).1, counted_spec(root)).contains(name),
    ensures
        usage(counted_spec(root), name).ref_count >= 2 || usage(
            counted_spec(root),
            name,
        ).involved_in_recursion,
{
    let (lifted, found, fault) = lift_spec(root);
    let defs = merged_spec(found);
    lemma_merged_ok(found);
    let (root1, defs1, fault1) = flatten_spec(lifted, defs);
    lemma_flatten_keeps_table(lifted, defs);
    let (defs2, fault2) = flatten_entries_spec(defs1, key_names(defs1), 0);
    lemma_flatten_entries_keep_table(defs1, key_names(defs1), 0);
    let counts = counted_spec(root);
    let r = inline_spec(root1, defs2, counts);
    lemma_inline_ok(root1, defs2, counts);
    lemma_kept_from_table(r.defs, r.counts, 0, Seq::empty(), j);
    let i = choose|i: int| 0 <= i < r.defs.len() && emitted_spec(root)[j] == (#[trigger] r.defs[i]).1;
    assert(required_ref(r.defs[i].1) == Ok::<Seq<char>, SchemaError>(r.defs[i].0));
    crate::simplify_laws::lemma_holds_keys(r.defs, name);
    assert(0 <= i < r.defs.len() && r.defs[i].0 == name);
    lemma_inline_leaves(root1, defs2, counts, name);
}

/// Every definition that is kept beyond those kept before bears a `ref` that
/// is still referred to.
pub proof fn lemma_kept_are_used(defs: Entries, counts: Counts, k: int, kept: Seq<Tree>, j: int)
    requires
        0 <= k,
        kept.len() <= j < kept_fold(defs, counts, k, kept).0.len(),
    ensures
        required_ref(kept_fold(defs, counts, k, kept).0[j]) matches Ok(name) && usage(
            counts,
            name,
        ).ref_count > 0,
    decreases defs.len() - k,
{
    if k < defs.len() {
        if let Ok(name) = required_ref(defs[k].1) {
            let kept1 = if usage(counts, name).ref_count > 0 {
                kept.push(defs[k].1)
            } else {
                kept
            };
            if j < kept1.len() {
                lemma_kept_prefix(defs, counts, k + 1, kept1, j);
            } else {
                lemma_kept_are_used(defs, counts, k + 1, kept1, j);
            }
        }
    }
}

/// What was kept before stays kept, in its place.
pub proof fn lemma_kept_prefix(defs: Entries, counts: Counts, k: int, kept: Seq<Tree>, j: int)
    requires
        0 <= k,
        0 <= j < kept.len(),
    ensures
        j < kept_fold(defs, counts, k, kept).0.len(),
        kept_fold(defs, counts, k, kept).0[j] == kept[j],
    decreases defs.len() - k,
{
    if k < defs.len() {
        if let Ok(name) = required_ref(defs[k].1) {
            let kept1 = if usage(counts, name).ref_count > 0 {
                kept.push(defs[k].1)
            } else {
                kept
            };
            lemma_kept_prefix(defs, counts, k + 1, kept1, j);
        }
    }
}

/// No unused definition comes out: where a schema is simplified with inlining,
/// every definition that comes out bears a `ref` whose count, after inlining,
/// is above zero.
pub proof fn lemma_emitted_are_used(root: Tree, j: int)
    requires
        0 <= j < emitted_spec(root).len(),
    ensures
        required_ref(emitted_spec(root)[j]) matches Ok(name) && usage(
            inline_spec(flattened_spec(root).0, flattened_spec(root).1, counted_spec(root)).counts,
            name,
        ).ref_count > 0,
{
    let r = inline_spec(flattened_spec(root).0, flattened_spec(root).1, counted_spec(root));
    lemma_kept_are_used(r.defs, r.counts, 0, Seq::empty(), j);
}

/// A record without one of its keys holds under every other key what it held.
pub proof fn lemma_discard_keeps(entries: Entries, gone: Seq<char>, key: Seq<char>)
    requires
        key != gone,
    ensures
        lookup(discard(entries, gone), key) == lookup(entries, key),
{
    lemma_position_is_first(entries, gone);
    lemma_position_is_first(entries, key);
    if let Some(i) = position(entries, gone) {
        let after = entries.remove(i);
        match position(entries, key) {
            None => {
                assert forall|j: int| 0 <= j < after.len() implies (#[trigger] after[j]).0 != key by {
                    if j < i {
                        assert(after[j] == entries[j]);
                    } else {
                        assert(after[j] == entries[j + 1]);
                    }
                }
                lemma_position_none(after, key);
            },
            Some(p) => {
                let q = if p < i {
                    p
                } else {
                    p - 1
                };
                assert(after[q] == entries[p]);
                assert forall|j: int| 0 <= j < q implies (#[trigger] after[j]).0 != key by {
                    if j < i {
                        assert(after[j] == entries[j]);
                    } else {
                        assert(after[j] == entries[j + 1]);
                    }
                }
                lemma_position_first(after, key, q);
            },
        }
    }
}

/// A record that held no key twice holds nothing under a key it is without.
pub proof fn lemma_discard_gone(entries: Entries, gone: Seq<char>)
    requires
        distinct_keys(entries),
    ensures
        lookup(discard(entries, gone), gone) is None,
{
    lemma_position_is_first(entries, gone);
    if let Some(i) = position(entries, gone) {
        let after = entries.remove(i);
        assert forall|j: int| 0 <= j < after.len() implies (#[trigger] after[j]).0 != gone by {
            if j < i {
                assert(after[j] == entries[j]);
            } else {
                assert(after[j] == entries[j + 1]);
                assert(entries[i].0 != entries[j + 1].0);
            }
        }
        lemma_position_none(after, gone);
    } else {
        lemma_position_none(entries, gone);
    }
}

/// What the node holds that takes the place of a reference: under
/// `serialization` what the reference held there, or, where the reference held
/// nothing, what the definition held; under every other key but `ref` what the
/// definition held; and no `ref`, if the definition held no key twice.
pub proof fn lemma_inlined_holds(site: Tree, target: Tree, key: Seq<char>)
    ensures
        inlined_node(site, target).get("serialization"@) == if site.get("serialization"@) is Some {
            site.get("serialization"@)
        } else {
            target.get("serialization"@)
        },
        key != "ref"@ && key != "serialization"@ ==> inlined_node(site, target).get(key)
            == target.get(key),
        distinct_keys(target.entries()) ==> inlined_node(site, target).get("ref"@) is None,
{
    reveal_strlit("ref");
    reveal_strlit("serialization");
    assert("ref"@.len() != "serialization"@.len());
    let body = discard(target.entries(), "ref"@);
    lemma_discard_keeps(target.entries(), "ref"@, "serialization"@);
    if key != "ref"@ {
        lemma_discard_keeps(target.entries(), "ref"@, key);
    }
    if distinct_keys(target.entries()) {
        lemma_discard_gone(target.entries(), "ref"@);
    }
    if let Some(ser) = site.get("serialization"@) {
        lemma_store_any_holds(body, "serialization"@, ser, key);
        lemma_store_any_holds(body, "serialization"@, ser, "ref"@);
        lemma_position_is_first(body, key);
        lemma_position_is_first(body, "ref"@);
    }
}

/// Inlining at one reference: where a reference to `name` is fit to be
/// inlined and the table holds under `name` a record with a `ref`, the pass
/// goes on below the node that takes the place of the reference, with the
/// table without `name` and with no use of `name` left to count.
///
/// That node holds under `serialization` what the reference held there, or,
/// where the reference held nothing, what the definition held; under every
/// other key but `ref` it holds what the definition held, so that nothing else
/// of the reference stays; and it holds no `ref`, if the definition held no
/// key twice.
pub proof fn lemma_inlined_site(site: Tree, defs: Entries, counts: Counts, name: Seq<char>, key: Seq<char>)
    requires
        tag_of(site) == Ok::<Seq<char>, SchemaError>("definition-ref"@),
        schema_ref_of(site) == Ok::<Seq<char>, SchemaError>(name),
        inlinable(usage(counts, name)),
        lookup(defs, name) matches Some(target) && target.is_dict() && target.has("ref"@),
    ensures
        ({
            let i = position(defs, name)->0;
            let target = defs[i].1;
            let node = inlined_node(site, target);
            let left = counts.insert(name, usage(counts, name).unmet());
            &&& inline_spec(site, defs, counts) == inline_children(node, defs.remove(i), left)
            &&& usage(left, name).ref_count == 0
            &&& distinct_keys(defs) ==> !holds(defs.remove(i), name)
            &&& node.get("serialization"@) == if site.get("serialization"@) is Some {
                site.get("serialization"@)
            } else {
                target.get("serialization"@)
            }
            &&& key != "ref"@ && key != "serialization"@ ==> node.get(key) == target.get(key)
            &&& distinct_keys(target.entries()) ==> node.get("ref"@) is None
        }),
{
    let i = position(defs, name)->0;
    lemma_position_is_first(defs, name);
    if distinct_keys(defs) {
        lemma_remove_holds(defs, i, name);
    }
    lemma_inlined_holds(site, defs[i].1, key);
}

/// Inlining uses no definition more: a definition that is fit to be inlined
/// stays so through the pass, and its count does not go up.
pub proof fn lemma_inline_spends(t: Tree, defs: Entries, counts: Counts, name: Seq<char>)
    requires
        inlinable(usage(counts, name)),
    ensures
        inlinable(usage(inline_spec(t, defs, counts).counts, name)),
        usage(inline_spec(t, defs, counts).counts, name).ref_count <= usage(counts, name).ref_count,
    decreases defs.len(), t, 2int, 0int,
{
    if let Ok(tag) = tag_of(t) {
        if tag != "definition-ref"@ {
            lemma_inline_from_spends(t, 0, t, defs, counts, name);
        } else if let Ok(own) = schema_ref_of(t) {
            let c = usage(counts, own);
            if !inlinable(c) {
                lemma_inline_from_spends(t, 0, t, defs, counts, name);
            } else if let Some(i) = position(defs, own) {
                let target = defs[i].1;
                if target.is_dict() && target.has("ref"@) {
                    lemma_position_is_first(defs, own);
                    let node = inlined_node(t, target);
                    lemma_inline_from_spends(
                        node,
                        0,
                        node,
                        defs.remove(i),
                        counts.insert(own, c.unmet()),
                        name,
                    );
                }
            }
        }
    }
}

/// The same, for the later child schemas of a node.
pub proof fn lemma_inline_from_spends(
    t: Tree,
    k: int,
    cur: Tree,
    defs: Entries,
    counts: Counts,
    name: Seq<char>,
)
    requires
        inlinable(usage(counts, name)),
    ensures
        inlinable(usage(inline_from(t, k, cur, defs, counts).counts, name)),
        usage(inline_from(t, k, cur, defs, counts).counts, name).ref_count <= usage(
            counts,
            name,
        ).ref_count,
    decreases defs.len(), t, 0int, recurse_spec(t).sites.len() - k,
{
    let sites = recurse_spec(t).sites;
    if 0 <= k < sites.len() {
        lemma_recurse_valid(t);
        lemma_place_decreases(t, sites[k]);
        let child = sites[k].of(t);
        let r = inline_spec(child, defs, counts);
        lemma_inline_spends(child, defs, counts, name);
        if !(r.fault is Some || r.defs.len() > defs.len()) {
            lemma_inline_from_spends(t, k + 1, sites[k].put(cur, r.node), r.defs, r.counts, name);
        }
    }
}

/// Inlining at any depth: where the pass gets through and comes upon a
/// reference to a definition that is fit to be inlined, no use of that
/// definition is left to count afterwards.
pub proof fn lemma_inline_spent(t: Tree, defs: Entries, counts: Counts, name: Seq<char>)
    requires
        inlinable(usage(counts, name)),
        inline_spec(t, defs, counts).fault is None,
        touched(t, defs, counts).contains(name),
    ensures
        usage(inline_spec(t, defs, counts).counts, name).ref_count == 0,
    decreases defs.len(), t, 2int, 0int,
{
    let tag = tag_of(t)->Ok_0;
    if tag != "definition-ref"@ {
        lemma_inline_from_spent(t, 0, t, defs, counts, name);
    } else {
        let own = schema_ref_of(t)->Ok_0;
        let c = usage(counts, own);
        if !inlinable(c) {
            lemma_inline_from_spent(t, 0, t, defs, counts, name);
        } else {
            let i = position(defs, own)->0;
            let target = defs[i].1;
            lemma_position_is_first(defs, own);
            let node = inlined_node(t, target);
            let defs1 = defs.remove(i);
            let counts1 = counts.insert(own, c.unmet());
            if own == name {
                lemma_inline_from_spends(node, 0, node, defs1, counts1, name);
            } else {
                lemma_inline_from_spent(node, 0, node, defs1, counts1, name);
            }
        }
    }
}

/// The same, for the later child schemas of a node.
pub proof fn lemma_inline_from_spent(
    t: Tree,
    k: int,
    cur: Tree,
    defs: Entries,
    counts: Counts,
    name: Seq<char>,
)
    requires
        inlinable(usage(counts, name)),
        inline_from(t, k, cur, defs, counts).fault is None,
        touched_from(t, k, defs, counts).contains(name),
    ensures
        usage(inline_from(t, k, cur, defs, counts).counts, name).ref_count == 0,
    decreases defs.len(), t, 0int, recurse_spec(t).sites.len() - k,
{
    let sites = recurse_spec(t).sites;
    assert(0 <= k < sites.len());
    lemma_recurse_valid(t);
    lemma_place_decreases(t, sites[k]);
    let child = sites[k].of(t);
    let r = inline_spec(child, defs, counts);
    let cur1 = sites[k].put(cur, r.node);
    lemma_inline_shrinks(child, defs, counts);
    assert(r.fault is None);
    lemma_inline_spends(child, defs, counts, name);
    if touched(child, defs, counts).contains(name) {
        lemma_inline_spent(child, defs, counts, name);
        lemma_inline_from_spends(t, k + 1, cur1, r.defs, r.counts, name);
    } else {
        lemma_inline_from_spent(t, k + 1, cur1, r.defs, r.counts, name);
    }
}

/// Inlining from the root: where a schema is simplified with inlining, and the
/// inlining pass comes upon a reference to a definition that is referred to at
/// most once and lies on no cycle, that definition is gone from the table
/// afterwards, no use of it is left to count, and it is none of the
/// definitions that come out.
pub proof fn lemma_inlined_is_gone(root: Tree, name: Seq<char>)
    requires
        simplify_spec(root, true) is Ok,
        bear_their_names(lift_spec(root).1),
        touched(flattened_spec(root).0, flattened_spec(root).1, counted_spec(root)).contains(name),
        inlinable(usage(counted_spec(root), name)),
    ensures
        ({
            let r = inline_spec(flattened_spec(root).0, flattened_spec(root).1, counted_spec(root));
            &&& !holds(r.defs, name)
            &&& usage(r.counts, name).ref_count == 0
            &&& forall|j: int|
                0 <= j < emitted_spec(root).len() ==> required_ref(#[trigger] emitted_spec(root)[j])
                    != Ok::<Seq<char>, SchemaError>(name)
        }),
{
    let (lifted, found, fault) = lift_spec(root);
    let defs = merged_spec(found);
    lemma_merged_ok(found);
    let (root1, defs1, fault1) = flatten_spec(lifted, defs);
    lemma_flatten_keeps_table(lifted, defs);
    let (defs2, fault2) = flatten_entries_spec(defs1, key_names(defs1), 0);
    lemma_flatten_entries_keep_table(defs1, key_names(defs1), 0);
    let counts = counted_spec(root);
    let r = inline_spec(root1, defs2, counts);
    if holds(r.defs, name) {
        lemma_inline_leaves(root1, defs2, counts, name);
    }
    lemma_inline_spent(root1, defs2, counts, name);
    assert forall|j: int| 0 <= j < emitted_spec(root).len() implies required_ref(
        #[trigger] emitted_spec(root)[j],
    ) != Ok::<Seq<char>, SchemaError>(name) by {
        lemma_emitted_are_used(root, j);
    }
}

} // verus!
