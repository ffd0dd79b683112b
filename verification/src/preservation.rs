//! What the rewriting passes leave untouched: a node that stays keeps its keys
//! in their order, and keeps every value that is not one of its child schemas.

use crate::collect::ref_of;
use crate::discriminator::{
    applied, applied_from, deferred_discriminator, finished, outcome, resolved, ApplyError,
};
use crate::inline_refs::{inlinable, inline_from, inline_spec, inlined_node};
use crate::ref_counts::{schema_ref_of, usage, Counts};
use crate::simplify_schema::{
    definition_ref, flatten_from, flatten_spec, lift_children_spec, lift_from, lift_node_spec,
    lift_spec,
};
use crate::value::{lemma_position_is_first, position, Entries, Tree, Value};
use crate::walk_core_schema::{recurse_spec, tag_of, Place};
use vstd::prelude::*;

verus! {

/// Whether the entry `i` of `t` holds none of the child schemas of `t`.
pub open spec fn is_payload(t: Tree, i: int) -> bool {
    forall|k: int|
        0 <= k < recurse_spec(t).sites.len() ==> (#[trigger] recurse_spec(t).sites[k]).entry() != i
}

/// Whether `after` has the keys of `before`, in their order, and every value of
/// `before` but those under the entries in `touched`.
pub open spec fn kept_but(before: Tree, after: Tree, touched: Set<int>) -> bool {
    &&& after.is_dict() == before.is_dict()
    &&& after.entries().len() == before.entries().len()
    &&& forall|i: int|
        0 <= i < before.entries().len() ==> (#[trigger] after.entries()[i]).0
            == before.entries()[i].0
    &&& forall|i: int|
        0 <= i < before.entries().len() && !touched.contains(i) ==> #[trigger] after.entries()[i]
            == before.entries()[i]
}

/// Whether the node `after` stands for the node `before` with nothing changed
/// but its child schemas: the same keys in the same order, and the same value
/// under every key that holds no child schema.
pub open spec fn preserved(before: Tree, after: Tree) -> bool {
    kept_but(before, after, Set::new(|i: int| !is_payload(before, i)))
}

/// The entries under which the child schemas of `t` from the `k`-th on lie.
pub open spec fn entries_from(t: Tree, k: int) -> Set<int> {
    Set::new(
        |i: int|
            exists|j: int|
                k <= j < recurse_spec(t).sites.len() && (#[trigger] recurse_spec(t).sites[j]).entry()
                    == i,
    )
}

/// Replacing what stands at a place changes one entry of the node at most,
/// and no key.
pub proof fn lemma_put_keeps(p: Place, t: Tree, n: Tree)
    ensures
        kept_but(t, p.put(t, n), set![p.entry()]),
{
    let a = p.entry();
    let after = p.put(t, n);
    if 0 <= a < t.arity() {
        match t {
            Tree::Dict(entries) => {
                assert(after.entries().len() == entries.len());
                assert forall|i: int| 0 <= i < entries.len() implies (#[trigger] after.entries()[i]).0
                    == entries[i].0 by {}
                assert forall|i: int| 0 <= i < entries.len() && !set![a].contains(i) implies
                    #[trigger] after.entries()[i] == entries[i] by {}
            },
            _ => {},
        }
    }
}

/// Keeping is transitive, over all entries touched.
pub proof fn lemma_kept_trans(a: Tree, b: Tree, c: Tree, s1: Set<int>, s2: Set<int>)
    requires
        kept_but(a, b, s1),
        kept_but(b, c, s2),
    ensures
        kept_but(a, c, s1.union(s2)),
{
    assert forall|i: int| 0 <= i < a.entries().len() implies (#[trigger] c.entries()[i]).0
        == a.entries()[i].0 by {
        assert(b.entries()[i].0 == a.entries()[i].0);
    }
    assert forall|i: int|
        0 <= i < a.entries().len() && !s1.union(s2).contains(i) implies #[trigger] c.entries()[i]
        == a.entries()[i] by {
        assert(b.entries()[i] == a.entries()[i]);
    }
}

/// Keeping holds of more entries touched as well.
pub proof fn lemma_kept_more(a: Tree, b: Tree, s1: Set<int>, s2: Set<int>)
    requires
        kept_but(a, b, s1),
        s1.subset_of(s2),
    ensures
        kept_but(a, b, s2),
{
}

/// One more child replaced: what was kept from there on was kept from here on.
pub proof fn lemma_keep_step(t: Tree, k: int, cur: Tree, child: Tree, after: Tree)
    requires
        0 <= k < recurse_spec(t).sites.len(),
        kept_but(recurse_spec(t).sites[k].put(cur, child), after, entries_from(t, k + 1)),
    ensures
        kept_but(cur, after, entries_from(t, k)),
{
    let sites = recurse_spec(t).sites;
    let cur1 = sites[k].put(cur, child);
    lemma_put_keeps(sites[k], cur, child);
    assert(entries_from(t, k).contains(sites[k].entry()));
    lemma_kept_trans(cur, cur1, after, set![sites[k].entry()], entries_from(t, k + 1));
    assert(entries_from(t, k + 1).subset_of(entries_from(t, k))) by {
        assert forall|i: int| entries_from(t, k + 1).contains(i) implies entries_from(
            t,
            k,
        ).contains(i) by {
            let j = choose|j: int| k + 1 <= j < sites.len() && (#[trigger] sites[j]).entry() == i;
            assert(k <= j < sites.len() && sites[j].entry() == i);
        }
    }
    lemma_kept_more(
        cur,
        after,
        set![sites[k].entry()].union(entries_from(t, k + 1)),
        entries_from(t, k),
    );
}

/// A node keeps all it has when nothing is replaced.
pub proof fn lemma_keep_none(t: Tree, k: int, cur: Tree)
    ensures
        kept_but(cur, cur, entries_from(t, k)),
{
}

/// The entries under which child schemas lie are those that are no payload.
pub proof fn lemma_entries_from_start(t: Tree)
    ensures
        entries_from(t, 0) == Set::new(|i: int| !is_payload(t, i)),
{
    let sites = recurse_spec(t).sites;
    assert forall|i: int| entries_from(t, 0).contains(i) == !is_payload(t, i) by {
        if entries_from(t, 0).contains(i) {
            let j = choose|j: int| 0 <= j < sites.len() && (#[trigger] sites[j]).entry() == i;
            assert(sites[j].entry() == i);
        }
        if !is_payload(t, i) {
            let j = choose|j: int| 0 <= j < sites.len() && (#[trigger] sites[j]).entry() == i;
            assert(0 <= j < sites.len() && sites[j].entry() == i);
        }
    }
    assert(entries_from(t, 0) =~= Set::new(|i: int| !is_payload(t, i)));
}

/// Lifting the definitions below a node leaves the node as it is but for its
/// child schemas.
pub proof fn lemma_lift_from_keeps(t: Tree, k: int, cur: Tree)
    requires
        0 <= k,
    ensures
        kept_but(cur, lift_from(t, k, cur).0, entries_from(t, k)),
    decreases recurse_spec(t).sites.len() - k,
{
    let sites = recurse_spec(t).sites;
    if k < sites.len() {
        let (child, found, fault) = lift_spec(sites[k].of(t));
        let cur1 = sites[k].put(cur, child);
        if fault is Some {
            lemma_keep_none(t, k + 1, cur1);
        } else {
            lemma_lift_from_keeps(t, k + 1, cur1);
        }
        lemma_keep_step(t, k, cur, child, lift_from(t, k, cur).0);
    }
}

/// Preservation under lifting: a node that is no `definitions` node stays, with
/// its keys in their order and with every value that is no child schema.
pub proof fn lemma_lift_preserves(t: Tree)
    ensures
        preserved(t, lift_children_spec(t).0),
        lift_node_spec(t).2 is None ==> preserved(t, lift_node_spec(t).0),
{
    lemma_lift_from_keeps(t, 0, t);
    lemma_entries_from_start(t);
}

/// Preservation goes from pass to pass: what one pass keeps of a node, and
/// another keeps of what the first left, a node that is walked as the first
/// was, both keep.
pub proof fn lemma_preserved_twice(a: Tree, b: Tree, c: Tree)
    requires
        preserved(a, b),
        preserved(b, c),
        recurse_spec(b) == recurse_spec(a),
    ensures
        preserved(a, c),
{
    let touched = Set::new(|i: int| !is_payload(a, i));
    assert(Set::new(|i: int| !is_payload(b, i)) =~= touched);
    lemma_kept_trans(a, b, c, touched, touched);
    assert(touched.union(touched) =~= touched);
}

/// Flattening below a node leaves the node as it is but for its child schemas.
pub proof fn lemma_flatten_from_keeps(t: Tree, k: int, cur: Tree, defs: Entries)
    requires
        0 <= k,
    ensures
        kept_but(cur, flatten_from(t, k, cur, defs).0, entries_from(t, k)),
    decreases recurse_spec(t).sites.len() - k,
{
    let sites = recurse_spec(t).sites;
    if k < sites.len() {
        let (child, defs1, fault) = flatten_spec(sites[k].of(t), defs);
        let cur1 = sites[k].put(cur, child);
        if fault is Some {
            lemma_keep_none(t, k + 1, cur1);
        } else {
            lemma_flatten_from_keeps(t, k + 1, cur1, defs1);
        }
        lemma_keep_step(t, k, cur, child, flatten_from(t, k, cur, defs).0);
    }
}

/// Preservation under flattening: a node gives way to a bare reference, or
/// stays, with its keys in their order and with every value that is no child
/// schema.
pub proof fn lemma_flatten_preserves(t: Tree, defs: Entries)
    ensures
        preserved(t, flatten_spec(t, defs).0) || exists|name: Seq<char>|
            flatten_spec(t, defs).0 == #[trigger] definition_ref(name),
{
    lemma_flatten_from_keeps(t, 0, t, defs);
    lemma_entries_from_start(t);
    let (t1, defs1, fault) = flatten_from(t, 0, t, defs);
    if let Ok(Some(name)) = ref_of(t1) {
        assert(definition_ref(name) == definition_ref(name));
    }
}

/// Inlining below a node leaves the node as it is but for its child schemas.
pub proof fn lemma_inline_from_keeps(t: Tree, k: int, cur: Tree, defs: Entries, counts: Counts)
    requires
        0 <= k,
    ensures
        kept_but(cur, inline_from(t, k, cur, defs, counts).node, entries_from(t, k)),
    decreases recurse_spec(t).sites.len() - k,
{
    let sites = recurse_spec(t).sites;
    if k < sites.len() {
        let r = inline_spec(sites[k].of(t), defs, counts);
        let cur1 = sites[k].put(cur, r.node);
        if r.fault is Some || r.defs.len() > defs.len() {
            lemma_keep_none(t, k + 1, cur1);
        } else {
            lemma_inline_from_keeps(t, k + 1, cur1, r.defs, r.counts);
        }
        lemma_keep_step(t, k, cur, r.node, inline_from(t, k, cur, defs, counts).node);
    }
}

/// Preservation under inlining: a node stays, with its keys in their order and
/// with every value that is no child schema; or it is a reference that gives
/// way to a definition of the table, which then stays in that way, without its
/// `ref` and with the `serialization` of the reference.
pub proof fn lemma_inline_preserves(t: Tree, defs: Entries, counts: Counts)
    ensures
        preserved(t, inline_spec(t, defs, counts).node) || exists|i: int|
            0 <= i < defs.len() && preserved(
                inlined_node(t, (#[trigger] defs[i]).1),
                inline_spec(t, defs, counts).node,
            ),
{
    lemma_inline_from_keeps(t, 0, t, defs, counts);
    lemma_entries_from_start(t);
    if let Ok(tag) = tag_of(t) {
        if tag == "definition-ref"@ {
            if let Ok(name) = schema_ref_of(t) {
                let c = usage(counts, name);
                if inlinable(c) {
                    if let Some(i) = position(defs, name) {
                        let target = defs[i].1;
                        if target.is_dict() && target.has("ref"@) {
                            lemma_position_is_first(defs, name);
                            let node = inlined_node(t, target);
                            lemma_inline_from_keeps(
                                node,
                                0,
                                node,
                                defs.remove(i),
                                counts.insert(name, c.unmet()),
                            );
                            lemma_entries_from_start(node);
                            assert(preserved(
                                inlined_node(t, defs[i].1),
                                inline_spec(t, defs, counts).node,
                            ));
                        }
                    }
                }
            }
        }
    }
}

/// Applying discriminators below a node leaves the node as it is but for its
/// child schemas.
pub proof fn lemma_applied_from_keeps<E, F: Fn(&Value, &str) -> Result<Value, E>>(
    f: &F,
    t: Tree,
    k: int,
    cur: Tree,
    out: Tree,
    fault: Option<ApplyError<E>>,
)
    requires
        0 <= k,
        applied_from(f, t, k, cur, out, fault),
    ensures
        kept_but(cur, out, entries_from(t, k)),
    decreases recurse_spec(t).sites.len() - k,
{
    let sites = recurse_spec(t).sites;
    if k < sites.len() {
        let (child, inner) = choose|child: Tree, inner: Option<ApplyError<E>>|
            #[trigger] outcome(child, inner) && applied(f, sites[k].of(t), child, inner) && (
            if inner is Some {
                out == sites[k].put(cur, child) && fault == inner
            } else {
                applied_from(f, t, k + 1, sites[k].put(cur, child), out, fault)
            });
        let cur1 = sites[k].put(cur, child);
        if inner is Some {
            lemma_keep_none(t, k + 1, cur1);
        } else {
            lemma_applied_from_keeps(f, t, k + 1, cur1, out, fault);
        }
        lemma_keep_step(t, k, cur, child, out);
    }
}

/// Preservation under the application of discriminators: a node stays, with
/// its keys in their order and with every value that is no child schema, or,
/// once its children are done, gives way to what the resolver makes of it.
pub proof fn lemma_apply_preserves<E, F: Fn(&Value, &str) -> Result<Value, E>>(
    f: &F,
    t: Tree,
    out: Tree,
    fault: Option<ApplyError<E>>,
)
    requires
        applied(f, t, out, fault),
    ensures
        exists|mid: Tree|
            #[trigger] preserved(t, mid) && (out == mid || (deferred_discriminator(mid) matches Ok(
                Some(d),
            ) && resolved(f, mid, d, out, fault))),
{
    lemma_entries_from_start(t);
    if let Ok(tag) = tag_of(t) {
        let (mid, below) = choose|mid: Tree, below: Option<ApplyError<E>>|
            #[trigger] outcome(mid, below) && applied_from(f, t, 0, t, mid, below) && (if below
                is Some {
                out == mid && fault == below
            } else if recurse_spec(t).failure is Some {
                out == mid && fault == Some(
                    ApplyError::<E>::Schema(recurse_spec(t).failure->0),
                )
            } else {
                finished(f, tag, mid, out, fault)
            });
        lemma_applied_from_keeps(f, t, 0, t, mid, below);
        assert(preserved(t, mid));
    } else {
        assert(preserved(t, t));
    }
}

} // verus!
