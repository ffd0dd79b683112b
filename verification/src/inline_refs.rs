//! Inlining: a reference whose definition is used at most once and lies on no
//! cycle gives way to the definition itself, which leaves the table.

use crate::ref_counts::{
    count_of, counts_model, node_schema_ref, schema_ref_of, set_count, usage, Counts, RefCounts,
};
use crate::value::{
    discard, entries_model, find_key, lemma_position_is_first, position, remove_entry, set_entry,
    store, str_eq, Entries, Tree, Value,
};
use crate::walk_core_schema::{
    lemma_place_decreases, lemma_recurse_valid, node_tag, put_site, recurse, recurse_spec,
    site_child, tag_of, SchemaError,
};
use vstd::prelude::*;

verus! {

/// What is handed on while references are inlined: the node, the table of
/// definitions, the counts, and the fault that ended the pass, if any.
pub struct Inlined {
    pub node: Tree,
    pub defs: Entries,
    pub counts: Counts,
    pub fault: Option<SchemaError>,
}

/// The definition `target` as it stands in place of the reference `site`: it
/// loses its `ref` and takes the `serialization` of the site, if the site has one.
pub open spec fn inlined_node(site: Tree, target: Tree) -> Tree {
    let body = discard(target.entries(), "ref"@);
    Tree::Dict(
        match site.get("serialization"@) {
            Some(ser) => store(body, "serialization"@, ser),
            None => body,
        },
    )
}

/// Whether a definition with these counts is inlined where it is referred to.
pub open spec fn inlinable(c: RefCounts) -> bool {
    c.ref_count <= 1 && !c.involved_in_recursion
}

/// Inlining the references in one node.
///
/// A reference to a definition that is used at most once and lies on no cycle
/// gives way to the definition, which must stand in the table as a record with
/// a `ref`; the definition leaves the table and its count goes down by one.
/// Then the children of the node, as it now is, are visited in turn.
pub open spec fn inline_spec(t: Tree, defs: Entries, counts: Counts) -> Inlined
    decreases defs.len(), t, 2int, 0int,
{
    match tag_of(t) {
        Err(e) => Inlined { node: t, defs, counts, fault: Some(e) },
        Ok(tag) => if tag != "definition-ref"@ {
            inline_children(t, defs, counts)
        } else {
            match schema_ref_of(t) {
                Err(e) => Inlined { node: t, defs, counts, fault: Some(e) },
                Ok(name) => {
                    let c = usage(counts, name);
                    if !inlinable(c) {
                        inline_children(t, defs, counts)
                    } else {
                        match position(defs, name) {
                            None => Inlined {
                                node: t,
                                defs,
                                counts,
                                fault: Some(SchemaError::MissingKey),
                            },
                            Some(i) => {
                                let target = defs[i].1;
                                if !target.is_dict() {
                                    Inlined {
                                        node: t,
                                        defs,
                                        counts,
                                        fault: Some(SchemaError::WrongType),
                                    }
                                } else if !target.has("ref"@) {
                                    Inlined {
                                        node: t,
                                        defs,
                                        counts,
                                        fault: Some(SchemaError::MissingKey),
                                    }
                                } else {
                                    proof {
                                        lemma_position_is_first(defs, name);
                                    }
                                    inline_children(
                                        inlined_node(t, target),
                                        defs.remove(i),
                                        counts.insert(name, c.unmet()),
                                    )
                                }
                            },
                        }
                    }
                },
            }
        },
    }
}

/// Inlining the references in the child schemas of `t`, which itself stays.
pub open spec fn inline_children(t: Tree, defs: Entries, counts: Counts) -> Inlined
    decreases defs.len(), t, 1int, 0int,
{
    let r = inline_from(t, 0, t, defs, counts);
    Inlined {
        fault: if r.fault is Some {
            r.fault
        } else {
            recurse_spec(t).failure
        },
        ..r
    }
}

/// Inlining the references in the child schemas of `t` from the `k`-th on;
/// `cur` is `t` with the earlier ones already replaced. (The table never grows,
/// so the pass always goes on to the next child.)
pub open spec fn inline_from(t: Tree, k: int, cur: Tree, defs: Entries, counts: Counts) -> Inlined
    decreases defs.len(), t, 0int, recurse_spec(t).sites.len() - k,
{
    let sites = recurse_spec(t).sites;
    if 0 <= k < sites.len() {
        proof {
            lemma_recurse_valid(t);
            lemma_place_decreases(t, sites[k]);
        }
        let r = inline_spec(sites[k].of(t), defs, counts);
        let cur1 = sites[k].put(cur, r.node);
        if r.fault is Some || r.defs.len() > defs.len() {
            Inlined { node: cur1, ..r }
        } else {
            inline_from(t, k + 1, cur1, r.defs, r.counts)
        }
    } else {
        Inlined { node: cur, defs, counts, fault: None }
    }
}

/// Inlining never makes the table longer.
pub proof fn lemma_inline_shrinks(t: Tree, defs: Entries, counts: Counts)
    ensures
        inline_spec(t, defs, counts).defs.len() <= defs.len(),
    decreases defs.len(), t, 2int, 0int,
{
    if let Ok(tag) = tag_of(t) {
        if tag != "definition-ref"@ {
            lemma_inline_children_shrinks(t, defs, counts);
        } else if let Ok(name) = schema_ref_of(t) {
            let c = usage(counts, name);
            if !inlinable(c) {
                lemma_inline_children_shrinks(t, defs, counts);
            } else if let Some(i) = position(defs, name) {
                let target = defs[i].1;
                if target.is_dict() && target.has("ref"@) {
                    lemma_position_is_first(defs, name);
                    lemma_inline_children_shrinks(
                        inlined_node(t, target),
                        defs.remove(i),
                        counts.insert(name, c.unmet()),
                    );
                }
            }
        }
    }
}

/// Inlining below a node never makes the table longer.
pub proof fn lemma_inline_children_shrinks(t: Tree, defs: Entries, counts: Counts)
    ensures
        inline_children(t, defs, counts).defs.len() <= defs.len(),
    decreases defs.len(), t, 1int, 0int,
{
    lemma_inline_from_shrinks(t, 0, t, defs, counts);
}

/// Inlining below the later children of a node never makes the table longer.
pub proof fn lemma_inline_from_shrinks(t: Tree, k: int, cur: Tree, defs: Entries, counts: Counts)
    ensures
        inline_from(t, k, cur, defs, counts).defs.len() <= defs.len(),
    decreases defs.len(), t, 0int, recurse_spec(t).sites.len() - k,
{
    let sites = recurse_spec(t).sites;
    if 0 <= k < sites.len() {
        lemma_recurse_valid(t);
        lemma_place_decreases(t, sites[k]);
        lemma_inline_shrinks(sites[k].of(t), defs, counts);
        let r = inline_spec(sites[k].of(t), defs, counts);
        let cur1 = sites[k].put(cur, r.node);
        if !(r.fault is Some || r.defs.len() > defs.len()) {
            lemma_inline_from_shrinks(t, k + 1, cur1, r.defs, r.counts);
        }
    }
}

/// The definition `target` as it stands in place of the reference `site`.
pub fn make_inlined_node(site: &Value, target: Value) -> (r: Value)
    ensures
        r@ == inlined_node(site@, target@),
{
    let mut body = match target {
        Value::Dict(entries) => entries,
        _ => {
            let empty: Vec<(String, Value)> = Vec::new();
            assert(entries_model(empty@) =~= Seq::empty());
            empty
        },
    };
    let _ = remove_entry(&mut body, "ref");
    match site.get("serialization") {
        Some(ser) => {
            set_entry(&mut body, "serialization", ser.deep_clone());
        },
        None => {},
    }
    Value::Dict(body)
}

/// Inlines the references in one node and returns the node that takes its
/// place, with the fault that ended the pass, if any.
pub fn inline_visit(
    schema: &Value,
    all_defs: &mut Vec<(String, Value)>,
    ref_counts: &mut Vec<(String, RefCounts)>,
) -> (r: (Value, Option<SchemaError>))
    ensures
        inline_spec(
            schema@,
            entries_model(old(all_defs)@),
            counts_model(old(ref_counts)@),
        ) == (Inlined {
            node: r.0@,
            defs: entries_model(final(all_defs)@),
            counts: counts_model(final(ref_counts)@),
            fault: r.1,
        }),
    decreases old(all_defs).len(), schema@, 2int,
{
    let ghost t = schema@;
    let ghost defs = entries_model(all_defs@);
    let ghost counts = counts_model(ref_counts@);
    let tag = match node_tag(schema) {
        Err(e) => {
            return (schema.deep_clone(), Some(e));
        },
        Ok(tag) => tag,
    };
    if !str_eq(tag, "definition-ref") {
        return inline_below(schema, all_defs, ref_counts);
    }
    let name = match node_schema_ref(schema) {
        Err(e) => {
            return (schema.deep_clone(), Some(e));
        },
        Ok(name) => name,
    };
    let c = count_of(ref_counts, name);
    if !(c.ref_count <= 1 && !c.involved_in_recursion) {
        return inline_below(schema, all_defs, ref_counts);
    }
    let i = match find_key(all_defs, name) {
        None => {
            return (schema.deep_clone(), Some(SchemaError::MissingKey));
        },
        Some(i) => i,
    };
    assert(defs[i as int].1 == all_defs@[i as int].1@);
    if !all_defs[i].1.is_dict() {
        return (schema.deep_clone(), Some(SchemaError::WrongType));
    }
    if all_defs[i].1.get("ref").is_none() {
        return (schema.deep_clone(), Some(SchemaError::MissingKey));
    }
    proof {
        lemma_position_is_first(defs, name@);
    }
    let (_, target) = all_defs.remove(i);
    assert(entries_model(all_defs@) =~= defs.remove(i as int));
    let node = make_inlined_node(schema, target);
    set_count(
        ref_counts,
        name,
        RefCounts {
            ref_count: if c.ref_count > 0 {
                c.ref_count - 1
            } else {
                0
            },
            involved_in_recursion: c.involved_in_recursion,
            recursion_ref_count: c.recursion_ref_count,
        },
    );
    inline_below(&node, all_defs, ref_counts)
}

/// Inlines the references in the child schemas of a node, which itself stays.
pub fn inline_below(
    schema: &Value,
    all_defs: &mut Vec<(String, Value)>,
    ref_counts: &mut Vec<(String, RefCounts)>,
) -> (r: (Value, Option<SchemaError>))
    ensures
        inline_children(
            schema@,
            entries_model(old(all_defs)@),
            counts_model(old(ref_counts)@),
        ) == (Inlined {
            node: r.0@,
            defs: entries_model(final(all_defs)@),
            counts: counts_model(final(ref_counts)@),
            fault: r.1,
        }),
    decreases old(all_defs).len(), schema@, 1int,
{
    let ghost t = schema@;
    let ghost defs0 = entries_model(all_defs@);
    let ghost counts0 = counts_model(ref_counts@);
    let walk = recurse(schema);
    let mut out = schema.deep_clone();
    let mut k: usize = 0;
    while k < walk.sites.len()
        invariant
            k <= walk.sites.len(),
            t == schema@,
            defs0 == entries_model(old(all_defs)@),
            counts0 == counts_model(old(ref_counts)@),
            walk@ == recurse_spec(t),
            walk@.valid(t),
            all_defs.len() <= old(all_defs).len(),
            inline_from(
                t,
                k as int,
                out@,
                entries_model(all_defs@),
                counts_model(ref_counts@),
            ) == inline_from(t, 0, t, defs0, counts0),
        decreases walk.sites.len() - k,
    {
        let site = walk.sites[k];
        assert(walk@.sites[k as int] == site@);
        let ghost defs = entries_model(all_defs@);
        let ghost counts = counts_model(ref_counts@);
        let ghost cur = out@;
        proof {
            lemma_place_decreases(t, site@);
            lemma_inline_shrinks(site@.of(t), defs, counts);
        }
        let (child, fault) = inline_visit(site_child(schema, site), all_defs, ref_counts);
        out = put_site(out, site, child);
        proof {
            let r = inline_spec(site@.of(t), defs, counts);
            assert(r.node == child@ && r.fault == fault);
            assert(r.defs == entries_model(all_defs@));
            assert(r.counts == counts_model(ref_counts@));
            assert(out@ == site@.put(cur, r.node));
            assert(r.defs.len() <= defs.len());
            assert(inline_from(t, k as int, cur, defs, counts) == (if r.fault is Some {
                Inlined { node: out@, ..r }
            } else {
                inline_from(t, k as int + 1, out@, r.defs, r.counts)
            }));
        }
        if fault.is_some() {
            return (out, fault);
        }
        k += 1;
    }
    (out, walk.failure)
}

/// Inlines in place every reference of `schema` whose definition is used at
/// most once and lies on no cycle: the definition takes the place of the
/// reference, loses its `ref`, keeps the `serialization` of the reference if
/// that has one, and leaves `all_defs`; its count in `ref_counts` goes down by
/// one. What stands in an inlined definition is visited in turn.
///
/// Fails on the first structural fault met, or where a definition to inline is
/// not in `all_defs` as a record with a `ref`. What was rewritten before a fault
/// stays rewritten.
pub fn inline_refs(
    schema: &mut Value,
    all_defs: &mut Vec<(String, Value)>,
    ref_counts: &mut Vec<(String, RefCounts)>,
) -> (r: Result<(), SchemaError>)
    ensures
        inline_spec(
            old(schema)@,
            entries_model(old(all_defs)@),
            counts_model(old(ref_counts)@),
        ) == (Inlined {
            node: final(schema)@,
            defs: entries_model(final(all_defs)@),
            counts: counts_model(final(ref_counts)@),
            fault: match r {
                Ok(_) => None::<SchemaError>,
                Err(e) => Some(e),
            },
        }),
{
    let (node, fault) = inline_visit(schema, all_defs, ref_counts);
    *schema = node;
    match fault {
        Some(e) => Err(e),
        None => Ok(()),
    }
}

} // verus!
