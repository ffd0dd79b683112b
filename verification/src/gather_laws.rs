//! What holds of gathering: it is a function of its input, and it finds the
//! definitions that refer to themselves.

use crate::ref_counts::{lemma_enter_decreases, schema_ref_of};
use crate::schema_traverse::{
    add_site, gather_definition_ref_spec, gather_from, gather_meta_spec, gather_node_spec,
    gather_plan_spec, gather_spec, is_gathered, lemma_gather_plan_valid, GatherCtx, Gathered,
};
use crate::ref_counts::idle;
use crate::value::{lookup, Entries, Tree, Value};
use crate::walk_core_schema::{lemma_place_decreases, tag_of, SchemaError};
use vstd::prelude::*;

verus! {

/// Gathering is a function of its input: two runs on the same schema and the
/// same definitions fail alike, or gather the same.
pub proof fn lemma_gather_deterministic(
    schema: Value,
    definitions: Value,
    first: Result<GatherCtx, SchemaError>,
    second: Result<GatherCtx, SchemaError>,
)
    requires
        is_gathered(schema@, definitions@, first),
        is_gathered(schema@, definitions@, second),
    ensures
        match (first, second) {
            (Ok(a), Ok(b)) => a@ == b@,
            (Err(a), Err(b)) => a == b,
            _ => false,
        },
{
}

/// Whether a walk through `t`, inside the definitions `seen`, comes upon a
/// reference to `name` while it is inside `name`. The walk goes through the
/// child schemas of a node, and through a reference into the definition that
/// the table holds for it, unless it is inside that definition already.
pub open spec fn meets(t: Tree, defs: Entries, seen: Set<Seq<char>>, name: Seq<char>) -> bool
    decreases idle(defs, seen), t, 1int, 0int,
{
    match tag_of(t) {
        Err(_) => false,
        Ok(tag) => if tag != "definition-ref"@ {
            meets_from(t, 0, defs, seen, name)
        } else {
            match schema_ref_of(t) {
                Err(_) => false,
                Ok(r) => if seen.contains(r) {
                    r == name || meets_from(t, 0, defs, seen, name)
                } else {
                    match lookup(defs, r) {
                        None => meets_from(t, 0, defs, seen, name),
                        Some(target) => if !target.is_dict() {
                            false
                        } else {
                            proof {
                                lemma_enter_decreases(defs, seen, r);
                            }
                            meets(target, defs, seen.insert(r), name) || meets_from(
                                t,
                                0,
                                defs,
                                seen.insert(r),
                                name,
                            )
                        },
                    }
                },
            }
        },
    }
}

/// Whether a walk through the child schemas of `t` from the `k`-th on comes
/// upon a reference to `name` while it is inside `name`.
pub open spec fn meets_from(t: Tree, k: int, defs: Entries, seen: Set<Seq<char>>, name: Seq<char>) -> bool
    decreases idle(defs, seen), t, 0int, gather_plan_spec(t).sites.len() - k,
{
    let sites = gather_plan_spec(t).sites;
    if 0 <= k < sites.len() {
        proof {
            lemma_gather_plan_valid(t);
            lemma_place_decreases(t, sites[k]);
        }
        meets(sites[k].of(t), defs, seen, name) || meets_from(t, k + 1, defs, seen, name)
    } else {
        false
    }
}

/// Gathering from a node never forgets a definition that lies on a cycle.
pub proof fn lemma_gather_grows(t: Tree, defs: Entries, seen: Set<Seq<char>>, acc: Gathered)
    ensures
        acc.recursive_refs.subset_of(gather_spec(t, defs, seen, acc).0.recursive_refs),
    decreases idle(defs, seen), t, 2int, 0int,
{
    if let Ok(tag) = tag_of(t) {
        if tag == "definition-ref"@ {
            lemma_gather_definition_ref_grows(t, defs, seen, acc);
        } else {
            lemma_gather_node_grows(t, defs, seen, acc);
        }
    }
}

/// Gathering below a node never forgets a definition that lies on a cycle.
pub proof fn lemma_gather_node_grows(t: Tree, defs: Entries, seen: Set<Seq<char>>, acc: Gathered)
    ensures
        acc.recursive_refs.subset_of(gather_node_spec(t, defs, seen, acc).0.recursive_refs),
    decreases idle(defs, seen), t, 1int, 0int,
{
    lemma_gather_from_grows(t, 0, defs, seen, acc);
}

/// Gathering from the later children of a node never forgets a definition that
/// lies on a cycle.
pub proof fn lemma_gather_from_grows(
    t: Tree,
    k: int,
    defs: Entries,
    seen: Set<Seq<char>>,
    acc: Gathered,
)
    ensures
        acc.recursive_refs.subset_of(gather_from(t, k, defs, seen, acc).0.recursive_refs),
    decreases idle(defs, seen), t, 0int, gather_plan_spec(t).sites.len() - k,
{
    let sites = gather_plan_spec(t).sites;
    if 0 <= k < sites.len() {
        lemma_gather_plan_valid(t);
        lemma_place_decreases(t, sites[k]);
        lemma_gather_grows(sites[k].of(t), defs, seen, acc);
        let (acc1, fault) = gather_spec(sites[k].of(t), defs, seen, acc);
        if fault is None {
            lemma_gather_from_grows(t, k + 1, defs, seen, acc1);
        }
    }
}

/// Gathering from a reference never forgets a definition that lies on a cycle.
pub proof fn lemma_gather_definition_ref_grows(
    t: Tree,
    defs: Entries,
    seen: Set<Seq<char>>,
    acc: Gathered,
)
    ensures
        acc.recursive_refs.subset_of(
            gather_definition_ref_spec(t, defs, seen, acc).0.recursive_refs,
        ),
    decreases idle(defs, seen), t, 1int, 1int,
{
    if let Ok(name) = schema_ref_of(t) {
        if seen.contains(name) {
            lemma_gather_node_grows(
                t,
                defs,
                seen,
                Gathered { recursive_refs: acc.recursive_refs.union(seen), ..acc },
            );
        } else {
            let acc1 = Gathered { definition_refs: add_site(acc.definition_refs, name, t), ..acc };
            match lookup(defs, name) {
                None => {
                    lemma_gather_node_grows(t, defs, seen, acc1);
                },
                Some(target) => {
                    if target.is_dict() {
                        lemma_enter_decreases(defs, seen, name);
                        lemma_gather_grows(target, defs, seen.insert(name), acc1);
                        let (acc2, fault) = gather_spec(target, defs, seen.insert(name), acc1);
                        if fault is None {
                            lemma_gather_node_grows(t, defs, seen.insert(name), acc2);
                        }
                    }
                },
            }
        }
    }
}

/// Cycle detection: a walk that gets through and, inside the definitions
/// `seen`, comes upon a reference to `name` while inside `name`, reports `name`
/// and every definition of `seen` as lying on a cycle.
pub proof fn lemma_cycle_detected(
    t: Tree,
    defs: Entries,
    seen: Set<Seq<char>>,
    acc: Gathered,
    name: Seq<char>,
)
    requires
        meets(t, defs, seen, name),
        gather_spec(t, defs, seen, acc).1 is None,
    ensures
        seen.insert(name).subset_of(gather_spec(t, defs, seen, acc).0.recursive_refs),
    decreases idle(defs, seen), t, 1int, 0int,
{
    let tag = tag_of(t)->Ok_0;
    if tag != "definition-ref"@ {
        lemma_cycle_detected_from(t, 0, defs, seen, acc, name);
        let (acc1, fault) = gather_from(t, 0, defs, seen, acc);
        assert(gather_node_spec(t, defs, seen, acc) == gather_meta_spec(t, acc1));
    } else {
        let r = schema_ref_of(t)->Ok_0;
        assert(gather_spec(t, defs, seen, acc) == gather_definition_ref_spec(t, defs, seen, acc));
        if seen.contains(r) {
            let acc1 = Gathered { recursive_refs: acc.recursive_refs.union(seen), ..acc };
            if r == name {
                assert(seen.insert(name) =~= seen);
                lemma_gather_node_grows(t, defs, seen, acc1);
            } else {
                lemma_cycle_detected_from(t, 0, defs, seen, acc1, name);
                let (acc3, fault3) = gather_from(t, 0, defs, seen, acc1);
                assert(gather_node_spec(t, defs, seen, acc1) == gather_meta_spec(t, acc3));
            }
        } else if lookup(defs, r) is None {
            let acc1 = Gathered { definition_refs: add_site(acc.definition_refs, r, t), ..acc };
            lemma_cycle_detected_from(t, 0, defs, seen, acc1, name);
            let (acc3, fault3) = gather_from(t, 0, defs, seen, acc1);
            assert(gather_node_spec(t, defs, seen, acc1) == gather_meta_spec(t, acc3));
        } else {
            let target = lookup(defs, r)->0;
            let inside = seen.insert(r);
            let acc1 = Gathered { definition_refs: add_site(acc.definition_refs, r, t), ..acc };
            lemma_enter_decreases(defs, seen, r);
            let (acc2, fault) = gather_spec(target, defs, inside, acc1);
            assert(gather_spec(t, defs, seen, acc) == gather_definition_ref_spec(t, defs, seen, acc));
            assert(fault is None);
            assert(gather_spec(t, defs, seen, acc) == gather_node_spec(t, defs, inside, acc2));
            if meets(target, defs, inside, name) {
                lemma_cycle_detected(target, defs, inside, acc1, name);
                lemma_gather_node_grows(t, defs, inside, acc2);
            } else {
                lemma_cycle_detected_from(t, 0, defs, inside, acc2, name);
                let (acc3, fault3) = gather_from(t, 0, defs, inside, acc2);
                assert(gather_node_spec(t, defs, inside, acc2) == gather_meta_spec(t, acc3));
            }
        }
    }
}

/// Cycle detection among the later children of a node.
pub proof fn lemma_cycle_detected_from(
    t: Tree,
    k: int,
    defs: Entries,
    seen: Set<Seq<char>>,
    acc: Gathered,
    name: Seq<char>,
)
    requires
        meets_from(t, k, defs, seen, name),
        gather_from(t, k, defs, seen, acc).1 is None,
    ensures
        seen.insert(name).subset_of(gather_from(t, k, defs, seen, acc).0.recursive_refs),
    decreases idle(defs, seen), t, 0int, gather_plan_spec(t).sites.len() - k,
{
    let sites = gather_plan_spec(t).sites;
    lemma_gather_plan_valid(t);
    lemma_place_decreases(t, sites[k]);
    let (acc1, fault) = gather_spec(sites[k].of(t), defs, seen, acc);
    if meets(sites[k].of(t), defs, seen, name) {
        lemma_cycle_detected(sites[k].of(t), defs, seen, acc, name);
        lemma_gather_from_grows(t, k + 1, defs, seen, acc1);
    } else {
        lemma_cycle_detected_from(t, k + 1, defs, seen, acc1, name);
    }
}

/// Cycle detection from the root: where gathering from a schema gets through
/// and its walk comes upon a reference to a definition while inside that
/// definition, the definition is reported as recursive.
pub proof fn lemma_self_reference_reported(
    schema: Value,
    definitions: Value,
    name: Seq<char>,
    ctx: GatherCtx,
)
    requires
        meets(schema@, definitions@.entries(), Set::empty(), name),
        is_gathered(schema@, definitions@, Ok(ctx)),
    ensures
        ctx@.recursive_refs.contains(name),
{
    lemma_cycle_detected(schema@, definitions@.entries(), Set::empty(), Gathered::empty(), name);
}

} // verus!
