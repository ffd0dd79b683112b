//! Cycle detection over the table of definitions: where the definitions refer
//! to each other in a ring, and gathering comes upon a reference to one of
//! them, every definition of the ring is reported as recursive.

use crate::gather_laws::{lemma_gather_from_grows, lemma_gather_node_grows};
use crate::ref_counts::{idle, lemma_enter_decreases, schema_ref_of};
use crate::schema_traverse::{
    add_site, gather_from, gather_meta_spec, gather_node_spec, gather_plan_spec, gather_spec,
    is_gathered, lemma_gather_plan_valid, GatherCtx, Gathered,
};
use crate::value::{lookup, Entries, Tree, Value};
use crate::walk_core_schema::{lemma_place_decreases, tag_of, SchemaError};
use vstd::prelude::*;

verus! {

/// Whether `t` is a reference to `name`.
pub open spec fn is_reference(t: Tree, name: Seq<char>) -> bool {
    tag_of(t) == Ok::<Seq<char>, SchemaError>("definition-ref"@) && schema_ref_of(t) == Ok::<
        Seq<char>,
        SchemaError,
    >(name)
}

/// Whether `t` holds a reference to `name`: it is one, or one stands below
/// one of its child schemas. References are not followed.
pub open spec fn refers(t: Tree, name: Seq<char>) -> bool
    decreases t, 1int, 0int,
{
    is_reference(t, name) || refers_from(t, 0, name)
}

/// Whether a reference to `name` stands below the child schemas of `t` from
/// the `k`-th on.
pub open spec fn refers_from(t: Tree, k: int, name: Seq<char>) -> bool
    decreases t, 0int, gather_plan_spec(t).sites.len() - k,
{
    let sites = gather_plan_spec(t).sites;
    if 0 <= k < sites.len() {
        proof {
            lemma_gather_plan_valid(t);
            lemma_place_decreases(t, sites[k]);
        }
        refers(sites[k].of(t), name) || refers_from(t, k + 1, name)
    } else {
        false
    }
}

/// The place after `i` on a ring of `n` places.
pub open spec fn next(n: int, i: int) -> int {
    if i + 1 < n {
        i + 1
    } else {
        0
    }
}

/// Whether the names of `ring` are definitions of the table that refer to
/// each other in a ring: each holds a reference to the next, the last to the
/// first.
pub open spec fn is_ring(defs: Entries, ring: Seq<Seq<char>>) -> bool {
    &&& ring.len() > 0
    &&& forall|i: int|
        0 <= i < ring.len() ==> (#[trigger] lookup(defs, ring[i])) is Some && refers(
            lookup(defs, ring[i])->0,
            ring[next(ring.len() as int, i)],
        )
}

/// Gathering from the metadata of a node reports no definition as recursive
/// and forgets none.
pub proof fn lemma_meta_keeps(t: Tree, acc: Gathered)
    ensures
        gather_meta_spec(t, acc).0.recursive_refs == acc.recursive_refs,
{
}

/// Inside a definition of a ring: a walk that is inside `name`, gets through,
/// and holds a reference to a definition of the ring, reports `name` as
/// recursive.
pub proof fn lemma_inside_marked(
    t: Tree,
    defs: Entries,
    seen: Set<Seq<char>>,
    acc: Gathered,
    ring: Seq<Seq<char>>,
    j: int,
    name: Seq<char>,
)
    requires
        is_ring(defs, ring),
        0 <= j < ring.len(),
        refers(t, ring[j]),
        seen.contains(name),
        gather_spec(t, defs, seen, acc).1 is None,
    ensures
        gather_spec(t, defs, seen, acc).0.recursive_refs.contains(name),
    decreases idle(defs, seen), t, 2int, 0int,
{
    let tag = tag_of(t)->Ok_0;
    if tag != "definition-ref"@ {
        lemma_inside_marked_node(t, defs, seen, acc, ring, j, name);
    } else {
        let r = schema_ref_of(t)->Ok_0;
        assert(lookup(defs, ring[j]) is Some);
        if seen.contains(r) {
            let acc1 = Gathered { recursive_refs: acc.recursive_refs.union(seen), ..acc };
            lemma_gather_node_grows(t, defs, seen, acc1);
        } else {
            let acc1 = Gathered { definition_refs: add_site(acc.definition_refs, r, t), ..acc };
            match lookup(defs, r) {
                None => {
                    lemma_inside_marked_node(t, defs, seen, acc1, ring, j, name);
                },
                Some(target) => {
                    let inside = seen.insert(r);
                    lemma_enter_decreases(defs, seen, r);
                    let (acc2, fault) = gather_spec(target, defs, inside, acc1);
                    if r == ring[j] {
                        lemma_inside_marked(
                            target,
                            defs,
                            inside,
                            acc1,
                            ring,
                            next(ring.len() as int, j),
                            name,
                        );
                        lemma_gather_node_grows(t, defs, inside, acc2);
                    } else {
                        lemma_inside_marked_node(t, defs, inside, acc2, ring, j, name);
                    }
                },
            }
        }
    }
}

/// Inside a definition of a ring, for a node below whose child schemas the
/// reference stands.
pub proof fn lemma_inside_marked_node(
    t: Tree,
    defs: Entries,
    seen: Set<Seq<char>>,
    acc: Gathered,
    ring: Seq<Seq<char>>,
    j: int,
    name: Seq<char>,
)
    requires
        is_ring(defs, ring),
        0 <= j < ring.len(),
        refers_from(t, 0, ring[j]),
        seen.contains(name),
        gather_node_spec(t, defs, seen, acc).1 is None,
    ensures
        gather_node_spec(t, defs, seen, acc).0.recursive_refs.contains(name),
    decreases idle(defs, seen), t, 1int, 0int,
{
    lemma_inside_marked_from(t, 0, defs, seen, acc, ring, j, name);
    lemma_meta_keeps(t, gather_from(t, 0, defs, seen, acc).0);
}

/// Inside a definition of a ring, for the later child schemas of a node.
pub proof fn lemma_inside_marked_from(
    t: Tree,
    k: int,
    defs: Entries,
    seen: Set<Seq<char>>,
    acc: Gathered,
    ring: Seq<Seq<char>>,
    j: int,
    name: Seq<char>,
)
    requires
        is_ring(defs, ring),
        0 <= j < ring.len(),
        refers_from(t, k, ring[j]),
        seen.contains(name),
        gather_from(t, k, defs, seen, acc).1 is None,
    ensures
        gather_from(t, k, defs, seen, acc).0.recursive_refs.contains(name),
    decreases idle(defs, seen), t, 0int, gather_plan_spec(t).sites.len() - k,
{
    let sites = gather_plan_spec(t).sites;
    lemma_gather_plan_valid(t);
    lemma_place_decreases(t, sites[k]);
    let (acc1, fault) = gather_spec(sites[k].of(t), defs, seen, acc);
    if refers(sites[k].of(t), ring[j]) {
        lemma_inside_marked(sites[k].of(t), defs, seen, acc, ring, j, name);
        lemma_gather_from_grows(t, k + 1, defs, seen, acc1);
    } else {
        lemma_inside_marked_from(t, k + 1, defs, seen, acc1, ring, j, name);
    }
}

/// Whether a walk from `t`, inside the definitions `seen`, goes into the
/// definition `name` at some reference to it.
pub open spec fn enters(t: Tree, defs: Entries, seen: Set<Seq<char>>, name: Seq<char>) -> bool
    decreases idle(defs, seen), t, 1int, 0int,
{
    match tag_of(t) {
        Err(_) => false,
        Ok(tag) => if tag != "definition-ref"@ {
            enters_from(t, 0, defs, seen, name)
        } else {
            match schema_ref_of(t) {
                Err(_) => false,
                Ok(r) => if seen.contains(r) {
                    enters_from(t, 0, defs, seen, name)
                } else {
                    match lookup(defs, r) {
                        None => enters_from(t, 0, defs, seen, name),
                        Some(target) => if !target.is_dict() {
                            false
                        } else {
                            proof {
                                lemma_enter_decreases(defs, seen, r);
                            }
                            r == name || enters(target, defs, seen.insert(r), name) || enters_from(
                                t,
                                0,
                                defs,
                                seen.insert(r),
                                name,
                            )
                        },
                    }
                },
            }
        },
    }
}

/// Whether a walk through the child schemas of `t` from the `k`-th on goes
/// into the definition `name`.
pub open spec fn enters_from(t: Tree, k: int, defs: Entries, seen: Set<Seq<char>>, name: Seq<char>) -> bool
    decreases idle(defs, seen), t, 0int, gather_plan_spec(t).sites.len() - k,
{
    let sites = gather_plan_spec(t).sites;
    if 0 <= k < sites.len() {
        proof {
            lemma_gather_plan_valid(t);
            lemma_place_decreases(t, sites[k]);
        }
        enters(sites[k].of(t), defs, seen, name) || enters_from(t, k + 1, defs, seen, name)
    } else {
        false
    }
}

/// A walk that gets through and holds a reference to a definition of the
/// table goes into that definition, unless it is inside it already.
pub proof fn lemma_reference_enters(
    t: Tree,
    defs: Entries,
    seen: Set<Seq<char>>,
    acc: Gathered,
    name: Seq<char>,
)
    requires
        refers(t, name),
        lookup(defs, name) is Some,
        gather_spec(t, defs, seen, acc).1 is None,
    ensures
        enters(t, defs, seen, name) || seen.contains(name),
    decreases idle(defs, seen), t, 2int, 0int,
{
    let tag = tag_of(t)->Ok_0;
    if tag != "definition-ref"@ {
        lemma_reference_enters_node(t, defs, seen, acc, name);
    } else {
        let r = schema_ref_of(t)->Ok_0;
        if seen.contains(r) {
            let acc1 = Gathered { recursive_refs: acc.recursive_refs.union(seen), ..acc };
            if r != name {
                lemma_reference_enters_node(t, defs, seen, acc1, name);
            }
        } else {
            let acc1 = Gathered { definition_refs: add_site(acc.definition_refs, r, t), ..acc };
            match lookup(defs, r) {
                None => {
                    lemma_reference_enters_node(t, defs, seen, acc1, name);
                },
                Some(target) => {
                    let inside = seen.insert(r);
                    lemma_enter_decreases(defs, seen, r);
                    let (acc2, fault) = gather_spec(target, defs, inside, acc1);
                    if r != name {
                        lemma_reference_enters_node(t, defs, inside, acc2, name);
                    }
                },
            }
        }
    }
}

/// The same, for a node below whose child schemas the reference stands.
pub proof fn lemma_reference_enters_node(
    t: Tree,
    defs: Entries,
    seen: Set<Seq<char>>,
    acc: Gathered,
    name: Seq<char>,
)
    requires
        refers_from(t, 0, name),
        lookup(defs, name) is Some,
        gather_node_spec(t, defs, seen, acc).1 is None,
    ensures
        enters_from(t, 0, defs, seen, name) || seen.contains(name),
    decreases idle(defs, seen), t, 1int, 0int,
{
    lemma_reference_enters_from(t, 0, defs, seen, acc, name);
}

/// The same, for the later child schemas of a node.
pub proof fn lemma_reference_enters_from(
    t: Tree,
    k: int,
    defs: Entries,
    seen: Set<Seq<char>>,
    acc: Gathered,
    name: Seq<char>,
)
    requires
        refers_from(t, k, name),
        lookup(defs, name) is Some,
        gather_from(t, k, defs, seen, acc).1 is None,
    ensures
        enters_from(t, k, defs, seen, name) || seen.contains(name),
    decreases idle(defs, seen), t, 0int, gather_plan_spec(t).sites.len() - k,
{
    let sites = gather_plan_spec(t).sites;
    lemma_gather_plan_valid(t);
    lemma_place_decreases(t, sites[k]);
    let (acc1, fault) = gather_spec(sites[k].of(t), defs, seen, acc);
    if refers(sites[k].of(t), name) {
        lemma_reference_enters(sites[k].of(t), defs, seen, acc, name);
    } else {
        lemma_reference_enters_from(t, k + 1, defs, seen, acc1, name);
    }
}

/// A walk that gets through and goes into a definition of a ring goes into
/// the next definition of the ring as well, unless it is inside it already.
pub proof fn lemma_enters_next(
    t: Tree,
    defs: Entries,
    seen: Set<Seq<char>>,
    acc: Gathered,
    ring: Seq<Seq<char>>,
    i: int,
)
    requires
        is_ring(defs, ring),
        0 <= i < ring.len(),
        enters(t, defs, seen, ring[i]),
        gather_spec(t, defs, seen, acc).1 is None,
    ensures
        enters(t, defs, seen, ring[next(ring.len() as int, i)]) || seen.contains(
            ring[next(ring.len() as int, i)],
        ),
    decreases idle(defs, seen), t, 2int, 0int,
{
    let tag = tag_of(t)->Ok_0;
    let after = ring[next(ring.len() as int, i)];
    assert(lookup(defs, ring[i]) is Some);
    if tag != "definition-ref"@ {
        lemma_enters_next_node(t, defs, seen, acc, ring, i);
    } else {
        let r = schema_ref_of(t)->Ok_0;
        if seen.contains(r) {
            let acc1 = Gathered { recursive_refs: acc.recursive_refs.union(seen), ..acc };
            lemma_enters_next_node(t, defs, seen, acc1, ring, i);
        } else {
            let acc1 = Gathered { definition_refs: add_site(acc.definition_refs, r, t), ..acc };
            match lookup(defs, r) {
                None => {
                    lemma_enters_next_node(t, defs, seen, acc1, ring, i);
                },
                Some(target) => {
                    let inside = seen.insert(r);
                    lemma_enter_decreases(defs, seen, r);
                    let (acc2, fault) = gather_spec(target, defs, inside, acc1);
                    if r == ring[i] {
                        assert(lookup(defs, after) is Some) by {
                            assert(lookup(defs, ring[next(ring.len() as int, i)]) is Some);
                        }
                        lemma_reference_enters(target, defs, inside, acc1, after);
                    } else if enters(target, defs, inside, ring[i]) {
                        lemma_enters_next(target, defs, inside, acc1, ring, i);
                    } else {
                        lemma_enters_next_node(t, defs, inside, acc2, ring, i);
                    }
                },
            }
        }
    }
}

/// The same, for a node through whose child schemas the walk goes into the
/// definition.
pub proof fn lemma_enters_next_node(
    t: Tree,
    defs: Entries,
    seen: Set<Seq<char>>,
    acc: Gathered,
    ring: Seq<Seq<char>>,
    i: int,
)
    requires
        is_ring(defs, ring),
        0 <= i < ring.len(),
        enters_from(t, 0, defs, seen, ring[i]),
        gather_node_spec(t, defs, seen, acc).1 is None,
    ensures
        enters_from(t, 0, defs, seen, ring[next(ring.len() as int, i)]) || seen.contains(
            ring[next(ring.len() as int, i)],
        ),
    decreases idle(defs, seen), t, 1int, 0int,
{
    lemma_enters_next_from(t, 0, defs, seen, acc, ring, i);
}

/// The same, for the later child schemas of a node.
pub proof fn lemma_enters_next_from(
    t: Tree,
    k: int,
    defs: Entries,
    seen: Set<Seq<char>>,
    acc: Gathered,
    ring: Seq<Seq<char>>,
    i: int,
)
    requires
        is_ring(defs, ring),
        0 <= i < ring.len(),
        enters_from(t, k, defs, seen, ring[i]),
        gather_from(t, k, defs, seen, acc).1 is None,
    ensures
        enters_from(t, k, defs, seen, ring[next(ring.len() as int, i)]) || seen.contains(
            ring[next(ring.len() as int, i)],
        ),
    decreases idle(defs, seen), t, 0int, gather_plan_spec(t).sites.len() - k,
{
    let sites = gather_plan_spec(t).sites;
    lemma_gather_plan_valid(t);
    lemma_place_decreases(t, sites[k]);
    let (acc1, fault) = gather_spec(sites[k].of(t), defs, seen, acc);
    if enters(sites[k].of(t), defs, seen, ring[i]) {
        lemma_enters_next(sites[k].of(t), defs, seen, acc, ring, i);
    } else {
        lemma_enters_next_from(t, k + 1, defs, seen, acc1, ring, i);
    }
}

/// A walk that gets through and goes into a definition of a ring reports that
/// definition as recursive.
pub proof fn lemma_entered_marked(
    t: Tree,
    defs: Entries,
    seen: Set<Seq<char>>,
    acc: Gathered,
    ring: Seq<Seq<char>>,
    i: int,
)
    requires
        is_ring(defs, ring),
        0 <= i < ring.len(),
        enters(t, defs, seen, ring[i]),
        gather_spec(t, defs, seen, acc).1 is None,
    ensures
        gather_spec(t, defs, seen, acc).0.recursive_refs.contains(ring[i]),
    decreases idle(defs, seen), t, 2int, 0int,
{
    let tag = tag_of(t)->Ok_0;
    assert(lookup(defs, ring[i]) is Some);
    if tag != "definition-ref"@ {
        lemma_entered_marked_node(t, defs, seen, acc, ring, i);
    } else {
        let r = schema_ref_of(t)->Ok_0;
        if seen.contains(r) {
            let acc1 = Gathered { recursive_refs: acc.recursive_refs.union(seen), ..acc };
            lemma_entered_marked_node(t, defs, seen, acc1, ring, i);
        } else {
            let acc1 = Gathered { definition_refs: add_site(acc.definition_refs, r, t), ..acc };
            match lookup(defs, r) {
                None => {
                    lemma_entered_marked_node(t, defs, seen, acc1, ring, i);
                },
                Some(target) => {
                    let inside = seen.insert(r);
                    lemma_enter_decreases(defs, seen, r);
                    let (acc2, fault) = gather_spec(target, defs, inside, acc1);
                    if r == ring[i] {
                        lemma_inside_marked(
                            target,
                            defs,
                            inside,
                            acc1,
                            ring,
                            next(ring.len() as int, i),
                            ring[i],
                        );
                        lemma_gather_node_grows(t, defs, inside, acc2);
                    } else if enters(target, defs, inside, ring[i]) {
                        lemma_entered_marked(target, defs, inside, acc1, ring, i);
                        lemma_gather_node_grows(t, defs, inside, acc2);
                    } else {
                        lemma_entered_marked_node(t, defs, inside, acc2, ring, i);
                    }
                },
            }
        }
    }
}

/// The same, for a node through whose child schemas the walk goes into the
/// definition.
pub proof fn lemma_entered_marked_node(
    t: Tree,
    defs: Entries,
    seen: Set<Seq<char>>,
    acc: Gathered,
    ring: Seq<Seq<char>>,
    i: int,
)
    requires
        is_ring(defs, ring),
        0 <= i < ring.len(),
        enters_from(t, 0, defs, seen, ring[i]),
        gather_node_spec(t, defs, seen, acc).1 is None,
    ensures
        gather_node_spec(t, defs, seen, acc).0.recursive_refs.contains(ring[i]),
    decreases idle(defs, seen), t, 1int, 0int,
{
    lemma_entered_marked_from(t, 0, defs, seen, acc, ring, i);
    lemma_meta_keeps(t, gather_from(t, 0, defs, seen, acc).0);
}

/// The same, for the later child schemas of a node.
pub proof fn lemma_entered_marked_from(
    t: Tree,
    k: int,
    defs: Entries,
    seen: Set<Seq<char>>,
    acc: Gathered,
    ring: Seq<Seq<char>>,
    i: int,
)
    requires
        is_ring(defs, ring),
        0 <= i < ring.len(),
        enters_from(t, k, defs, seen, ring[i]),
        gather_from(t, k, defs, seen, acc).1 is None,
    ensures
        gather_from(t, k, defs, seen, acc).0.recursive_refs.contains(ring[i]),
    decreases idle(defs, seen), t, 0int, gather_plan_spec(t).sites.len() - k,
{
    let sites = gather_plan_spec(t).sites;
    lemma_gather_plan_valid(t);
    lemma_place_decreases(t, sites[k]);
    let (acc1, fault) = gather_spec(sites[k].of(t), defs, seen, acc);
    if enters(sites[k].of(t), defs, seen, ring[i]) {
        lemma_entered_marked(sites[k].of(t), defs, seen, acc, ring, i);
        lemma_gather_from_grows(t, k + 1, defs, seen, acc1);
    } else {
        lemma_entered_marked_from(t, k + 1, defs, seen, acc1, ring, i);
    }
}

/// A walk from outside every definition that gets through and goes into one
/// definition of a ring goes into those that follow it up to the last.
pub proof fn lemma_enters_later(t: Tree, defs: Entries, ring: Seq<Seq<char>>, i: int, m: int)
    requires
        is_ring(defs, ring),
        0 <= i <= m < ring.len(),
        enters(t, defs, Set::empty(), ring[i]),
        gather_spec(t, defs, Set::empty(), Gathered::empty()).1 is None,
    ensures
        enters(t, defs, Set::empty(), ring[m]),
    decreases m - i,
{
    if i < m {
        lemma_enters_later(t, defs, ring, i, m - 1);
        lemma_enters_next(t, defs, Set::empty(), Gathered::empty(), ring, m - 1);
    }
}

/// A walk from outside every definition that gets through and goes into one
/// definition of a ring goes into every definition of the ring.
pub proof fn lemma_enters_all(t: Tree, defs: Entries, ring: Seq<Seq<char>>, i: int, m: int)
    requires
        is_ring(defs, ring),
        0 <= i < ring.len(),
        0 <= m < ring.len(),
        enters(t, defs, Set::empty(), ring[i]),
        gather_spec(t, defs, Set::empty(), Gathered::empty()).1 is None,
    ensures
        enters(t, defs, Set::empty(), ring[m]),
{
    let last = ring.len() - 1;
    if i <= m {
        lemma_enters_later(t, defs, ring, i, m);
    } else {
        lemma_enters_later(t, defs, ring, i, last);
        lemma_enters_next(t, defs, Set::empty(), Gathered::empty(), ring, last);
        lemma_enters_later(t, defs, ring, 0, m);
    }
}

/// Cycle detection: where definitions of the table refer to each other in a
/// ring, and the schema holds a reference to one of them, gathering that gets
/// through reports every definition of the ring as recursive.
pub proof fn lemma_ring_reported(
    schema: Value,
    definitions: Value,
    ring: Seq<Seq<char>>,
    i: int,
    m: int,
    ctx: GatherCtx,
)
    requires
        is_ring(definitions@.entries(), ring),
        0 <= i < ring.len(),
        0 <= m < ring.len(),
        refers(schema@, ring[i]),
        is_gathered(schema@, definitions@, Ok(ctx)),
    ensures
        ctx@.recursive_refs.contains(ring[m]),
{
    let defs = definitions@.entries();
    let none = Set::<Seq<char>>::empty();
    assert(lookup(defs, ring[i]) is Some);
    lemma_reference_enters(schema@, defs, none, Gathered::empty(), ring[i]);
    lemma_enters_all(schema@, defs, ring, i, m);
    lemma_entered_marked(schema@, defs, none, Gathered::empty(), ring, m);
}

} // verus!
