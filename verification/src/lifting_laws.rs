//! What lifting makes of a sound schema: a tree without `definitions` nodes,
//! and a registration for every node of it that bears a `ref`.

use crate::collect::{invalid_schema_spec, ref_of};
use crate::idempotence::{bare, bare_from, lemma_registered_concat, mentions, mentions_from};
use crate::simplify_laws::{bear_their_names, registered};
use crate::simplify_schema::{
    lift_children_spec, lift_definitions_spec, lift_entries_spec, lift_from, lift_node_spec,
    lift_spec, required_ref, Registration,
};
use crate::value::{
    lemma_child_decreases, lemma_position_is_first, lemma_position_none, position, Tree,
};
use crate::walk_core_schema::{
    lemma_place_decreases, lemma_recurse_valid, recurse_spec, tag_of, SchemaError,
};
use crate::walk_laws::lemma_replace_child;
use vstd::prelude::*;

verus! {

/// Whether a schema is sound: it can be walked without a fault, the metadata
/// of each of its nodes that bear a `ref` is a record, and each of its
/// `definitions` nodes holds definitions that bear a `ref` and are no
/// `definitions` nodes, and an inner schema that bears no `ref`, or is a sound
/// `definitions` node itself.
pub open spec fn sound(t: Tree) -> bool
    decreases t, 2int, 0int,
{
    match tag_of(t) {
        Err(_) => false,
        Ok(tag) => if tag == "definitions"@ {
            sound_definitions(t)
        } else {
            sound_node(t)
        },
    }
}

/// Whether a node that is no `definitions` node is sound.
pub open spec fn sound_node(t: Tree) -> bool
    decreases t, 1int, 0int,
{
    &&& tag_of(t) matches Ok(tag) && tag != "definitions"@
    &&& ref_of(t) is Ok
    &&& ref_of(t) matches Ok(Some(_)) ==> invalid_schema_spec(t) is Ok
    &&& recurse_spec(t).failure is None
    &&& sound_from(t, 0)
}

/// Whether the child schemas of `t` from the `k`-th on are sound.
pub open spec fn sound_from(t: Tree, k: int) -> bool
    decreases t, 0int, recurse_spec(t).sites.len() - k,
{
    let sites = recurse_spec(t).sites;
    if 0 <= k < sites.len() {
        proof {
            lemma_recurse_valid(t);
            lemma_place_decreases(t, sites[k]);
        }
        sound(sites[k].of(t)) && sound_from(t, k + 1)
    } else {
        true
    }
}

/// Whether a `definitions` node is sound.
pub open spec fn sound_definitions(t: Tree) -> bool
    decreases t, 1int, 0int,
{
    &&& position(t.entries(), "definitions"@) matches Some(a) && t.child(a) is List
        && sound_entries(t, a, 0)
    &&& position(t.entries(), "schema"@) matches Some(s) && ({
        let inner = t.child(s);
        &&& 0 <= s < t.arity()
        &&& ({
            proof {
                if 0 <= s < t.arity() {
                    lemma_child_decreases(t, s);
                }
            }
            if tag_of(inner) == Ok::<Seq<char>, SchemaError>("definitions"@) {
                inner.is_dict() && sound_definitions(inner)
            } else {
                ref_of(inner) == Ok::<Option<Seq<char>>, SchemaError>(None) && sound_node(inner)
            }
        })
    })
}

/// Whether the definitions of the `definitions` node `t` from the `j`-th on are
/// sound; the list stands in entry `a`.
pub open spec fn sound_entries(t: Tree, a: int, j: int) -> bool
    decreases t, 0int, t.child(a).arity() - j,
{
    let list = t.child(a);
    if 0 <= a < t.arity() && 0 <= j < list.arity() {
        let entry = list.child(j);
        proof {
            lemma_child_decreases(t, a);
            lemma_child_decreases(list, j);
        }
        &&& ref_of(entry) matches Ok(Some(_))
        &&& sound_node(entry)
        &&& sound_entries(t, a, j + 1)
    } else {
        true
    }
}

/// Whether every `ref` that a node of `node` bears is registered in `found`.
pub open spec fn contained(found: Seq<Registration>, node: Tree) -> bool {
    forall|name: Seq<char>| #[trigger] mentions(node, name) ==> registered(found, name)
}

/// Whether every registration holds a bare record that is marked as the
/// registration says, that bears the `ref` it is registered under, and all of
/// whose `ref`s are registered.
pub open spec fn complete(found: Seq<Registration>) -> bool {
    forall|k: int|
        0 <= k < found.len() ==> {
            &&& bare((#[trigger] found[k]).node)
            &&& invalid_schema_spec(found[k].node) == Ok::<bool, SchemaError>(found[k].invalid)
            &&& required_ref(found[k].node) == Ok::<Seq<char>, SchemaError>(found[k].name)
            &&& contained(found, found[k].node)
        }
}

/// What is contained in some registrations is contained in more.
pub proof fn lemma_contained_more(a: Seq<Registration>, b: Seq<Registration>, node: Tree)
    requires
        contained(a, node) || contained(b, node),
    ensures
        contained(a + b, node),
{
    assert forall|name: Seq<char>| #[trigger] mentions(node, name) implies registered(
        a + b,
        name,
    ) by {
        lemma_registered_concat(a, b, name);
    }
}

/// Two complete sequences of registrations are complete together.
pub proof fn lemma_complete_concat(a: Seq<Registration>, b: Seq<Registration>)
    requires
        complete(a),
        complete(b),
    ensures
        complete(a + b),
{
    let both = a + b;
    assert forall|k: int| 0 <= k < both.len() implies {
        &&& bare((#[trigger] both[k]).node)
        &&& invalid_schema_spec(both[k].node) == Ok::<bool, SchemaError>(both[k].invalid)
        &&& required_ref(both[k].node) == Ok::<Seq<char>, SchemaError>(both[k].name)
        &&& contained(both, both[k].node)
    } by {
        if k < a.len() {
            assert(both[k] == a[k]);
            lemma_contained_more(a, b, a[k].node);
        } else {
            assert(both[k] == b[k - a.len()]);
            lemma_contained_more(a, b, b[k - a.len()].node);
        }
    }
}

/// Complete registrations bear their names.
pub proof fn lemma_complete_bears(found: Seq<Registration>)
    requires
        complete(found),
    ensures
        bear_their_names(found),
{
    assert forall|k: int| 0 <= k < found.len() implies required_ref((#[trigger] found[k]).node)
        == Ok::<Seq<char>, SchemaError>(found[k].name) by {
        assert(bare(found[k].node));
    }
}

/// A node all of whose child schemas are bare has bare children.
pub proof fn lemma_bare_from_all(cur: Tree, k: int)
    requires
        0 <= k,
        forall|j: int|
            0 <= j < recurse_spec(cur).sites.len() ==> bare(
                (#[trigger] recurse_spec(cur).sites[j]).of(cur),
            ),
    ensures
        bare_from(cur, k),
    decreases recurse_spec(cur).sites.len() - k,
{
    if k < recurse_spec(cur).sites.len() {
        assert(bare(recurse_spec(cur).sites[k].of(cur)));
        lemma_bare_from_all(cur, k + 1);
    }
}

/// A `ref` that a node below the later children of a node bears is borne by a
/// node of one of those children.
pub proof fn lemma_mentions_some(t: Tree, k: int, name: Seq<char>)
    requires
        0 <= k,
        mentions_from(t, k, name),
    ensures
        exists|j: int|
            k <= j < recurse_spec(t).sites.len() && mentions(
                (#[trigger] recurse_spec(t).sites[j]).of(t),
                name,
            ),
    decreases recurse_spec(t).sites.len() - k,
{
    let sites = recurse_spec(t).sites;
    if mentions(sites[k].of(t), name) {
        assert(k <= k < sites.len() && mentions(sites[k].of(t), name));
    } else {
        lemma_mentions_some(t, k + 1, name);
        let j = choose|j: int| k + 1 <= j < sites.len() && mentions((#[trigger] sites[j]).of(t), name);
        assert(k <= j < sites.len() && mentions(sites[j].of(t), name));
    }
}

/// Whether `cur` is walked as `t` is, and bears the marks of `t`.
pub open spec fn alike(t: Tree, cur: Tree) -> bool {
    &&& recurse_spec(cur) == recurse_spec(t)
    &&& tag_of(cur) == tag_of(t)
    &&& ref_of(cur) == ref_of(t)
    &&& invalid_schema_spec(cur) == invalid_schema_spec(t)
}

/// Lifting the later children of a sound node gets through, leaves the node
/// with bare children in their places, and registers every node below them
/// that bears a `ref`.
pub proof fn lemma_sound_lift_from(t: Tree, k: int, cur: Tree)
    requires
        0 <= k,
        tag_of(t) matches Ok(tag) && tag != "definitions"@,
        sound_from(t, k),
        alike(t, cur),
        forall|j: int|
            k <= j < recurse_spec(t).sites.len() ==> (#[trigger] recurse_spec(t).sites[j]).of(cur)
                == recurse_spec(t).sites[j].of(t),
    ensures
        lift_from(t, k, cur).2 is None,
        alike(t, lift_from(t, k, cur).0),
        complete(lift_from(t, k, cur).1),
        forall|j: int|
            0 <= j < k && j < recurse_spec(t).sites.len() ==> (#[trigger] recurse_spec(
                t,
            ).sites[j]).of(lift_from(t, k, cur).0) == recurse_spec(t).sites[j].of(cur),
        forall|j: int|
            k <= j < recurse_spec(t).sites.len() ==> bare(
                (#[trigger] recurse_spec(t).sites[j]).of(lift_from(t, k, cur).0),
            ) && contained(
                lift_from(t, k, cur).1,
                recurse_spec(t).sites[j].of(lift_from(t, k, cur).0),
            ),
    decreases t, 0int, recurse_spec(t).sites.len() - k,
{
    let sites = recurse_spec(t).sites;
    if k < sites.len() {
        lemma_recurse_valid(t);
        lemma_place_decreases(t, sites[k]);
        let child = sites[k].of(t);
        lemma_sound_lift(child);
        let (c, first, fault) = lift_spec(child);
        let cur1 = sites[k].put(cur, c);
        lemma_replace_child(cur, k, c);
        assert forall|j: int| k + 1 <= j < sites.len() implies (#[trigger] sites[j]).of(cur1)
            == sites[j].of(t) by {
            assert(recurse_spec(cur).sites[j].of(cur1) == recurse_spec(cur).sites[j].of(cur));
        }
        lemma_sound_lift_from(t, k + 1, cur1);
        let (last, more, later) = lift_from(t, k + 1, cur1);
        lemma_complete_concat(first, more);
        assert forall|j: int| 0 <= j < k && j < sites.len() implies (#[trigger] sites[j]).of(last)
            == sites[j].of(cur) by {
            assert(sites[j].of(last) == sites[j].of(cur1));
            assert(recurse_spec(cur).sites[j].of(cur1) == recurse_spec(cur).sites[j].of(cur));
        }
        assert forall|j: int| k <= j < sites.len() implies bare((#[trigger] sites[j]).of(last))
            && contained(first + more, sites[j].of(last)) by {
            if j == k {
                assert(sites[k].of(last) == sites[k].of(cur1));
                lemma_contained_more(first, more, c);
            } else {
                lemma_contained_more(first, more, sites[j].of(last));
            }
        }
    } else {
        assert(complete(Seq::<Registration>::empty()));
    }
}

/// Lifting the children of a sound node that is no `definitions` node gets
/// through, leaves a bare node, and registers every node below it that bears
/// a `ref`.
pub proof fn lemma_sound_lift_children(t: Tree)
    requires
        sound_node(t),
    ensures
        lift_children_spec(t).2 is None,
        alike(t, lift_children_spec(t).0),
        bare(lift_children_spec(t).0),
        complete(lift_children_spec(t).1),
        forall|name: Seq<char>|
            #[trigger] mentions_from(lift_children_spec(t).0, 0, name) ==> registered(
                lift_children_spec(t).1,
                name,
            ),
    decreases t, 1int, 0int,
{
    lemma_sound_lift_from(t, 0, t);
    let (node, found, fault) = lift_from(t, 0, t);
    assert forall|j: int| 0 <= j < recurse_spec(node).sites.len() implies bare(
        (#[trigger] recurse_spec(node).sites[j]).of(node),
    ) by {
        assert(bare(recurse_spec(t).sites[j].of(node)));
    }
    lemma_bare_from_all(node, 0);
    assert forall|name: Seq<char>| #[trigger] mentions_from(node, 0, name) implies registered(
        found,
        name,
    ) by {
        lemma_mentions_some(node, 0, name);
        let j = choose|j: int|
            0 <= j < recurse_spec(node).sites.len() && mentions(
                (#[trigger] recurse_spec(node).sites[j]).of(node),
                name,
            );
        assert(contained(found, recurse_spec(t).sites[j].of(node)));
    }
}

/// Complete registrations stay complete with one more before them, if that
/// one is sound and all its `ref`s are registered.
pub proof fn lemma_complete_first(reg: Registration, below: Seq<Registration>)
    requires
        complete(below),
        bare(reg.node),
        invalid_schema_spec(reg.node) == Ok::<bool, SchemaError>(reg.invalid),
        required_ref(reg.node) == Ok::<Seq<char>, SchemaError>(reg.name),
        contained(seq![reg] + below, reg.node),
    ensures
        complete(seq![reg] + below),
{
    let first = seq![reg];
    let all = first + below;
    assert forall|k: int| 0 <= k < all.len() implies {
        &&& bare((#[trigger] all[k]).node)
        &&& invalid_schema_spec(all[k].node) == Ok::<bool, SchemaError>(all[k].invalid)
        &&& required_ref(all[k].node) == Ok::<Seq<char>, SchemaError>(all[k].name)
        &&& contained(all, all[k].node)
    } by {
        if k == 0 {
            assert(all[k] == reg);
        } else {
            assert(all[k] == below[k - 1]);
            lemma_contained_more(first, below, below[k - 1].node);
        }
    }
}

/// A node whose `ref` is registered first, and the `ref`s below whose children
/// are registered after it, has all its `ref`s registered.
pub proof fn lemma_contained_node(node: Tree, name: Seq<char>, reg: Registration, below: Seq<Registration>)
    requires
        ref_of(node) == Ok::<Option<Seq<char>>, SchemaError>(Some(name)),
        reg.name == name,
        forall|other: Seq<char>|
            #[trigger] mentions_from(node, 0, other) ==> registered(below, other),
    ensures
        contained(seq![reg] + below, node),
{
    let first = seq![reg];
    assert forall|other: Seq<char>| #[trigger] mentions(node, other) implies registered(
        first + below,
        other,
    ) by {
        lemma_registered_concat(first, below, other);
        if mentions_from(node, 0, other) {
            assert(registered(below, other));
        } else {
            assert(other == name);
            assert(first[0] == reg);
            assert(0 <= 0 < first.len() && first[0].name == other);
            assert(registered(first, other));
        }
    }
}

/// Lifting a sound node that is no `definitions` node gets through, leaves a
/// bare node, and registers every node of it that bears a `ref`.
pub proof fn lemma_sound_lift_node(t: Tree)
    requires
        sound_node(t),
    ensures
        lift_node_spec(t).2 is None,
        alike(t, lift_node_spec(t).0),
        bare(lift_node_spec(t).0),
        complete(lift_node_spec(t).1),
        contained(lift_node_spec(t).1, lift_node_spec(t).0),
    decreases t, 1int, 1int,
{
    lemma_sound_lift_children(t);
    let (node, below, fault) = lift_children_spec(t);
    if let Ok(Some(name)) = ref_of(t) {
        let reg = Registration { name, invalid: invalid_schema_spec(node)->Ok_0, node };
        if !node.is_dict() {
            lemma_position_none(node.entries(), "ref"@);
        }
        lemma_contained_node(node, name, reg, below);
        lemma_complete_first(reg, below);
        assert(lift_node_spec(t) == (node, seq![reg] + below, fault));
    } else {
        assert(lift_node_spec(t) == lift_children_spec(t));
        assert(ref_of(node) == Ok::<Option<Seq<char>>, SchemaError>(None));
        assert forall|other: Seq<char>| #[trigger] mentions(node, other) implies registered(
            below,
            other,
        ) by {
            assert(mentions_from(node, 0, other));
        }
    }
}

/// Lifting a sound schema gets through, leaves a bare tree, and registers
/// every node of that tree, and of every registered node, that bears a `ref`.
pub proof fn lemma_sound_lift(t: Tree)
    requires
        sound(t),
    ensures
        lift_spec(t).2 is None,
        bare(lift_spec(t).0),
        complete(lift_spec(t).1),
        contained(lift_spec(t).1, lift_spec(t).0),
        lift_spec(t).0.is_dict(),
    decreases t, 2int, 0int,
{
    let tag = tag_of(t)->Ok_0;
    if tag == "definitions"@ {
        lemma_sound_lift_definitions(t);
    } else {
        lemma_sound_lift_node(t);
    }
    if !lift_spec(t).0.is_dict() {
        lemma_position_none(lift_spec(t).0.entries(), "type"@);
    }
}

/// Lifting a sound `definitions` node gets through, leaves the bare inner
/// schema, and registers the definitions and every node that bears a `ref`.
pub proof fn lemma_sound_lift_definitions(t: Tree)
    requires
        sound_definitions(t),
    ensures
        lift_definitions_spec(t).2 is None,
        bare(lift_definitions_spec(t).0),
        complete(lift_definitions_spec(t).1),
        contained(lift_definitions_spec(t).1, lift_definitions_spec(t).0),
    decreases t, 1int, 0int,
{
    let a = position(t.entries(), "definitions"@)->0;
    let s = position(t.entries(), "schema"@)->0;
    lemma_position_is_first(t.entries(), "definitions"@);
    lemma_sound_lift_entries(t, a, 0);
    let (found, fault) = lift_entries_spec(t, a, 0);
    let inner = t.child(s);
    lemma_child_decreases(t, s);
    if tag_of(inner) == Ok::<Seq<char>, SchemaError>("definitions"@) {
        lemma_sound_lift_definitions(inner);
        let (node, more, later) = lift_definitions_spec(inner);
        lemma_complete_concat(found, more);
        lemma_contained_more(found, more, node);
    } else {
        lemma_sound_lift_children(inner);
        let (node, more, later) = lift_children_spec(inner);
        lemma_complete_concat(found, more);
        assert(ref_of(node) == Ok::<Option<Seq<char>>, SchemaError>(None));
        assert forall|name: Seq<char>| #[trigger] mentions(node, name) implies registered(
            found + more,
            name,
        ) by {
            assert(mentions_from(node, 0, name));
            lemma_registered_concat(found, more, name);
        }
        if !inner.is_dict() {
            lemma_position_none(inner.entries(), "type"@);
        }
    }
}

/// Lifting the definitions of a sound `definitions` node gets through and
/// registers them with every node of them that bears a `ref`.
pub proof fn lemma_sound_lift_entries(t: Tree, a: int, j: int)
    requires
        0 <= j,
        0 <= a < t.arity(),
        sound_entries(t, a, j),
    ensures
        lift_entries_spec(t, a, j).1 is None,
        complete(lift_entries_spec(t, a, j).0),
    decreases t, 0int, t.child(a).arity() - j,
{
    let list = t.child(a);
    if j < list.arity() {
        let entry = list.child(j);
        lemma_child_decreases(t, a);
        lemma_child_decreases(list, j);
        let name = ref_of(entry)->Ok_0->0;
        if !entry.is_dict() {
            lemma_position_none(entry.entries(), "ref"@);
        }
        lemma_sound_lift_node(entry);
        let (node, below, fault) = lift_spec(entry);
        let reg = Registration { name, invalid: invalid_schema_spec(node)->Ok_0, node };
        let own = seq![reg];
        if !node.is_dict() {
            lemma_position_none(node.entries(), "ref"@);
        }
        assert(complete(below + own)) by {
            let both = below + own;
            assert forall|k: int| 0 <= k < both.len() implies {
                &&& bare((#[trigger] both[k]).node)
                &&& invalid_schema_spec(both[k].node) == Ok::<bool, SchemaError>(both[k].invalid)
                &&& required_ref(both[k].node) == Ok::<Seq<char>, SchemaError>(both[k].name)
                &&& contained(both, both[k].node)
            } by {
                if k < below.len() {
                    assert(both[k] == below[k]);
                    lemma_contained_more(below, own, below[k].node);
                } else {
                    assert(both[k] == reg);
                    lemma_contained_more(below, own, node);
                }
            }
        }
        lemma_sound_lift_entries(t, a, j + 1);
        let (rest, later) = lift_entries_spec(t, a, j + 1);
        lemma_complete_concat(below + own, rest);
    } else {
        assert(complete(Seq::<Registration>::empty()));
    }
}

/// Whether a tree can be walked without a fault and holds no `definitions` node.
pub open spec fn free(t: Tree) -> bool
    decreases t, 1int, 0int,
{
    &&& tag_of(t) matches Ok(tag) && tag != "definitions"@
    &&& recurse_spec(t).failure is None
    &&& free_from(t, 0)
}

/// Whether the child schemas of `t` from the `k`-th on are free of
/// `definitions` nodes.
pub open spec fn free_from(t: Tree, k: int) -> bool
    decreases t, 0int, recurse_spec(t).sites.len() - k,
{
    let sites = recurse_spec(t).sites;
    if 0 <= k < sites.len() {
        proof {
            lemma_recurse_valid(t);
            lemma_place_decreases(t, sites[k]);
        }
        free(sites[k].of(t)) && free_from(t, k + 1)
    } else {
        true
    }
}

/// Whether every registered node is free of `definitions` nodes.
pub open spec fn all_free(found: Seq<Registration>) -> bool {
    forall|k: int| 0 <= k < found.len() ==> free((#[trigger] found[k]).node)
}

/// Registrations that are free of `definitions` nodes are so together.
pub proof fn lemma_all_free_concat(a: Seq<Registration>, b: Seq<Registration>)
    requires
        all_free(a),
        all_free(b),
    ensures
        all_free(a + b),
{
    let both = a + b;
    assert forall|k: int| 0 <= k < both.len() implies free((#[trigger] both[k]).node) by {
        if k < a.len() {
            assert(both[k] == a[k]);
        } else {
            assert(both[k] == b[k - a.len()]);
        }
    }
}

/// A node all of whose child schemas are free of `definitions` nodes has
/// children that are.
pub proof fn lemma_free_from_all(cur: Tree, k: int)
    requires
        0 <= k,
        forall|j: int|
            0 <= j < recurse_spec(cur).sites.len() ==> free(
                (#[trigger] recurse_spec(cur).sites[j]).of(cur),
            ),
    ensures
        free_from(cur, k),
    decreases recurse_spec(cur).sites.len() - k,
{
    if k < recurse_spec(cur).sites.len() {
        assert(free(recurse_spec(cur).sites[k].of(cur)));
        lemma_free_from_all(cur, k + 1);
    }
}

/// Lifting the later children of a node that gets through leaves them free of
/// `definitions` nodes, in their places.
pub proof fn lemma_lift_from_free(t: Tree, k: int, cur: Tree)
    requires
        0 <= k,
        tag_of(t) matches Ok(tag) && tag != "definitions"@,
        lift_from(t, k, cur).2 is None,
        recurse_spec(cur) == recurse_spec(t),
        tag_of(cur) == tag_of(t),
        forall|j: int|
            k <= j < recurse_spec(t).sites.len() ==> (#[trigger] recurse_spec(t).sites[j]).of(cur)
                == recurse_spec(t).sites[j].of(t),
    ensures
        recurse_spec(lift_from(t, k, cur).0) == recurse_spec(t),
        tag_of(lift_from(t, k, cur).0) == tag_of(t),
        all_free(lift_from(t, k, cur).1),
        forall|j: int|
            0 <= j < k && j < recurse_spec(t).sites.len() ==> (#[trigger] recurse_spec(
                t,
            ).sites[j]).of(lift_from(t, k, cur).0) == recurse_spec(t).sites[j].of(cur),
        forall|j: int|
            k <= j < recurse_spec(t).sites.len() ==> free(
                (#[trigger] recurse_spec(t).sites[j]).of(lift_from(t, k, cur).0),
            ),
    decreases t, 0int, recurse_spec(t).sites.len() - k,
{
    let sites = recurse_spec(t).sites;
    if k < sites.len() {
        lemma_recurse_valid(t);
        lemma_place_decreases(t, sites[k]);
        let child = sites[k].of(t);
        let (c, first, fault) = lift_spec(child);
        assert(fault is None);
        lemma_lift_free(child);
        if !c.is_dict() {
            lemma_position_none(c.entries(), "type"@);
        }
        let cur1 = sites[k].put(cur, c);
        lemma_replace_child(cur, k, c);
        assert forall|j: int| k + 1 <= j < sites.len() implies (#[trigger] sites[j]).of(cur1)
            == sites[j].of(t) by {
            assert(recurse_spec(cur).sites[j].of(cur1) == recurse_spec(cur).sites[j].of(cur));
        }
        lemma_lift_from_free(t, k + 1, cur1);
        let (last, more, later) = lift_from(t, k + 1, cur1);
        lemma_all_free_concat(first, more);
        assert forall|j: int| 0 <= j < k && j < sites.len() implies (#[trigger] sites[j]).of(last)
            == sites[j].of(cur) by {
            assert(sites[j].of(last) == sites[j].of(cur1));
            assert(recurse_spec(cur).sites[j].of(cur1) == recurse_spec(cur).sites[j].of(cur));
        }
        assert forall|j: int| k <= j < sites.len() implies free((#[trigger] sites[j]).of(last)) by {
            if j == k {
                assert(sites[k].of(last) == sites[k].of(cur1));
            }
        }
    } else {
        assert(all_free(Seq::<Registration>::empty()));
    }
}

/// Lifting the children of a node that is no `definitions` node, if it gets
/// through, leaves a node free of `definitions` nodes.
pub proof fn lemma_lift_children_free(t: Tree)
    requires
        tag_of(t) != Ok::<Seq<char>, SchemaError>("definitions"@),
        lift_children_spec(t).2 is None,
    ensures
        free(lift_children_spec(t).0),
        all_free(lift_children_spec(t).1),
    decreases t, 1int, 0int,
{
    lemma_lift_from_free(t, 0, t);
    let (node, found, fault) = lift_from(t, 0, t);
    assert forall|j: int| 0 <= j < recurse_spec(node).sites.len() implies free(
        (#[trigger] recurse_spec(node).sites[j]).of(node),
    ) by {
        assert(free(recurse_spec(t).sites[j].of(node)));
    }
    lemma_free_from_all(node, 0);
}

/// Extraction leaves no `definitions` node: where lifting gets through, neither
/// the tree that comes back nor any node that was registered holds a
/// `definitions` node among its child schemas, and all can be walked without a
/// fault.
pub proof fn lemma_lift_free(t: Tree)
    requires
        lift_spec(t).2 is None,
    ensures
        free(lift_spec(t).0),
        all_free(lift_spec(t).1),
    decreases t, 3int, 0int,
{
    let tag = tag_of(t)->Ok_0;
    if tag == "definitions"@ {
        lemma_lift_definitions_free(t);
    } else {
        lemma_lift_children_free(t);
        let (node, below, fault) = lift_children_spec(t);
        if let Ok(Some(name)) = ref_of(t) {
            let first = seq![Registration { name, invalid: invalid_schema_spec(t)->Ok_0, node }];
            assert(all_free(first)) by {
                assert forall|k: int| 0 <= k < first.len() implies free((#[trigger] first[k]).node) by {
                    assert(first[k].node == node);
                }
            }
            lemma_all_free_concat(first, below);
        }
    }
}

/// Lifting a `definitions` node, if it gets through, leaves a tree free of
/// `definitions` nodes.
pub proof fn lemma_lift_definitions_free(t: Tree)
    requires
        lift_definitions_spec(t).2 is None,
    ensures
        free(lift_definitions_spec(t).0),
        all_free(lift_definitions_spec(t).1),
    decreases t, 2int, 0int,
{
    let a = position(t.entries(), "definitions"@)->0;
    let s = position(t.entries(), "schema"@)->0;
    lemma_position_is_first(t.entries(), "definitions"@);
    lemma_position_is_first(t.entries(), "schema"@);
    lemma_lift_entries_free(t, a, 0);
    let (found, fault) = lift_entries_spec(t, a, 0);
    let inner = t.child(s);
    lemma_child_decreases(t, s);
    if tag_of(inner) == Ok::<Seq<char>, SchemaError>("definitions"@) {
        lemma_lift_definitions_free(inner);
        lemma_all_free_concat(found, lift_definitions_spec(inner).1);
    } else {
        lemma_lift_children_free(inner);
        lemma_all_free_concat(found, lift_children_spec(inner).1);
    }
}

/// Lifting the definitions of a `definitions` node, if it gets through,
/// registers only nodes free of `definitions` nodes.
pub proof fn lemma_lift_entries_free(t: Tree, a: int, j: int)
    requires
        0 <= j,
        0 <= a < t.arity(),
        lift_entries_spec(t, a, j).1 is None,
    ensures
        all_free(lift_entries_spec(t, a, j).0),
    decreases t, 0int, t.child(a).arity() - j,
{
    let list = t.child(a);
    if j < list.arity() {
        let entry = list.child(j);
        lemma_child_decreases(t, a);
        lemma_child_decreases(list, j);
        let name = entry.get("ref"@)->0->Str_0;
        lemma_lift_free(entry);
        let (node, below, fault) = lift_spec(entry);
        let reg = Registration { name, invalid: invalid_schema_spec(node)->Ok_0, node };
        let own = seq![reg];
        assert(all_free(own)) by {
            assert forall|k: int| 0 <= k < own.len() implies free((#[trigger] own[k]).node) by {
                assert(own[k].node == node);
            }
        }
        lemma_all_free_concat(below, own);
        lemma_lift_entries_free(t, a, j + 1);
        lemma_all_free_concat(below + own, lift_entries_spec(t, a, j + 1).0);
    } else {
        assert(all_free(Seq::<Registration>::empty()));
    }
}

} // verus!
