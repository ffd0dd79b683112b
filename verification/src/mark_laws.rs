//! What holds of the marks under which definitions are registered: a node is
//! registered as invalid exactly when its own metadata marks it so, every node
//! that bears a `ref` is registered, and a `ref` that was registered for a node
//! without the mark is kept with such a node.

use crate::collect::{invalid_schema_spec, ref_of};
use crate::inline_laws::flattened_spec;
use crate::lifting_laws::{lemma_complete_bears, lemma_sound_lift, sound};
use crate::preservation::{is_payload, lemma_lift_preserves, preserved};
use crate::simplify_laws::{
    emitted_once, lemma_emitted_are_registered, lemma_no_lost_refs, lemma_valid_wins, registered,
};
use crate::simplify_schema::{
    lift_children_spec, lift_definitions_spec, lift_entries_spec, lift_from, lift_node_spec,
    lift_spec, make_definitions_result_spec, merged_spec, required_ref, simplify_spec,
    table_values, Registration,
};
use crate::value::{
    lemma_child_decreases, lemma_position_first, lemma_position_is_first, lemma_position_none,
    lookup, position, Tree,
};
use crate::walk_core_schema::{
    lemma_place_decreases, lemma_recurse_valid, recurse_spec, tag_of, SchemaError,
};
use crate::walk_laws::lemma_site_is_no_metadata;
use vstd::prelude::*;

verus! {

/// A node that is preserved keeps its metadata, and with it its mark.
pub proof fn lemma_preserved_keeps_mark(t: Tree, after: Tree)
    requires
        preserved(t, after),
    ensures
        after.get("metadata"@) == t.get("metadata"@),
        invalid_schema_spec(after) == invalid_schema_spec(t),
{
    lemma_position_is_first(t.entries(), "metadata"@);
    match position(t.entries(), "metadata"@) {
        Some(i) => {
            assert forall|j: int| 0 <= j < i implies (#[trigger] after.entries()[j]).0
                != "metadata"@ by {
                assert(t.entries()[j].0 != "metadata"@);
            }
            assert(after.entries()[i].0 == t.entries()[i].0);
            lemma_position_first(after.entries(), "metadata"@, i);
            assert(is_payload(t, i)) by {
                assert forall|k: int| 0 <= k < recurse_spec(t).sites.len() implies (
                #[trigger] recurse_spec(t).sites[k]).entry() != i by {
                    lemma_site_is_no_metadata(t, k);
                }
            }
            assert(after.entries()[i] == t.entries()[i]);
        },
        None => {
            assert forall|j: int| 0 <= j < after.entries().len() implies (
            #[trigger] after.entries()[j]).0 != "metadata"@ by {
                assert(t.entries()[j].0 != "metadata"@);
            }
            lemma_position_none(after.entries(), "metadata"@);
        },
    }
}

/// Whether each registration is marked invalid exactly when the metadata of
/// the node it holds marks that node invalid.
pub open spec fn truly_marked(found: Seq<Registration>) -> bool {
    forall|k: int|
        0 <= k < found.len() ==> invalid_schema_spec((#[trigger] found[k]).node) == Ok::<
            bool,
            SchemaError,
        >(found[k].invalid)
}

/// Registrations that are truly marked are so together.
pub proof fn lemma_truly_marked_concat(a: Seq<Registration>, b: Seq<Registration>)
    requires
        truly_marked(a),
        truly_marked(b),
    ensures
        truly_marked(a + b),
{
    let both = a + b;
    assert forall|k: int| 0 <= k < both.len() implies invalid_schema_spec(
        (#[trigger] both[k]).node,
    ) == Ok::<bool, SchemaError>(both[k].invalid) by {
        if k < a.len() {
            assert(both[k] == a[k]);
        } else {
            assert(both[k] == b[k - a.len()]);
        }
    }
}

/// Lifting marks truly: every node that lifting registers is registered as
/// invalid exactly when its own metadata marks it invalid.
pub proof fn lemma_lift_marks(t: Tree)
    ensures
        truly_marked(lift_spec(t).1),
    decreases t, 3int, 0int,
{
    match tag_of(t) {
        Err(_) => {},
        Ok(tag) => {
            if tag == "definitions"@ {
                lemma_lift_definitions_marks(t);
            } else {
                lemma_lift_node_marks(t);
            }
        },
    }
}

/// Lifting a `definitions` node marks truly.
pub proof fn lemma_lift_definitions_marks(t: Tree)
    ensures
        truly_marked(lift_definitions_spec(t).1),
    decreases t, 2int, 0int,
{
    if let Some(a) = position(t.entries(), "definitions"@) {
        if t.child(a) is List {
            lemma_lift_entries_marks(t, a, 0);
            let (found, fault) = lift_entries_spec(t, a, 0);
            if fault is None {
                if let Some(s) = position(t.entries(), "schema"@) {
                    if t.child(s).is_dict() {
                        lemma_position_is_first(t.entries(), "schema"@);
                        lemma_child_decreases(t, s);
                        let inner = t.child(s);
                        if tag_of(inner) == Ok::<Seq<char>, SchemaError>("definitions"@) {
                            lemma_lift_definitions_marks(inner);
                            lemma_truly_marked_concat(found, lift_definitions_spec(inner).1);
                        } else {
                            lemma_lift_children_marks(inner);
                            lemma_truly_marked_concat(found, lift_children_spec(inner).1);
                        }
                    }
                }
            }
        }
    }
}

/// Lifting a node that is no `definitions` node marks truly.
pub proof fn lemma_lift_node_marks(t: Tree)
    ensures
        truly_marked(lift_node_spec(t).1),
    decreases t, 2int, 0int,
{
    lemma_lift_children_marks(t);
    if let Ok(Some(name)) = ref_of(t) {
        if let Ok(invalid) = invalid_schema_spec(t) {
            let (node, below, fault) = lift_children_spec(t);
            lemma_lift_preserves(t);
            lemma_preserved_keeps_mark(t, node);
            let first = seq![Registration { name, invalid, node }];
            assert(truly_marked(first)) by {
                assert forall|k: int| 0 <= k < first.len() implies invalid_schema_spec(
                    (#[trigger] first[k]).node,
                ) == Ok::<bool, SchemaError>(first[k].invalid) by {
                    assert(first[k].node == node);
                }
            }
            lemma_truly_marked_concat(first, below);
        }
    }
}

/// Lifting the children of a node marks truly.
pub proof fn lemma_lift_children_marks(t: Tree)
    ensures
        truly_marked(lift_children_spec(t).1),
    decreases t, 1int, 0int,
{
    lemma_lift_from_marks(t, 0, t);
}

/// Lifting the later children of a node marks truly.
pub proof fn lemma_lift_from_marks(t: Tree, k: int, cur: Tree)
    ensures
        truly_marked(lift_from(t, k, cur).1),
    decreases t, 0int, recurse_spec(t).sites.len() - k,
{
    let sites = recurse_spec(t).sites;
    if 0 <= k < sites.len() {
        lemma_recurse_valid(t);
        lemma_place_decreases(t, sites[k]);
        lemma_lift_marks(sites[k].of(t));
        let (child, found, fault) = lift_spec(sites[k].of(t));
        if fault is None {
            let cur1 = sites[k].put(cur, child);
            lemma_lift_from_marks(t, k + 1, cur1);
            lemma_truly_marked_concat(found, lift_from(t, k + 1, cur1).1);
        }
    }
}

/// Lifting the definitions of a `definitions` node marks truly.
pub proof fn lemma_lift_entries_marks(t: Tree, a: int, j: int)
    ensures
        truly_marked(lift_entries_spec(t, a, j).0),
    decreases t, 0int, t.child(a).arity() - j,
{
    let list = t.child(a);
    if 0 <= a < t.arity() && 0 <= j < list.arity() {
        let entry = list.child(j);
        if entry.is_dict() {
            if let Some(Tree::Str(name)) = entry.get("ref"@) {
                lemma_child_decreases(t, a);
                lemma_child_decreases(list, j);
                lemma_lift_marks(entry);
                let (node, below, fault) = lift_spec(entry);
                if fault is None {
                    if let Ok(invalid) = invalid_schema_spec(node) {
                        lemma_lift_entries_marks(t, a, j + 1);
                        let (rest, later) = lift_entries_spec(t, a, j + 1);
                        let one = seq![Registration { name, invalid, node }];
                        assert(truly_marked(one)) by {
                            assert forall|k: int| 0 <= k < one.len() implies invalid_schema_spec(
                                (#[trigger] one[k]).node,
                            ) == Ok::<bool, SchemaError>(one[k].invalid) by {
                                assert(one[k].node == node);
                            }
                        }
                        lemma_truly_marked_concat(below, one);
                        lemma_truly_marked_concat(below + one, rest);
                    }
                }
            }
        }
    }
}

/// The valid one wins: where lifting registers under a `ref` a node whose
/// metadata does not mark it invalid, the table of definitions holds under
/// that `ref` a node that was registered under it and that is not marked
/// invalid, however many marked nodes bear the same `ref`, and wherever they
/// stand.
pub proof fn lemma_valid_definition_wins(root: Tree, j: int)
    requires
        0 <= j < lift_spec(root).1.len(),
        invalid_schema_spec(lift_spec(root).1[j].node) == Ok::<bool, SchemaError>(false),
    ensures
        lookup(merged_spec(lift_spec(root).1), lift_spec(root).1[j].name) matches Some(node)
            && invalid_schema_spec(node) == Ok::<bool, SchemaError>(false) && exists|k: int|
            0 <= k < lift_spec(root).1.len() && (#[trigger] lift_spec(root).1[k]).name
                == lift_spec(root).1[j].name && lift_spec(root).1[k].node == node,
{
    let found = lift_spec(root).1;
    let name = found[j].name;
    lemma_lift_marks(root);
    assert(!found[j].invalid);
    lemma_valid_wins(found, name);
    let node = lookup(merged_spec(found), name)->0;
    let k = choose|k: int|
        0 <= k < found.len() && (#[trigger] found[k]).name == name && found[k].node == node
            && !found[k].invalid;
    assert(invalid_schema_spec(found[k].node) == Ok::<bool, SchemaError>(found[k].invalid));
}

/// Whether a node of `t` bears the `ref` `name` and is marked as `invalid`
/// says. A `definitions` node and the inner schema of one are passed over, as
/// lifting passes them over; the nodes below them count.
pub open spec fn carries(t: Tree, name: Seq<char>, invalid: bool) -> bool
    decreases t, 3int, 0int,
{
    match tag_of(t) {
        Err(_) => false,
        Ok(tag) => if tag == "definitions"@ {
            carries_definitions(t, name, invalid)
        } else {
            carries_node(t, name, invalid)
        },
    }
}

/// Whether a node below the `definitions` node `t` bears the `ref` `name` with
/// the mark `invalid`.
pub open spec fn carries_definitions(t: Tree, name: Seq<char>, invalid: bool) -> bool
    decreases t, 2int, 0int,
{
    ||| position(t.entries(), "definitions"@) matches Some(a) && carries_entries(
        t,
        a,
        0,
        name,
        invalid,
    )
    ||| position(t.entries(), "schema"@) matches Some(s) && 0 <= s < t.arity() && ({
        let inner = t.child(s);
        proof {
            if 0 <= s < t.arity() {
                lemma_child_decreases(t, s);
            }
        }
        if tag_of(inner) == Ok::<Seq<char>, SchemaError>("definitions"@) {
            carries_definitions(inner, name, invalid)
        } else {
            carries_from(inner, 0, name, invalid)
        }
    })
}

/// Whether the node `t`, which is no `definitions` node, or a node below it
/// bears the `ref` `name` with the mark `invalid`.
pub open spec fn carries_node(t: Tree, name: Seq<char>, invalid: bool) -> bool
    decreases t, 2int, 0int,
{
    ||| ref_of(t) == Ok::<Option<Seq<char>>, SchemaError>(Some(name)) && invalid_schema_spec(t)
        == Ok::<bool, SchemaError>(invalid)
    ||| carries_from(t, 0, name, invalid)
}

/// Whether a node below the child schemas of `t` from the `k`-th on bears the
/// `ref` `name` with the mark `invalid`.
pub open spec fn carries_from(t: Tree, k: int, name: Seq<char>, invalid: bool) -> bool
    decreases t, 0int, recurse_spec(t).sites.len() - k,
{
    let sites = recurse_spec(t).sites;
    if 0 <= k < sites.len() {
        proof {
            lemma_recurse_valid(t);
            lemma_place_decreases(t, sites[k]);
        }
        carries(sites[k].of(t), name, invalid) || carries_from(t, k + 1, name, invalid)
    } else {
        false
    }
}

/// Whether a node of the definitions of the `definitions` node `t` from the
/// `j`-th on bears the `ref` `name` with the mark `invalid`; the list stands
/// in entry `a`.
pub open spec fn carries_entries(t: Tree, a: int, j: int, name: Seq<char>, invalid: bool) -> bool
    decreases t, 0int, t.child(a).arity() - j,
{
    let list = t.child(a);
    if 0 <= a < t.arity() && 0 <= j < list.arity() {
        proof {
            lemma_child_decreases(t, a);
            lemma_child_decreases(list, j);
        }
        carries(list.child(j), name, invalid) || carries_entries(t, a, j + 1, name, invalid)
    } else {
        false
    }
}

/// Whether `name` was registered with the mark `invalid`.
pub open spec fn registered_marked(found: Seq<Registration>, name: Seq<char>, invalid: bool) -> bool {
    exists|k: int|
        0 <= k < found.len() && (#[trigger] found[k]).name == name && found[k].invalid == invalid
}

/// What was registered in one of two sequences was registered in both together.
pub proof fn lemma_registered_marked_concat(
    a: Seq<Registration>,
    b: Seq<Registration>,
    name: Seq<char>,
    invalid: bool,
)
    requires
        registered_marked(a, name, invalid) || registered_marked(b, name, invalid),
    ensures
        registered_marked(a + b, name, invalid),
{
    let both = a + b;
    if registered_marked(a, name, invalid) {
        let k = choose|k: int|
            0 <= k < a.len() && (#[trigger] a[k]).name == name && a[k].invalid == invalid;
        assert(both[k] == a[k]);
    } else {
        let k = choose|k: int|
            0 <= k < b.len() && (#[trigger] b[k]).name == name && b[k].invalid == invalid;
        assert(both[a.len() + k] == b[k]);
    }
}

/// Every node that bears a `ref` is registered: where lifting gets through,
/// a `ref` that a node of the schema bears is registered with the mark of that
/// node.
pub proof fn lemma_carried_registered(t: Tree, name: Seq<char>, invalid: bool)
    requires
        lift_spec(t).2 is None,
        carries(t, name, invalid),
    ensures
        registered_marked(lift_spec(t).1, name, invalid),
    decreases t, 3int, 0int,
{
    let tag = tag_of(t)->Ok_0;
    if tag == "definitions"@ {
        lemma_carried_registered_definitions(t, name, invalid);
    } else {
        lemma_carried_registered_node(t, name, invalid);
    }
}

/// The same, below a `definitions` node.
pub proof fn lemma_carried_registered_definitions(t: Tree, name: Seq<char>, invalid: bool)
    requires
        lift_definitions_spec(t).2 is None,
        carries_definitions(t, name, invalid),
    ensures
        registered_marked(lift_definitions_spec(t).1, name, invalid),
    decreases t, 2int, 0int,
{
    let a = position(t.entries(), "definitions"@)->0;
    let s = position(t.entries(), "schema"@)->0;
    lemma_position_is_first(t.entries(), "definitions"@);
    lemma_position_is_first(t.entries(), "schema"@);
    let (found, fault) = lift_entries_spec(t, a, 0);
    let inner = t.child(s);
    lemma_child_decreases(t, s);
    let more = if tag_of(inner) == Ok::<Seq<char>, SchemaError>("definitions"@) {
        lift_definitions_spec(inner).1
    } else {
        lift_children_spec(inner).1
    };
    if carries_entries(t, a, 0, name, invalid) {
        lemma_carried_registered_entries(t, a, 0, name, invalid);
    } else if tag_of(inner) == Ok::<Seq<char>, SchemaError>("definitions"@) {
        lemma_carried_registered_definitions(inner, name, invalid);
    } else {
        lemma_carried_registered_from(inner, 0, inner, name, invalid);
    }
    lemma_registered_marked_concat(found, more, name, invalid);
}

/// The same, for a node that is no `definitions` node.
pub proof fn lemma_carried_registered_node(t: Tree, name: Seq<char>, invalid: bool)
    requires
        lift_node_spec(t).2 is None,
        carries_node(t, name, invalid),
    ensures
        registered_marked(lift_node_spec(t).1, name, invalid),
    decreases t, 2int, 0int,
{
    let (node, below, fault) = lift_children_spec(t);
    match ref_of(t) {
        Ok(Some(own)) => {
            let mark = invalid_schema_spec(t)->Ok_0;
            let first = seq![Registration { name: own, invalid: mark, node }];
            if carries_from(t, 0, name, invalid) {
                lemma_carried_registered_from(t, 0, t, name, invalid);
            } else {
                assert(first[0].name == name && first[0].invalid == invalid);
            }
            lemma_registered_marked_concat(first, below, name, invalid);
        },
        _ => {
            lemma_carried_registered_from(t, 0, t, name, invalid);
        },
    }
}

/// The same, below the later child schemas of a node.
pub proof fn lemma_carried_registered_from(t: Tree, k: int, cur: Tree, name: Seq<char>, invalid: bool)
    requires
        lift_from(t, k, cur).2 is None,
        carries_from(t, k, name, invalid),
    ensures
        registered_marked(lift_from(t, k, cur).1, name, invalid),
    decreases t, 0int, recurse_spec(t).sites.len() - k,
{
    let sites = recurse_spec(t).sites;
    lemma_recurse_valid(t);
    lemma_place_decreases(t, sites[k]);
    let (child, found, fault) = lift_spec(sites[k].of(t));
    let cur1 = sites[k].put(cur, child);
    let (node, more, later) = lift_from(t, k + 1, cur1);
    if carries(sites[k].of(t), name, invalid) {
        lemma_carried_registered(sites[k].of(t), name, invalid);
    } else {
        lemma_carried_registered_from(t, k + 1, cur1, name, invalid);
    }
    lemma_registered_marked_concat(found, more, name, invalid);
}

/// The same, below the definitions of a `definitions` node.
pub proof fn lemma_carried_registered_entries(t: Tree, a: int, j: int, name: Seq<char>, invalid: bool)
    requires
        lift_entries_spec(t, a, j).1 is None,
        carries_entries(t, a, j, name, invalid),
    ensures
        registered_marked(lift_entries_spec(t, a, j).0, name, invalid),
    decreases t, 0int, t.child(a).arity() - j,
{
    let list = t.child(a);
    let entry = list.child(j);
    lemma_child_decreases(t, a);
    lemma_child_decreases(list, j);
    let own = entry.get("ref"@)->0->Str_0;
    let (node, below, fault) = lift_spec(entry);
    let mark = invalid_schema_spec(node)->Ok_0;
    let (rest, later) = lift_entries_spec(t, a, j + 1);
    let one = seq![Registration { name: own, invalid: mark, node }];
    if carries(entry, name, invalid) {
        lemma_carried_registered(entry, name, invalid);
        lemma_registered_marked_concat(below, one, name, invalid);
    } else {
        lemma_carried_registered_entries(t, a, j + 1, name, invalid);
    }
    lemma_registered_marked_concat(below + one, rest, name, invalid);
}

/// The valid one wins, from the schema: where lifting gets through and some
/// node of the schema bears a `ref` and is not marked invalid, the table of
/// definitions holds under that `ref` a node that is not marked invalid,
/// whatever marked nodes bear the same `ref`, before it or after it.
pub proof fn lemma_unmarked_node_wins(root: Tree, name: Seq<char>)
    requires
        lift_spec(root).2 is None,
        carries(root, name, false),
    ensures
        lookup(merged_spec(lift_spec(root).1), name) matches Some(node) && invalid_schema_spec(node)
            == Ok::<bool, SchemaError>(false),
{
    let found = lift_spec(root).1;
    lemma_carried_registered(root, name, false);
    let j = choose|j: int|
        0 <= j < found.len() && (#[trigger] found[j]).name == name && found[j].invalid == false;
    lemma_lift_marks(root);
    lemma_valid_definition_wins(root, j);
}

/// Whether a node of `t` bears the `ref` `name`, marked or not.
pub open spec fn bears(t: Tree, name: Seq<char>) -> bool {
    carries(t, name, true) || carries(t, name, false)
}

/// Nothing is registered that no node bears: a `ref` that lifting registers
/// for a sound schema is borne by a node of the schema.
pub proof fn lemma_registered_carried(t: Tree, name: Seq<char>)
    requires
        sound(t),
        registered(lift_spec(t).1, name),
    ensures
        bears(t, name),
{
    let found = lift_spec(t).1;
    let k = choose|k: int| 0 <= k < found.len() && (#[trigger] found[k]).name == name;
    crate::lineage::lemma_registration_carried(t, k);
}

/// The definitions that come out are the `ref`s of the schema: where a sound
/// schema is simplified without inlining, a `ref` is the `ref` of one of the
/// definitions that come out, and of one only, exactly when a node of the
/// schema bears it; the `j`-th definition that comes out bears a `ref` that a
/// node of the schema bears; and where no node bears a `ref`, the flattened
/// schema comes out alone, without a wrapper.
pub proof fn lemma_refs_are_the_definitions(root: Tree, name: Seq<char>, j: int)
    requires
        sound(root),
    ensures
        simplify_spec(root, false) is Ok,
        bears(root, name) ==> emitted_once(simplify_spec(root, false)->Ok_0, name),
        0 <= j < flattened_spec(root).1.len() ==> required_ref(
            table_values(flattened_spec(root).1)[j],
        ) is Ok && bears(root, required_ref(table_values(flattened_spec(root).1)[j])->Ok_0),
        simplify_spec(root, false)->Ok_0 == make_definitions_result_spec(
            flattened_spec(root).0,
            table_values(flattened_spec(root).1),
        ),
        (forall|other: Seq<char>| !bears(root, other)) ==> simplify_spec(root, false)->Ok_0
            == flattened_spec(root).0,
{
    crate::idempotence::lemma_sound_simplified(root);
    lemma_sound_lift(root);
    let found = lift_spec(root).1;
    lemma_complete_bears(found);
    if bears(root, name) {
        let mark = carries(root, name, true);
        lemma_carried_registered(root, name, mark);
        let k = choose|k: int|
            0 <= k < found.len() && (#[trigger] found[k]).name == name && found[k].invalid == mark;
        assert(registered(found, name));
        lemma_no_lost_refs(root, name);
    }
    lemma_emitted_are_registered(root, j);
    if 0 <= j < flattened_spec(root).1.len() {
        let own = required_ref(table_values(flattened_spec(root).1)[j])->Ok_0;
        lemma_registered_carried(root, own);
    }
    if forall|other: Seq<char>| !bears(root, other) {
        if found.len() > 0 {
            assert(registered(found, found[0].name));
            lemma_registered_carried(root, found[0].name);
        }
    }
}

} // verus!
