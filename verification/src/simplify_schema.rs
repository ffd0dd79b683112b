//! Simplifying references: definitions are lifted out of the tree into a table,
//! every node that bears a `ref` is replaced by a reference into that table,
//! and references that are used once outside any cycle may be inlined again.

use crate::collect::{invalid_schema, invalid_schema_spec, names_model, node_ref, ref_of};
use crate::inline_refs::{inline_spec, inline_visit};
use crate::ref_counts::{
    count_of, count_refs, count_refs_spec, counts_model, usage, Counts, RefCounts,
};
use crate::value::{
    entries_model, find_key, items_model, lemma_child_decreases, lemma_position_none, lookup,
    position, set_entry, store, str_eq, Entries, Tree, Value,
};
use crate::walk_core_schema::{
    lemma_place_decreases, lemma_position_in_range, lemma_recurse_valid, node_tag, put_site,
    recurse, recurse_spec, site_child, tag_of, SchemaError,
};
use vstd::prelude::*;

verus! {

/// The node that refers to the definition named `name` (model).
pub open spec fn definition_ref(name: Seq<char>) -> Tree {
    Tree::Dict(seq![("type"@, Tree::Str("definition-ref"@)), ("schema_ref"@, Tree::Str(name))])
}

/// The node that refers to the definition named `name`.
pub fn make_definition_ref(name: &str) -> (r: Value)
    ensures
        r@ == definition_ref(name@),
{
    let mut entries: Vec<(String, Value)> = Vec::new();
    entries.push(("type".to_owned(), Value::string("definition-ref")));
    entries.push(("schema_ref".to_owned(), Value::string(name)));
    let r = Value::Dict(entries);
    assert(r@->Dict_0 =~= definition_ref(name@)->Dict_0);
    r
}

/// Flattening one node: its child schemas are flattened in turn; then, if the
/// node bears a `ref` that the table holds, the table takes the node as it now
/// is, and a reference stands in its place. A `definitions` node is a fault.
///
/// The result is the node, the table and the fault that ended the pass, if any;
/// what was rewritten before a fault stays rewritten.
pub open spec fn flatten_spec(t: Tree, defs: Entries) -> (Tree, Entries, Option<SchemaError>)
    decreases t, 1int, 0int,
{
    match tag_of(t) {
        Err(e) => (t, defs, Some(e)),
        Ok(tag) => if tag == "definitions"@ {
            (t, defs, Some(SchemaError::UnexpectedDefinitions))
        } else {
            let (t1, defs1, fault) = flatten_from(t, 0, t, defs);
            if fault is Some {
                (t1, defs1, fault)
            } else if recurse_spec(t).failure is Some {
                (t1, defs1, recurse_spec(t).failure)
            } else {
                match ref_of(t1) {
                    Err(e) => (t1, defs1, Some(e)),
                    Ok(None) => (t1, defs1, None),
                    Ok(Some(name)) => if position(defs1, name) is Some {
                        (definition_ref(name), store(defs1, name, t1), None)
                    } else {
                        (t1, defs1, None)
                    },
                }
            }
        },
    }
}

/// Flattening the child schemas of `t` from the `k`-th on; `cur` is `t` with the
/// earlier ones already replaced.
pub open spec fn flatten_from(t: Tree, k: int, cur: Tree, defs: Entries) -> (
    Tree,
    Entries,
    Option<SchemaError>,
)
    decreases t, 0int, recurse_spec(t).sites.len() - k,
{
    let sites = recurse_spec(t).sites;
    if 0 <= k < sites.len() {
        proof {
            lemma_recurse_valid(t);
            lemma_place_decreases(t, sites[k]);
        }
        let (child, defs1, fault) = flatten_spec(sites[k].of(t), defs);
        let cur1 = sites[k].put(cur, child);
        if fault is Some {
            (cur1, defs1, fault)
        } else {
            flatten_from(t, k + 1, cur1, defs1)
        }
    } else {
        (cur, defs, None)
    }
}

/// Flattens one node against the table `all_defs` and returns the node that
/// takes its place, with the fault that ended the pass, if any.
pub fn _flatten_refs(schema: &Value, all_defs: &mut Vec<(String, Value)>) -> (r: (
    Value,
    Option<SchemaError>,
))
    ensures
        (r.0@, entries_model(final(all_defs)@), r.1) == flatten_spec(
            schema@,
            entries_model(old(all_defs)@),
        ),
    decreases schema@,
{
    let tag = match node_tag(schema) {
        Err(e) => {
            return (schema.deep_clone(), Some(e));
        },
        Ok(tag) => tag,
    };
    if str_eq(tag, "definitions") {
        return (schema.deep_clone(), Some(SchemaError::UnexpectedDefinitions));
    }
    let ghost defs0 = entries_model(all_defs@);
    let walk = recurse(schema);
    let mut out = schema.deep_clone();
    let mut k: usize = 0;
    while k < walk.sites.len()
        invariant
            k <= walk.sites.len(),
            walk@ == recurse_spec(schema@),
            walk@.valid(schema@),
            flatten_from(schema@, k as int, out@, entries_model(all_defs@)) == flatten_from(
                schema@,
                0,
                schema@,
                defs0,
            ),
            tag_of(schema@) == Ok::<Seq<char>, SchemaError>(tag@),
            tag@ != "definitions"@,
            defs0 == entries_model(old(all_defs)@),
        decreases walk.sites.len() - k,
    {
        let site = walk.sites[k];
        assert(walk@.sites[k as int] == site@);
        proof {
            lemma_place_decreases(schema@, site@);
        }
        let (child, fault) = _flatten_refs(site_child(schema, site), all_defs);
        out = put_site(out, site, child);
        if fault.is_some() {
            return (out, fault);
        }
        k += 1;
    }
    if walk.failure.is_some() {
        return (out, walk.failure);
    }
    let name = match node_ref(&out) {
        Err(e) => {
            return (out, Some(e));
        },
        Ok(None) => {
            return (out, None);
        },
        Ok(Some(name)) => name.to_owned(),
    };
    if find_key(all_defs, name.as_str()).is_some() {
        set_entry(all_defs, name.as_str(), out);
        (make_definition_ref(name.as_str()), None)
    } else {
        (out, None)
    }
}

/// Flattens a schema in place against the table `all_defs`: every node that
/// bears a `ref` held by the table is replaced by a reference to it, and the
/// table takes the node as it stood after its own children were flattened.
///
/// What was rewritten before a fault stays rewritten.
pub fn flatten_refs(schema: &mut Value, all_defs: &mut Vec<(String, Value)>) -> (r: Result<
    (),
    SchemaError,
>)
    ensures
        flatten_spec(old(schema)@, entries_model(old(all_defs)@)) == (
            final(schema)@,
            entries_model(final(all_defs)@),
            match r {
                Ok(_) => None::<SchemaError>,
                Err(e) => Some(e),
            },
        ),
{
    let (flat, fault) = _flatten_refs(schema, all_defs);
    *schema = flat;
    match fault {
        Some(e) => Err(e),
        None => Ok(()),
    }
}

/// A node that was met with a `ref` while definitions were lifted (model).
pub struct Registration {
    /// The `ref` under which the node is kept.
    pub name: Seq<char>,
    /// Whether the node is marked invalid.
    pub invalid: bool,
    /// The node, as it stands once everything below it has been lifted.
    pub node: Tree,
}

/// A node that was met with a `ref` while definitions were lifted.
pub struct Registered {
    /// The `ref` under which the node is kept.
    pub name: String,
    /// Whether the node is marked invalid.
    pub invalid: bool,
    /// The node, as it stands once everything below it has been lifted.
    pub node: Value,
}

impl View for Registered {
    type V = Registration;

    open spec fn view(&self) -> Registration {
        Registration { name: self.name@, invalid: self.invalid, node: self.node@ }
    }
}

/// The models of a sequence of registrations.
pub open spec fn registrations_model(found: Seq<Registered>) -> Seq<Registration> {
    found.map_values(|r: Registered| r@)
}

/// Lifting the definitions out of one node.
///
/// A `definitions` node gives way to its inner schema: each of its definitions
/// is lifted in turn and registered under its `ref`, then the children of the
/// inner schema are lifted. Any other node stays; if it bears a `ref` it is
/// registered, at the moment it is met, as it will stand once its children are
/// lifted.
///
/// The result is the node that takes the place of `t`, the registrations in
/// order, and the fault that ended the pass, if any.
pub open spec fn lift_spec(t: Tree) -> (Tree, Seq<Registration>, Option<SchemaError>)
    decreases t, 3int, 0int,
{
    match tag_of(t) {
        Err(e) => (t, Seq::empty(), Some(e)),
        Ok(tag) => if tag == "definitions"@ {
            lift_definitions_spec(t)
        } else {
            lift_node_spec(t)
        },
    }
}

/// Lifting a `definitions` node: its definitions are lifted and registered in
/// turn, then the children of its inner schema are lifted, and the inner
/// schema takes the node's place. An inner schema that is a `definitions`
/// node itself gives way in the same way.
pub open spec fn lift_definitions_spec(t: Tree) -> (Tree, Seq<Registration>, Option<SchemaError>)
    decreases t, 2int, 0int,
{
    match position(t.entries(), "definitions"@) {
        None => (t, Seq::empty(), Some(SchemaError::MissingKey)),
        Some(a) => if !(t.child(a) is List) {
            (t, Seq::empty(), Some(SchemaError::WrongType))
        } else {
            let (found, fault) = lift_entries_spec(t, a, 0);
            if fault is Some {
                (t, found, fault)
            } else {
                match position(t.entries(), "schema"@) {
                    None => (t, found, Some(SchemaError::MissingKey)),
                    Some(s) => if !t.child(s).is_dict() {
                        (t, found, Some(SchemaError::WrongType))
                    } else {
                        proof {
                            lemma_position_in_range(t.entries(), "schema"@);
                            lemma_child_decreases(t, s);
                        }
                        let (inner, more, later) = if tag_of(t.child(s)) == Ok::<
                            Seq<char>,
                            SchemaError,
                        >("definitions"@) {
                            lift_definitions_spec(t.child(s))
                        } else {
                            lift_children_spec(t.child(s))
                        };
                        (inner, found + more, later)
                    },
                }
            }
        },
    }
}

/// Lifting a node that is no `definitions` node: it is registered if it bears a
/// `ref`, and its children are lifted.
pub open spec fn lift_node_spec(t: Tree) -> (Tree, Seq<Registration>, Option<SchemaError>)
    decreases t, 2int, 0int,
{
    match ref_of(t) {
        Err(e) => (t, Seq::empty(), Some(e)),
        Ok(None) => lift_children_spec(t),
        Ok(Some(name)) => match invalid_schema_spec(t) {
            Err(e) => (t, Seq::empty(), Some(e)),
            Ok(invalid) => {
                let (node, below, fault) = lift_children_spec(t);
                (node, seq![Registration { name, invalid, node }] + below, fault)
            },
        },
    }
}

/// Lifting the definitions out of the child schemas of `t`, which itself stays.
pub open spec fn lift_children_spec(t: Tree) -> (Tree, Seq<Registration>, Option<SchemaError>)
    decreases t, 1int, 0int,
{
    let (node, found, fault) = lift_from(t, 0, t);
    (
        node,
        found,
        if fault is Some {
            fault
        } else {
            recurse_spec(t).failure
        },
    )
}

/// Lifting the child schemas of `t` from the `k`-th on; `cur` is `t` with the
/// earlier ones already replaced.
pub open spec fn lift_from(t: Tree, k: int, cur: Tree) -> (
    Tree,
    Seq<Registration>,
    Option<SchemaError>,
)
    decreases t, 0int, recurse_spec(t).sites.len() - k,
{
    let sites = recurse_spec(t).sites;
    if 0 <= k < sites.len() {
        proof {
            lemma_recurse_valid(t);
            lemma_place_decreases(t, sites[k]);
        }
        let (child, found, fault) = lift_spec(sites[k].of(t));
        let cur1 = sites[k].put(cur, child);
        if fault is Some {
            (cur1, found, fault)
        } else {
            let (node, more, later) = lift_from(t, k + 1, cur1);
            (node, found + more, later)
        }
    } else {
        (cur, Seq::empty(), None)
    }
}

/// Lifting the definitions of the `definitions` node `t` from the `j`-th on;
/// the list stands in entry `a`. Each must be a record with a `ref`; it is
/// lifted, then registered under that `ref`, after all that was met inside it.
pub open spec fn lift_entries_spec(t: Tree, a: int, j: int) -> (Seq<Registration>, Option<SchemaError>)
    decreases t, 0int, t.child(a).arity() - j,
{
    let list = t.child(a);
    if 0 <= a < t.arity() && 0 <= j < list.arity() {
        let entry = list.child(j);
        if !entry.is_dict() {
            (Seq::empty(), Some(SchemaError::WrongType))
        } else {
            match entry.get("ref"@) {
                None => (Seq::empty(), Some(SchemaError::MissingKey)),
                Some(Tree::Str(name)) => {
                    proof {
                        lemma_child_decreases(t, a);
                        lemma_child_decreases(list, j);
                    }
                    let (node, below, fault) = lift_spec(entry);
                    if fault is Some {
                        (below, fault)
                    } else {
                        match invalid_schema_spec(node) {
                            Err(e) => (below, Some(e)),
                            Ok(invalid) => {
                                let (rest, later) = lift_entries_spec(t, a, j + 1);
                                (below + seq![Registration { name, invalid, node }] + rest, later)
                            },
                        }
                    }
                },
                Some(_) => (Seq::empty(), Some(SchemaError::WrongType)),
            }
        }
    } else {
        (Seq::empty(), None)
    }
}

/// The two tables that the registrations from the `k`-th on leave behind: the
/// nodes not marked invalid, and those marked invalid. A `ref` stands where it
/// was first registered and holds what was registered last.
pub open spec fn tables_spec(found: Seq<Registration>, k: int, valid: Entries, invalid: Entries) -> (
    Entries,
    Entries,
)
    decreases found.len() - k,
{
    if 0 <= k < found.len() {
        let r = found[k];
        if r.invalid {
            tables_spec(found, k + 1, valid, store(invalid, r.name, r.node))
        } else {
            tables_spec(found, k + 1, store(valid, r.name, r.node), invalid)
        }
    } else {
        (valid, invalid)
    }
}

/// `base` after storing the entries of `over` from the `k`-th on, in order.
pub open spec fn overlay_spec(base: Entries, over: Entries, k: int) -> Entries
    decreases over.len() - k,
{
    if 0 <= k < over.len() {
        overlay_spec(store(base, over[k].0, over[k].1), over, k + 1)
    } else {
        base
    }
}

/// The table of definitions that the registrations leave behind: the nodes
/// marked invalid, overlaid by those that are not.
pub open spec fn merged_spec(found: Seq<Registration>) -> Entries {
    let (valid, invalid) = tables_spec(found, 0, Seq::empty(), Seq::empty());
    overlay_spec(invalid, valid, 0)
}

/// Collecting the references of a tree: the tree with its definitions lifted
/// out, the table of all definitions, and the fault that ended the pass, if any.
pub open spec fn collect_refs_spec(t: Tree) -> (Tree, Entries, Option<SchemaError>) {
    let (node, found, fault) = lift_spec(t);
    (node, merged_spec(found), fault)
}

/// Lifts the definitions of a `definitions` node, whose list stands in entry
/// `a`, and registers each under its `ref`.
fn lift_entries(schema: &Value, a: usize, list: &Vec<Value>, found: &mut Vec<Registered>) -> (fault:
    Option<SchemaError>)
    requires
        a < schema@.arity(),
        schema@.child(a as int) == Value::List(*list)@,
    ensures
        fault == lift_entries_spec(schema@, a as int, 0).1,
        fault is None ==> registrations_model(final(found)@) == registrations_model(old(found)@)
            + lift_entries_spec(schema@, a as int, 0).0,
    decreases schema@, 0int,
{
    let ghost t = schema@;
    let ghost start = registrations_model(found@);
    let mut j: usize = 0;
    while j < list.len()
        invariant
            j <= list.len(),
            t == schema@,
            0 <= a < t.arity(),
            t.child(a as int) == Value::List(*list)@,
            start == registrations_model(old(found)@),
            lift_entries_spec(t, a as int, j as int).1 == lift_entries_spec(t, a as int, 0).1,
            lift_entries_spec(t, a as int, 0).1 is None ==> registrations_model(found@)
                + lift_entries_spec(t, a as int, j as int).0 == start + lift_entries_spec(
                t,
                a as int,
                0,
            ).0,
        decreases list.len() - j,
    {
        let entry = &list[j];
        assert(entry@ == t.child(a as int).child(j as int));
        if !entry.is_dict() {
            return Some(SchemaError::WrongType);
        }
        let name = match entry.get("ref") {
            None => {
                return Some(SchemaError::MissingKey);
            },
            Some(Value::Str(name)) => name,
            Some(_) => {
                return Some(SchemaError::WrongType);
            },
        };
        proof {
            lemma_child_decreases(t, a as int);
            lemma_child_decreases(t.child(a as int), j as int);
        }
        let ghost before = registrations_model(found@);
        let (node, fault) = lift(entry, found);
        if fault.is_some() {
            return fault;
        }
        let invalid = match invalid_schema(&node) {
            Err(e) => {
                return Some(e);
            },
            Ok(invalid) => invalid,
        };
        let ghost below = lift_spec(entry@).1;
        let ghost mid = registrations_model(found@);
        let reg = Registered { name: name.clone(), invalid, node };
        let ghost r = reg@;
        found.push(reg);
        proof {
            assert(registrations_model(found@) =~= mid.push(r));
            let rest = lift_entries_spec(t, a as int, j as int + 1).0;
            assert(lift_entries_spec(t, a as int, j as int).0 == below + seq![r] + rest);
            assert(mid.push(r) + rest =~= before + (below + seq![r] + rest));
        }
        j += 1;
    }
    assert(lift_entries_spec(t, a as int, j as int).0 =~= Seq::<Registration>::empty());
    None
}

/// Lifts the definitions out of one node and appends what it registers to
/// `found`. Returns the node that takes its place, and the fault that ended the
/// pass, if any; after a fault neither the node nor `found` means anything.
pub fn lift(schema: &Value, found: &mut Vec<Registered>) -> (r: (Value, Option<SchemaError>))
    ensures
        r.1 == lift_spec(schema@).2,
        r.1 is None ==> r.0@ == lift_spec(schema@).0 && registrations_model(final(found)@)
            == registrations_model(old(found)@) + lift_spec(schema@).1,
    decreases schema@, 3int,
{
    match node_tag(schema) {
        Err(e) => (Value::Opaque(0), Some(e)),
        Ok(tag) => if str_eq(tag, "definitions") {
            lift_definitions(schema, found)
        } else {
            lift_node(schema, found)
        },
    }
}

/// Lifts a `definitions` node: registers its definitions and returns its inner
/// schema with the definitions below it lifted; an inner schema that is a
/// `definitions` node itself is lifted in turn.
pub fn lift_definitions(schema: &Value, found: &mut Vec<Registered>) -> (r: (
    Value,
    Option<SchemaError>,
))
    ensures
        r.1 == lift_definitions_spec(schema@).2,
        r.1 is None ==> r.0@ == lift_definitions_spec(schema@).0 && registrations_model(
            final(found)@,
        ) == registrations_model(old(found)@) + lift_definitions_spec(schema@).1,
    decreases schema@, 2int,
{
    let ghost t = schema@;
    let ghost start = registrations_model(found@);
    let entries = match schema {
        Value::Dict(entries) => entries,
        _ => {
            proof {
                lemma_position_none(t.entries(), "definitions"@);
            }
            return (Value::Opaque(0), Some(SchemaError::MissingKey));
        },
    };
    let a = match find_key(entries, "definitions") {
        None => {
            return (Value::Opaque(0), Some(SchemaError::MissingKey));
        },
        Some(a) => a,
    };
    let list = match &entries[a].1 {
        Value::List(list) => list,
        _ => {
            return (Value::Opaque(0), Some(SchemaError::WrongType));
        },
    };
    assert(t.child(a as int) == entries[a as int].1@);
    let fault = lift_entries(schema, a, list, found);
    if fault.is_some() {
        return (Value::Opaque(0), fault);
    }
    let s = match find_key(entries, "schema") {
        None => {
            return (Value::Opaque(0), Some(SchemaError::MissingKey));
        },
        Some(s) => s,
    };
    let inner = &entries[s].1;
    assert(inner@ == t.child(s as int));
    if !inner.is_dict() {
        return (Value::Opaque(0), Some(SchemaError::WrongType));
    }
    proof {
        lemma_child_decreases(t, s as int);
    }
    let nested = match node_tag(inner) {
        Ok(tag) => str_eq(tag, "definitions"),
        Err(_) => false,
    };
    let (node, fault) = if nested {
        lift_definitions(inner, found)
    } else {
        lift_children(inner, found)
    };
    proof {
        if fault is None {
            let first = lift_entries_spec(t, a as int, 0).0;
            let more = if nested {
                lift_definitions_spec(inner@).1
            } else {
                lift_children_spec(inner@).1
            };
            assert((start + first) + more =~= start + (first + more));
        }
    }
    (node, fault)
}

/// Lifts a node that is no `definitions` node: registers it if it bears a
/// `ref`, and lifts the definitions below it.
pub fn lift_node(schema: &Value, found: &mut Vec<Registered>) -> (r: (Value, Option<SchemaError>))
    ensures
        r.1 == lift_node_spec(schema@).2,
        r.1 is None ==> r.0@ == lift_node_spec(schema@).0 && registrations_model(final(found)@)
            == registrations_model(old(found)@) + lift_node_spec(schema@).1,
    decreases schema@, 2int,
{
    let ghost t = schema@;
    let ghost start = registrations_model(found@);
    let name = match node_ref(schema) {
        Err(e) => {
            return (Value::Opaque(0), Some(e));
        },
        Ok(None) => {
            return lift_children(schema, found);
        },
        Ok(Some(name)) => name,
    };
    let invalid = match invalid_schema(schema) {
        Err(e) => {
            return (Value::Opaque(0), Some(e));
        },
        Ok(invalid) => invalid,
    };
    let at = found.len();
    found.push(Registered { name: name.to_owned(), invalid, node: Value::Opaque(0) });
    let ghost held = registrations_model(found@);
    assert(held.len() == start.len() + 1 && start.len() == at);
    assert(forall|i: int| 0 <= i < start.len() ==> held[i] == start[i]);
    let (node, fault) = lift_children(schema, found);
    if fault.is_some() {
        return (node, fault);
    }
    assert(found.len() >= at + 1) by {
        assert(registrations_model(found@).len() == found.len());
        assert(held.len() == at + 1);
    }
    let reg = Registered { name: name.to_owned(), invalid, node: node.deep_clone() };
    let ghost r = reg@;
    let ghost full = registrations_model(found@);
    found.set(at, reg);
    proof {
        let below = lift_children_spec(t).1;
        assert(held.len() == start.len() + 1);
        assert(full == held + below);
        assert(registrations_model(found@) =~= full.update(at as int, r));
        assert forall|i: int| 0 <= i < full.len() && i != at implies full.update(at as int, r)[i] == (
        start + (seq![r] + below))[i] by {
            if i < at {
                assert(full[i] == held[i]);
            } else {
                assert(full[i] == below[i - held.len()]);
            }
        }
        assert(full.update(at as int, r) =~= start + (seq![r] + below));
    }
    (node, None)
}

/// Lifts the definitions out of the child schemas of a node, which itself stays.
pub fn lift_children(schema: &Value, found: &mut Vec<Registered>) -> (r: (
    Value,
    Option<SchemaError>,
))
    ensures
        r.1 == lift_children_spec(schema@).2,
        r.1 is None ==> r.0@ == lift_children_spec(schema@).0 && registrations_model(final(found)@)
            == registrations_model(old(found)@) + lift_children_spec(schema@).1,
    decreases schema@, 1int,
{
    let ghost t = schema@;
    let ghost start = registrations_model(found@);
    let walk = recurse(schema);
    let mut out = schema.deep_clone();
    let mut k: usize = 0;
    while k < walk.sites.len()
        invariant
            k <= walk.sites.len(),
            t == schema@,
            walk@ == recurse_spec(t),
            walk@.valid(t),
            start == registrations_model(old(found)@),
            lift_from(t, k as int, out@).2 == lift_from(t, 0, t).2,
            lift_from(t, 0, t).2 is None ==> lift_from(t, k as int, out@).0 == lift_from(t, 0, t).0
                && registrations_model(found@) + lift_from(t, k as int, out@).1 == start
                + lift_from(t, 0, t).1,
        decreases walk.sites.len() - k,
    {
        let site = walk.sites[k];
        assert(walk@.sites[k as int] == site@);
        proof {
            lemma_place_decreases(t, site@);
        }
        let ghost before = registrations_model(found@);
        let ghost cur = out@;
        let (child, fault) = lift(site_child(schema, site), found);
        if fault.is_some() {
            return (out, fault);
        }
        out = put_site(out, site, child);
        proof {
            let first = lift_spec(site@.of(t)).1;
            let rest = lift_from(t, k as int + 1, out@).1;
            assert(lift_from(t, k as int, cur).1 == first + rest);
            assert((before + first) + rest =~= before + (first + rest));
        }
        k += 1;
    }
    assert(lift_from(t, k as int, out@).1 =~= Seq::<Registration>::empty());
    assert(registrations_model(found@) =~= start + lift_from(t, 0, t).1);
    (out, walk.failure)
}

/// A table of definitions together with the schema it was collected from.
pub struct CollectedRefs {
    /// The schema, with its definitions lifted out.
    pub schema: Value,
    /// Every definition by its `ref`.
    pub all_defs: Vec<(String, Value)>,
}

/// Lifts the definitions out of a schema and gathers them, with every other
/// node that bears a `ref`, into one table. Where a `ref` was met both marked
/// invalid and not, the table holds the node that is not.
pub fn _collect_refs_and_clone(schema: &Value) -> (r: Result<CollectedRefs, SchemaError>)
    ensures
        match r {
            Ok(c) => collect_refs_spec(schema@) == (
                c.schema@,
                entries_model(c.all_defs@),
                None::<SchemaError>,
            ),
            Err(e) => collect_refs_spec(schema@).2 == Some(e),
        },
{
    let mut found: Vec<Registered> = Vec::new();
    assert(registrations_model(found@) =~= Seq::<Registration>::empty());
    let (node, fault) = lift(schema, &mut found);
    if let Some(e) = fault {
        return Err(e);
    }
    let ghost regs = lift_spec(schema@).1;
    assert(registrations_model(found@) =~= regs);
    let mut valid: Vec<(String, Value)> = Vec::new();
    let mut invalid: Vec<(String, Value)> = Vec::new();
    assert(entries_model(valid@) =~= Seq::empty());
    assert(entries_model(invalid@) =~= Seq::empty());
    let mut k: usize = 0;
    while k < found.len()
        invariant
            k <= found.len(),
            found.len() == regs.len(),
            forall|i: int| k <= i < found.len() ==> (#[trigger] found@[i])@ == regs[i],
            tables_spec(regs, k as int, entries_model(valid@), entries_model(invalid@))
                == tables_spec(regs, 0, Seq::empty(), Seq::empty()),
        decreases found.len() - k,
    {
        let mut reg = Registered { name: String::new(), invalid: false, node: Value::Opaque(0) };
        assert(found@[k as int]@ == regs[k as int]);
        found.set_and_swap(k, &mut reg);
        if reg.invalid {
            set_entry(&mut invalid, reg.name.as_str(), reg.node);
        } else {
            set_entry(&mut valid, reg.name.as_str(), reg.node);
        }
        k += 1;
    }
    let ghost over = entries_model(valid@);
    let ghost base = entries_model(invalid@);
    let mut i: usize = 0;
    while i < valid.len()
        invariant
            i <= valid.len(),
            valid.len() == over.len(),
            forall|j: int|
                i <= j < valid.len() ==> (#[trigger] valid@[j]).0@ == over[j].0 && valid@[j].1@
                    == over[j].1,
            overlay_spec(entries_model(invalid@), over, i as int) == overlay_spec(base, over, 0),
        decreases valid.len() - i,
    {
        let mut entry = (String::new(), Value::Opaque(0));
        assert(valid@[i as int].0@ == over[i as int].0);
        valid.set_and_swap(i, &mut entry);
        set_entry(&mut invalid, entry.0.as_str(), entry.1);
        i += 1;
    }
    Ok(CollectedRefs { schema: node, all_defs: invalid })
}

/// Lifts the definitions out of a schema and returns it with the table of all
/// its definitions.
///
/// Fails on the first structural fault met: a node without a `type`, a child
/// that is not shaped as its place demands, a definition without a `ref`.
pub fn collect_refs(schema: &Value) -> (r: Result<CollectedRefs, SchemaError>)
    ensures
        match r {
            Ok(c) => collect_refs_spec(schema@) == (
                c.schema@,
                entries_model(c.all_defs@),
                None::<SchemaError>,
            ),
            Err(e) => collect_refs_spec(schema@).2 == Some(e),
        },
{
    _collect_refs_and_clone(schema)
}

/// The schema wrapped with its definitions, or alone where there are none.
pub open spec fn make_definitions_result_spec(schema: Tree, definitions: Seq<Tree>) -> Tree {
    if definitions.len() > 0 {
        Tree::Dict(
            seq![
                ("type"@, Tree::Str("definitions"@)),
                ("schema"@, schema),
                ("definitions"@, Tree::List(definitions)),
            ],
        )
    } else {
        schema
    }
}

/// Wraps a schema with its definitions into a `definitions` node; where there
/// are no definitions, the schema comes back as it is.
pub fn make_definitions_result(schema: Value, definitions: Vec<Value>) -> (r: Value)
    ensures
        r@ == make_definitions_result_spec(schema@, items_model(definitions@)),
{
    if definitions.len() > 0 {
        let ghost s = schema@;
        let ghost d = items_model(definitions@);
        let mut entries: Vec<(String, Value)> = Vec::new();
        entries.push(("type".to_owned(), Value::string("definitions")));
        entries.push(("schema".to_owned(), schema));
        entries.push(("definitions".to_owned(), Value::List(definitions)));
        let ghost e = entries_model(entries@);
        assert(e.len() == 3);
        assert(e[0] == ("type"@, Tree::Str("definitions"@)));
        assert(e[1] == ("schema"@, s));
        assert(e[2] == ("definitions"@, Tree::List(d)));
        let r = Value::Dict(entries);
        assert(r@->Dict_0 =~= make_definitions_result_spec(s, d)->Dict_0);
        r
    } else {
        schema
    }
}

/// Flattening the definition kept under `key`: the table takes it with its
/// children flattened. Should the definition bear another `ref` than `key`, the
/// table keeps under `key` what flattening left in its place.
pub open spec fn flatten_entry_spec(defs: Entries, key: Seq<char>) -> (Entries, Option<SchemaError>) {
    match lookup(defs, key) {
        None => (defs, Some(SchemaError::MissingKey)),
        Some(target) => if !target.is_dict() {
            (defs, Some(SchemaError::WrongType))
        } else {
            let (node, defs1, fault) = flatten_spec(target, defs);
            if fault is Some {
                (defs1, fault)
            } else if ref_of(target) == Ok::<Option<Seq<char>>, SchemaError>(Some(key)) {
                (defs1, None)
            } else {
                (store(defs1, key, node), None)
            }
        },
    }
}

/// Flattening the definitions kept under the keys from the `k`-th on, in turn.
pub open spec fn flatten_entries_spec(defs: Entries, keys: Seq<Seq<char>>, k: int) -> (
    Entries,
    Option<SchemaError>,
)
    decreases keys.len() - k,
{
    if 0 <= k < keys.len() {
        let (defs1, fault) = flatten_entry_spec(defs, keys[k]);
        if fault is Some {
            (defs1, fault)
        } else {
            flatten_entries_spec(defs1, keys, k + 1)
        }
    } else {
        (defs, None)
    }
}

/// The keys of a table, in order.
pub open spec fn key_names(defs: Entries) -> Seq<Seq<char>> {
    defs.map_values(|e: (Seq<char>, Tree)| e.0)
}

/// The values of a table, in order.
pub open spec fn table_values(defs: Entries) -> Seq<Tree> {
    defs.map_values(|e: (Seq<char>, Tree)| e.1)
}

/// The `ref` that a definition must bear.
pub open spec fn required_ref(t: Tree) -> Result<Seq<char>, SchemaError> {
    if !t.is_dict() {
        Err(SchemaError::WrongType)
    } else {
        match t.get("ref"@) {
            None => Err(SchemaError::MissingKey),
            Some(Tree::Str(name)) => Ok(name),
            Some(_) => Err(SchemaError::WrongType),
        }
    }
}

/// Those of the definitions from the `k`-th on that are still referred to,
/// added to `kept` in order, up to the first that bears no `ref`.
pub open spec fn kept_fold(defs: Entries, counts: Counts, k: int, kept: Seq<Tree>) -> (
    Seq<Tree>,
    Option<SchemaError>,
)
    decreases defs.len() - k,
{
    if 0 <= k < defs.len() {
        match required_ref(defs[k].1) {
            Err(e) => (kept, Some(e)),
            Ok(name) => kept_fold(
                defs,
                counts,
                k + 1,
                if usage(counts, name).ref_count > 0 {
                    kept.push(defs[k].1)
                } else {
                    kept
                },
            ),
        }
    } else {
        (kept, None)
    }
}

/// Simplifying the references of a schema.
///
/// The definitions are lifted out and gathered with every node that bears a
/// `ref`; the schema and then each definition are flattened against that
/// table. Without `inline`, the schema comes back wrapped with all definitions.
/// With `inline`, the references are counted, those used at most once outside
/// any cycle are inlined, and the schema comes back wrapped with the
/// definitions that are still referred to.
pub open spec fn simplify_spec(t: Tree, inline: bool) -> Result<Tree, SchemaError> {
    let (root, defs, fault) = collect_refs_spec(t);
    if fault is Some {
        Err(fault->0)
    } else {
        let (root1, defs1, fault1) = flatten_spec(root, defs);
        if fault1 is Some {
            Err(fault1->0)
        } else {
            simplify_tail(root1, defs1, inline)
        }
    }
}

/// Flattens the definition kept under `key` against the table it stands in.
pub fn flatten_entry(all_defs: &mut Vec<(String, Value)>, key: &str) -> (fault: Option<SchemaError>)
    ensures
        (entries_model(final(all_defs)@), fault) == flatten_entry_spec(
            entries_model(old(all_defs)@),
            key@,
        ),
{
    let i = match find_key(all_defs, key) {
        None => {
            return Some(SchemaError::MissingKey);
        },
        Some(i) => i,
    };
    if !all_defs[i].1.is_dict() {
        return Some(SchemaError::WrongType);
    }
    let target = all_defs[i].1.deep_clone();
    let own = match node_ref(&target) {
        Ok(Some(name)) => str_eq(name, key),
        _ => false,
    };
    let (node, fault) = _flatten_refs(&target, all_defs);
    if fault.is_some() {
        return fault;
    }
    if !own {
        set_entry(all_defs, key, node);
    }
    None
}

/// The keys of a table, in order.
pub fn table_keys(all_defs: &Vec<(String, Value)>) -> (r: Vec<String>)
    ensures
        names_model(r@) == key_names(entries_model(all_defs@)),
{
    let mut keys: Vec<String> = Vec::new();
    let mut i: usize = 0;
    while i < all_defs.len()
        invariant
            i <= all_defs.len(),
            keys.len() == i,
            forall|j: int| 0 <= j < i ==> (#[trigger] keys@[j])@ == all_defs@[j].0@,
        decreases all_defs.len() - i,
    {
        keys.push(all_defs[i].0.clone());
        i += 1;
    }
    assert(names_model(keys@) =~= key_names(entries_model(all_defs@)));
    keys
}

/// The values of a table, in order.
pub fn into_values(all_defs: Vec<(String, Value)>) -> (r: Vec<Value>)
    ensures
        items_model(r@) == table_values(entries_model(all_defs@)),
{
    let ghost model = entries_model(all_defs@);
    let mut all_defs = all_defs;
    let mut values: Vec<Value> = Vec::new();
    let mut i: usize = 0;
    while i < all_defs.len()
        invariant
            i <= all_defs.len(),
            values.len() == i,
            all_defs.len() == model.len(),
            forall|j: int| 0 <= j < i ==> (#[trigger] values@[j])@ == model[j].1,
            forall|j: int| i <= j < all_defs.len() ==> (#[trigger] all_defs@[j]).1@ == model[j].1,
        decreases all_defs.len() - i,
    {
        let mut entry = (String::new(), Value::Opaque(0));
        all_defs.set_and_swap(i, &mut entry);
        values.push(entry.1);
        i += 1;
    }
    assert(items_model(values@) =~= table_values(model));
    values
}

/// Copies of the definitions that are still referred to, in the order of the table.
pub fn kept_definitions(all_defs: &Vec<(String, Value)>, ref_counts: &Vec<(String, RefCounts)>) -> (r:
    Result<Vec<Value>, SchemaError>)
    ensures
        match r {
            Ok(kept) => kept_fold(
                entries_model(all_defs@),
                counts_model(ref_counts@),
                0,
                Seq::empty(),
            ) == (items_model(kept@), None::<SchemaError>),
            Err(e) => kept_fold(
                entries_model(all_defs@),
                counts_model(ref_counts@),
                0,
                Seq::empty(),
            ).1 == Some(e),
        },
{
    let ghost defs = entries_model(all_defs@);
    let ghost counts = counts_model(ref_counts@);
    let mut kept: Vec<Value> = Vec::new();
    assert(items_model(kept@) =~= Seq::<Tree>::empty());
    let mut k: usize = 0;
    while k < all_defs.len()
        invariant
            k <= all_defs.len(),
            defs == entries_model(all_defs@),
            counts == counts_model(ref_counts@),
            kept_fold(defs, counts, k as int, items_model(kept@)) == kept_fold(
                defs,
                counts,
                0,
                Seq::empty(),
            ),
        decreases all_defs.len() - k,
    {
        let definition = &all_defs[k].1;
        assert(definition@ == defs[k as int].1);
        if !definition.is_dict() {
            return Err(SchemaError::WrongType);
        }
        let name = match definition.get("ref") {
            None => {
                return Err(SchemaError::MissingKey);
            },
            Some(Value::Str(name)) => name,
            Some(_) => {
                return Err(SchemaError::WrongType);
            },
        };
        if count_of(ref_counts, name.as_str()).ref_count > 0 {
            let ghost before = items_model(kept@);
            kept.push(definition.deep_clone());
            assert(items_model(kept@) =~= before.push(definition@));
        }
        k += 1;
    }
    Ok(kept)
}

/// Flattens every definition of the table against the table, in the order of
/// the keys as they stand at the start.
pub fn flatten_entries(all_defs: &mut Vec<(String, Value)>) -> (fault: Option<SchemaError>)
    ensures
        (entries_model(final(all_defs)@), fault) == flatten_entries_spec(
            entries_model(old(all_defs)@),
            key_names(entries_model(old(all_defs)@)),
            0,
        ),
{
    let keys = table_keys(all_defs);
    let ghost defs1 = entries_model(all_defs@);
    let ghost names = key_names(defs1);
    let mut k: usize = 0;
    while k < keys.len()
        invariant
            k <= keys.len(),
            names_model(keys@) == names,
            defs1 == entries_model(old(all_defs)@),
            names == key_names(defs1),
            flatten_entries_spec(entries_model(all_defs@), names, k as int) == flatten_entries_spec(
                defs1,
                names,
                0,
            ),
        decreases keys.len() - k,
    {
        assert(names[k as int] == keys@[k as int]@);
        let fault = flatten_entry(all_defs, keys[k].as_str());
        if fault.is_some() {
            return fault;
        }
        k += 1;
    }
    None
}

/// Finishes simplifying once the schema `root` has been flattened against
/// the table `all_defs`.
pub fn simplify_flattened(root: Value, all_defs: Vec<(String, Value)>, inline: bool) -> (r: Result<
    Value,
    SchemaError,
>)
    ensures
        match r {
            Ok(v) => simplify_tail(root@, entries_model(all_defs@), inline) == Ok::<
                Tree,
                SchemaError,
            >(v@),
            Err(e) => simplify_tail(root@, entries_model(all_defs@), inline) == Err::<
                Tree,
                SchemaError,
            >(e),
        },
{
    let mut all_defs = all_defs;
    if let Some(e) = flatten_entries(&mut all_defs) {
        return Err(e);
    }
    if !inline {
        return Ok(make_definitions_result(root, into_values(all_defs)));
    }
    let mut ref_counts = match count_refs(&root, &all_defs) {
        Err(e) => {
            return Err(e);
        },
        Ok(counts) => counts,
    };
    let (root, fault) = inline_visit(&root, &mut all_defs, &mut ref_counts);
    if let Some(e) = fault {
        return Err(e);
    }
    match kept_definitions(&all_defs, &ref_counts) {
        Err(e) => Err(e),
        Ok(kept) => Ok(make_definitions_result(root, kept)),
    }
}

/// Simplifies the references of a schema and returns the simplified schema.
///
/// Every node that bears a `ref` moves into the definitions and leaves a
/// reference behind; nested `definitions` nodes are lifted out. With `inline`,
/// a definition that is referred to at most once and lies on no cycle moves
/// back to where it is referred to. The result is wrapped in one `definitions`
/// node that lists the definitions left, unless none is left.
///
/// Fails on the first structural fault met.
pub fn simplify_schema_references(schema: &Value, inline: bool) -> (r: Result<Value, SchemaError>)
    ensures
        match r {
            Ok(v) => simplify_spec(schema@, inline) == Ok::<Tree, SchemaError>(v@),
            Err(e) => simplify_spec(schema@, inline) == Err::<Tree, SchemaError>(e),
        },
{
    let collected = match _collect_refs_and_clone(schema) {
        Err(e) => {
            return Err(e);
        },
        Ok(c) => c,
    };
    let mut all_defs = collected.all_defs;
    let (root, fault) = _flatten_refs(&collected.schema, &mut all_defs);
    if let Some(e) = fault {
        return Err(e);
    }
    simplify_flattened(root, all_defs, inline)
}

/// What simplifying comes to once the schema `root1` has been flattened
/// against the table `defs1`.
pub open spec fn simplify_tail(root1: Tree, defs1: Entries, inline: bool) -> Result<
    Tree,
    SchemaError,
> {
    let (defs2, fault2) = flatten_entries_spec(defs1, key_names(defs1), 0);
    if fault2 is Some {
        Err(fault2->0)
    } else if !inline {
        Ok(make_definitions_result_spec(root1, table_values(defs2)))
    } else {
        let (counts, fault3) = count_refs_spec(root1, defs2);
        if fault3 is Some {
            Err(fault3->0)
        } else {
            let r = inline_spec(root1, defs2, counts);
            if r.fault is Some {
                Err(r.fault->0)
            } else {
                let (kept, fault4) = kept_fold(r.defs, r.counts, 0, Seq::empty());
                if fault4 is Some {
                    Err(fault4->0)
                } else {
                    Ok(make_definitions_result_spec(r.node, kept))
                }
            }
        }
    }
}

} // verus!
