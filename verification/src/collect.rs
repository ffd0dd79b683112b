//! Read-only traversals over one schema tree: the nodes in visiting order, and
//! what can be gathered from them (definitions by `ref`, `ref` names, nodes
//! marked invalid).

use crate::value::{entries_model, set_entry, store, str_eq, Entries, Tree, Value};
use crate::walk_core_schema::{
    lemma_place_decreases, lemma_recurse_valid, recurse, recurse_spec, site_child, SchemaError,
};
use vstd::prelude::*;

verus! {

/// The `ref` of a node: the string under `ref`, if there is one.
pub open spec fn ref_of(t: Tree) -> Result<Option<Seq<char>>, SchemaError> {
    match t.get("ref"@) {
        None => Ok(None),
        Some(Tree::Str(r)) => Ok(Some(r)),
        Some(_) => Err(SchemaError::WrongType),
    }
}

/// Whether a node is marked invalid: its `metadata` holds the key `invalid`.
pub open spec fn invalid_schema_spec(t: Tree) -> Result<bool, SchemaError> {
    match t.get("metadata"@) {
        None => Ok(false),
        Some(meta) => if meta.is_dict() {
            Ok(meta.has("invalid"@))
        } else {
            Err(SchemaError::WrongType)
        },
    }
}

/// The nodes of a tree in visiting order: a node, then what lies below each of
/// its child schemas in turn. The walk ends at the first structural fault, which
/// comes second.
pub open spec fn preorder_spec(t: Tree) -> (Seq<Tree>, Option<SchemaError>)
    decreases t, 1int, 0int,
{
    let (below, fault) = preorder_from(t, 0);
    (
        seq![t] + below,
        if fault is Some {
            fault
        } else {
            recurse_spec(t).failure
        },
    )
}

/// The nodes below the child schemas of `t` from the `k`-th on.
pub open spec fn preorder_from(t: Tree, k: int) -> (Seq<Tree>, Option<SchemaError>)
    decreases t, 0int, recurse_spec(t).sites.len() - k,
{
    let sites = recurse_spec(t).sites;
    if 0 <= k < sites.len() {
        proof {
            lemma_recurse_valid(t);
            lemma_place_decreases(t, sites[k]);
        }
        let (first, fault) = preorder_spec(sites[k].of(t));
        if fault is Some {
            (first, fault)
        } else {
            let (rest, later) = preorder_from(t, k + 1);
            (first + rest, later)
        }
    } else {
        (Seq::empty(), None)
    }
}

/// The models of a sequence of borrowed nodes.
pub open spec fn nodes_model(nodes: Seq<&Value>) -> Seq<Tree> {
    nodes.map_values(|v: &Value| v@)
}

/// The models of a sequence of owned nodes.
pub open spec fn values_model(nodes: Seq<Value>) -> Seq<Tree> {
    nodes.map_values(|v: Value| v@)
}

/// The models of a sequence of names.
pub open spec fn names_model(names: Seq<String>) -> Seq<Seq<char>> {
    names.map_values(|s: String| s@)
}

/// Appends to `out` the nodes of `schema` in visiting order and returns the
/// structural fault that ended the walk, if any.
pub fn preorder<'a>(schema: &'a Value, out: &mut Vec<&'a Value>) -> (fault: Option<SchemaError>)
    ensures
        nodes_model(final(out)@) == nodes_model(old(out)@) + preorder_spec(schema@).0,
        fault == preorder_spec(schema@).1,
    decreases schema@,
{
    let ghost start = nodes_model(out@);
    out.push(schema);
    assert(nodes_model(out@) =~= start + seq![schema@]);
    let walk = recurse(schema);
    let mut k: usize = 0;
    while k < walk.sites.len()
        invariant
            k <= walk.sites.len(),
            walk@ == recurse_spec(schema@),
            walk@.valid(schema@),
            start == nodes_model(old(out)@),
            preorder_from(schema@, k as int).1 == preorder_from(schema@, 0).1,
            nodes_model(out@) + preorder_from(schema@, k as int).0 == start + seq![schema@]
                + preorder_from(schema@, 0).0,
        decreases walk.sites.len() - k,
    {
        let site = walk.sites[k];
        assert(walk@.sites[k as int] == site@);
        proof {
            lemma_place_decreases(schema@, site@);
        }
        let ghost before = nodes_model(out@);
        let fault = preorder(site_child(schema, site), out);
        let ghost first = preorder_spec(site@.of(schema@)).0;
        if fault.is_some() {
            assert(preorder_from(schema@, k as int) == (first, fault));
            assert(nodes_model(out@) =~= start + (seq![schema@] + preorder_from(schema@, 0).0));
            return fault;
        }
        proof {
            let rest = preorder_from(schema@, k as int + 1).0;
            assert(preorder_from(schema@, k as int).0 == first + rest);
            assert((before + first) + rest =~= before + (first + rest));
        }
        k += 1;
    }
    assert(preorder_from(schema@, k as int).0 =~= Seq::<Tree>::empty());
    assert(nodes_model(out@) =~= start + (seq![schema@] + preorder_from(schema@, 0).0));
    walk.failure
}

/// `names` with `name` added at the end unless it is in it.
pub open spec fn with_name(names: Seq<Seq<char>>, name: Seq<char>) -> Seq<Seq<char>> {
    if names.contains(name) {
        names
    } else {
        names.push(name)
    }
}

/// The `ref` names of the nodes from the `k`-th on, added to `names` in order,
/// up to the first node whose `ref` is no string.
pub open spec fn ref_names_fold(nodes: Seq<Tree>, k: int, names: Seq<Seq<char>>) -> (
    Seq<Seq<char>>,
    Option<SchemaError>,
)
    decreases nodes.len() - k,
{
    if 0 <= k < nodes.len() {
        match ref_of(nodes[k]) {
            Err(e) => (names, Some(e)),
            Ok(None) => ref_names_fold(nodes, k + 1, names),
            Ok(Some(r)) => ref_names_fold(nodes, k + 1, with_name(names, r)),
        }
    } else {
        (names, None)
    }
}

/// The definitions among the nodes from the `k`-th on, stored into `defs` under
/// their `ref`, up to the first node whose `ref` is no string.
pub open spec fn definitions_fold(nodes: Seq<Tree>, k: int, defs: Entries) -> (
    Entries,
    Option<SchemaError>,
)
    decreases nodes.len() - k,
{
    if 0 <= k < nodes.len() {
        match ref_of(nodes[k]) {
            Err(e) => (defs, Some(e)),
            Ok(None) => definitions_fold(nodes, k + 1, defs),
            Ok(Some(r)) => definitions_fold(nodes, k + 1, store(defs, r, nodes[k])),
        }
    } else {
        (defs, None)
    }
}

/// Those of the nodes from the `k`-th on that are marked invalid, added to
/// `found`, up to the first node whose `metadata` is no record.
pub open spec fn invalid_fold(nodes: Seq<Tree>, k: int, found: Seq<Tree>) -> (
    Seq<Tree>,
    Option<SchemaError>,
)
    decreases nodes.len() - k,
{
    if 0 <= k < nodes.len() {
        match invalid_schema_spec(nodes[k]) {
            Err(e) => (found, Some(e)),
            Ok(false) => invalid_fold(nodes, k + 1, found),
            Ok(true) => invalid_fold(nodes, k + 1, found.push(nodes[k])),
        }
    } else {
        (found, None)
    }
}

/// What a collector returns: what it gathered from the nodes in visiting order,
/// and the fault that ended it: that of the first node it could not read, else
/// that of the walk.
pub open spec fn collected<T>(
    gathered: (T, Option<SchemaError>),
    fault: Option<SchemaError>,
) -> (T, Option<SchemaError>) {
    (
        gathered.0,
        if gathered.1 is Some {
            gathered.1
        } else {
            fault
        },
    )
}

/// The `ref` names in a tree, each once, in the order in which they are first met.
pub open spec fn collect_ref_names_spec(t: Tree) -> (Seq<Seq<char>>, Option<SchemaError>) {
    collected(ref_names_fold(preorder_spec(t).0, 0, Seq::empty()), preorder_spec(t).1)
}

/// The definitions in a tree by `ref`: a `ref` stands where it is first met and
/// holds the node that bears it last.
pub open spec fn collect_definitions_spec(t: Tree) -> (Entries, Option<SchemaError>) {
    collected(definitions_fold(preorder_spec(t).0, 0, Seq::empty()), preorder_spec(t).1)
}

/// The nodes of a tree that are marked invalid, in visiting order.
pub open spec fn collect_invalid_schemas_spec(t: Tree) -> (Seq<Tree>, Option<SchemaError>) {
    collected(invalid_fold(preorder_spec(t).0, 0, Seq::empty()), preorder_spec(t).1)
}

/// The `ref` of a node, if it has one.
pub fn node_ref(schema: &Value) -> (r: Result<Option<&str>, SchemaError>)
    ensures
        match r {
            Ok(Some(name)) => ref_of(schema@) == Ok::<Option<Seq<char>>, SchemaError>(Some(name@)),
            Ok(None) => ref_of(schema@) == Ok::<Option<Seq<char>>, SchemaError>(None),
            Err(e) => ref_of(schema@) == Err::<Option<Seq<char>>, SchemaError>(e),
        },
{
    match schema.get("ref") {
        None => Ok(None),
        Some(Value::Str(name)) => Ok(Some(name.as_str())),
        Some(_) => Err(SchemaError::WrongType),
    }
}

/// Whether a node is marked invalid: its `metadata` holds the key `invalid`.
/// A `metadata` that is no record is a fault.
pub fn invalid_schema(schema: &Value) -> (r: Result<bool, SchemaError>)
    ensures
        r == invalid_schema_spec(schema@),
{
    match schema.get("metadata") {
        None => Ok(false),
        Some(meta) => if meta.is_dict() {
            Ok(meta.get("invalid").is_some())
        } else {
            Err(SchemaError::WrongType)
        },
    }
}

/// Whether `name` is among `names`.
pub fn has_name(names: &Vec<String>, name: &str) -> (r: bool)
    ensures
        r == names_model(names@).contains(name@),
{
    let mut i: usize = 0;
    while i < names.len()
        invariant
            i <= names.len(),
            forall|j: int| 0 <= j < i ==> names_model(names@)[j] != name@,
        decreases names.len() - i,
    {
        if str_eq(names[i].as_str(), name) {
            assert(names_model(names@)[i as int] == name@);
            return true;
        }
        i += 1;
    }
    false
}

/// Collects the `ref` names in a schema tree, each once, in the order in which
/// they are first met.
///
/// Fails on the first node whose `ref` is no string, or else on the first
/// structural fault of the walk.
pub fn collect_ref_names(schema: &Value) -> (r: Result<Vec<String>, SchemaError>)
    ensures
        match r {
            Ok(names) => collect_ref_names_spec(schema@) == (names_model(names@), None::<SchemaError>),
            Err(e) => collect_ref_names_spec(schema@).1 == Some(e),
        },
{
    let mut nodes: Vec<&Value> = Vec::new();
    let fault = preorder(schema, &mut nodes);
    let ghost trees = preorder_spec(schema@).0;
    assert(nodes_model(nodes@) =~= trees);
    let mut names: Vec<String> = Vec::new();
    assert(names_model(names@) =~= Seq::<Seq<char>>::empty());
    let mut k: usize = 0;
    while k < nodes.len()
        invariant
            k <= nodes.len(),
            nodes_model(nodes@) == trees,
            trees == preorder_spec(schema@).0,
            ref_names_fold(trees, 0, Seq::empty()) == ref_names_fold(
                trees,
                k as int,
                names_model(names@),
            ),
        decreases nodes.len() - k,
    {
        assert(trees[k as int] == nodes@[k as int]@);
        let ghost before = names_model(names@);
        match node_ref(nodes[k]) {
            Err(e) => {
                assert(ref_names_fold(trees, k as int, before).1 == Some(e));
                return Err(e);
            },
            Ok(None) => {},
            Ok(Some(name)) => {
                if !has_name(&names, name) {
                    names.push(name.to_owned());
                    assert(names_model(names@) =~= before.push(name@));
                }
            },
        }
        k += 1;
    }
    match fault {
        Some(e) => Err(e),
        None => Ok(names),
    }
}

/// Collects the definitions in a schema tree by `ref`: each `ref` stands where
/// it is first met and holds a copy of the node that bears it last.
///
/// Fails on the first node whose `ref` is no string, or else on the first
/// structural fault of the walk.
pub fn collect_definitions(schema: &Value) -> (r: Result<Vec<(String, Value)>, SchemaError>)
    ensures
        match r {
            Ok(defs) => collect_definitions_spec(schema@) == (
                entries_model(defs@),
                None::<SchemaError>,
            ),
            Err(e) => collect_definitions_spec(schema@).1 == Some(e),
        },
{
    let mut nodes: Vec<&Value> = Vec::new();
    let fault = preorder(schema, &mut nodes);
    let ghost trees = preorder_spec(schema@).0;
    assert(nodes_model(nodes@) =~= trees);
    let mut defs: Vec<(String, Value)> = Vec::new();
    assert(entries_model(defs@) =~= Seq::empty());
    let mut k: usize = 0;
    while k < nodes.len()
        invariant
            k <= nodes.len(),
            nodes_model(nodes@) == trees,
            trees == preorder_spec(schema@).0,
            definitions_fold(trees, 0, Seq::empty()) == definitions_fold(
                trees,
                k as int,
                entries_model(defs@),
            ),
        decreases nodes.len() - k,
    {
        assert(trees[k as int] == nodes@[k as int]@);
        match node_ref(nodes[k]) {
            Err(e) => {
                assert(definitions_fold(trees, k as int, entries_model(defs@)).1 == Some(e));
                return Err(e);
            },
            Ok(None) => {},
            Ok(Some(name)) => {
                set_entry(&mut defs, name, nodes[k].deep_clone());
            },
        }
        k += 1;
    }
    match fault {
        Some(e) => Err(e),
        None => Ok(defs),
    }
}

/// Collects copies of the nodes of a schema tree that are marked invalid, in
/// visiting order.
///
/// Fails on the first node whose `metadata` is no record, or else on the first
/// structural fault of the walk.
pub fn collect_invalid_schemas(schema: &Value) -> (r: Result<Vec<Value>, SchemaError>)
    ensures
        match r {
            Ok(found) => collect_invalid_schemas_spec(schema@) == (
                values_model(found@),
                None::<SchemaError>,
            ),
            Err(e) => collect_invalid_schemas_spec(schema@).1 == Some(e),
        },
{
    let mut nodes: Vec<&Value> = Vec::new();
    let fault = preorder(schema, &mut nodes);
    let ghost trees = preorder_spec(schema@).0;
    assert(nodes_model(nodes@) =~= trees);
    let mut found: Vec<Value> = Vec::new();
    assert(values_model(found@) =~= Seq::<Tree>::empty());
    let mut k: usize = 0;
    while k < nodes.len()
        invariant
            k <= nodes.len(),
            nodes_model(nodes@) == trees,
            trees == preorder_spec(schema@).0,
            invalid_fold(trees, 0, Seq::empty()) == invalid_fold(
                trees,
                k as int,
                values_model(found@),
            ),
        decreases nodes.len() - k,
    {
        assert(trees[k as int] == nodes@[k as int]@);
        let ghost before = values_model(found@);
        match invalid_schema(nodes[k]) {
            Err(e) => {
                assert(invalid_fold(trees, k as int, before).1 == Some(e));
                return Err(e);
            },
            Ok(false) => {},
            Ok(true) => {
                found.push(nodes[k].deep_clone());
                assert(values_model(found@) =~= before.push(trees[k as int]));
            },
        }
        k += 1;
    }
    match fault {
        Some(e) => Err(e),
        None => Ok(found),
    }
}

} // verus!
