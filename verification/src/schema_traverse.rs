//! Gathering what a later cleaning of a schema needs: the places where each
//! definition is referred to, the definitions that lie on a cycle of
//! references, and the nodes that carry a deferred discriminator.
//!
//! The walk follows every reference into the table of definitions, but never
//! into a definition that it is already inside of.

use crate::collect::names_model;
use crate::ref_counts::{idle, lemma_enter_decreases, node_schema_ref, schema_ref_of};
use crate::value::{
    entries_model, find_key, items_model, lemma_position_first, lemma_position_none, lookup,
    position, str_eq, Entries, Tree, Value,
};
use crate::walk_core_schema::{
    lemma_place_decreases, lemma_position_in_range, lemma_recurse_valid,
    lemma_walk_container_valid, lemma_walk_dict_valid, lemma_walk_serialization_valid, node_tag,
    recurse, recurse_spec, site_child, tag_of, walk_container, walk_container_spec, walk_dict,
    walk_dict_spec, walk_required, walk_required_spec, walk_serialization,
    walk_serialization_spec, Mode, Plan, SchemaError, Walk,
};
use vstd::prelude::*;

verus! {

/// What a walk has gathered (model).
pub struct Gathered {
    /// For each name, in the order in which the names are first met, the
    /// reference nodes that refer to it.
    pub definition_refs: Seq<(Seq<char>, Seq<Tree>)>,
    /// The names of the definitions that lie on a cycle of references.
    pub recursive_refs: Set<Seq<char>>,
    /// The nodes that carry a deferred discriminator, each with its discriminator.
    pub deferred_discriminators: Seq<(Tree, Tree)>,
}

impl Gathered {
    /// Nothing gathered.
    pub open spec fn empty() -> Gathered {
        Gathered {
            definition_refs: Seq::empty(),
            recursive_refs: Set::empty(),
            deferred_discriminators: Seq::empty(),
        }
    }
}

/// What a walk has gathered so far, and the definitions it is inside of.
pub struct GatherCtx {
    /// For each name, in the order in which the names are first met, copies of
    /// the reference nodes that refer to it.
    pub def_refs: Vec<(String, Vec<Value>)>,
    /// The names of the definitions that lie on a cycle of references, each once.
    pub recursive_def_refs: Vec<String>,
    /// Copies of the nodes that carry a deferred discriminator, each with its
    /// discriminator.
    pub discriminators: Vec<(Value, Value)>,
    /// The names of the definitions that the walk is inside of, outermost first.
    pub recursively_seen_refs: Vec<String>,
}

/// The names that stand in a sequence.
pub open spec fn name_set(names: Seq<String>) -> Set<Seq<char>> {
    Set::new(|name: Seq<char>| names_model(names).contains(name))
}

/// The model of the reference nodes gathered by name.
pub open spec fn sites_model(refs: Seq<(String, Vec<Value>)>) -> Seq<(Seq<char>, Seq<Tree>)> {
    refs.map_values(|e: (String, Vec<Value>)| (e.0@, items_model(e.1@)))
}

/// The model of the gathered discriminators.
pub open spec fn pairs_model(pairs: Seq<(Value, Value)>) -> Seq<(Tree, Tree)> {
    pairs.map_values(|e: (Value, Value)| (e.0@, e.1@))
}

impl View for GatherCtx {
    type V = Gathered;

    open spec fn view(&self) -> Gathered {
        Gathered {
            definition_refs: sites_model(self.def_refs@),
            recursive_refs: name_set(self.recursive_def_refs@),
            deferred_discriminators: pairs_model(self.discriminators@),
        }
    }
}

impl GatherCtx {
    /// The definitions that the walk is inside of.
    pub open spec fn seen(&self) -> Set<Seq<char>> {
        name_set(self.recursively_seen_refs@)
    }
}

/// The key under which the metadata of a node keeps a deferred discriminator.
pub open spec fn discriminator_key() -> Seq<char> {
    "pydantic.internal.union_discriminator"@
}

/// `refs` with the reference node `node` added to those of `name`.
pub open spec fn add_site(refs: Seq<(Seq<char>, Seq<Tree>)>, name: Seq<char>, node: Tree) -> Seq<
    (Seq<char>, Seq<Tree>),
> {
    match position(refs, name) {
        Some(i) => refs.update(i, (name, refs[i].1.push(node))),
        None => refs.push((name, seq![node])),
    }
}

/// Gathering the deferred discriminator of one node, if its metadata holds one.
pub open spec fn gather_meta_spec(t: Tree, acc: Gathered) -> (Gathered, Option<SchemaError>) {
    match t.get("metadata"@) {
        None => (acc, None),
        Some(meta) => if !meta.is_dict() {
            (acc, Some(SchemaError::WrongType))
        } else {
            match meta.get(discriminator_key()) {
                None => (acc, None),
                Some(d) => (
                    Gathered {
                        deferred_discriminators: acc.deferred_discriminators.push((t, d)),
                        ..acc
                    },
                    None,
                ),
            }
        },
    }
}

/// The places of the child schemas of a node in the order in which gathering
/// visits them. It is the order of the walk, but for a `definitions` node,
/// whose inner schema comes before its definitions here, and for a
/// `function-wrap` node, whose `return_schema` comes before its `schema`.
pub open spec fn gather_plan_spec(t: Tree) -> Plan {
    if tag_of(t) == Ok::<Seq<char>, SchemaError>("definitions"@) {
        walk_serialization_spec(
            t,
            walk_container_spec(
                "definitions"@,
                t,
                false,
                true,
                Mode::Definition,
                walk_required_spec("schema"@, t, Plan::empty()),
            ),
        )
    } else if tag_of(t) == Ok::<Seq<char>, SchemaError>("function-wrap"@) {
        walk_serialization_spec(
            t,
            walk_dict_spec("schema"@, t, walk_dict_spec("return_schema"@, t, Plan::empty())),
        )
    } else {
        recurse_spec(t)
    }
}

/// Every place that gathering visits in a node exists in the node and holds a
/// record.
pub proof fn lemma_gather_plan_valid(t: Tree)
    ensures
        gather_plan_spec(t).valid(t),
{
    broadcast use {
        lemma_position_in_range,
        lemma_walk_dict_valid,
        lemma_walk_container_valid,
        lemma_walk_serialization_valid,
    };

    lemma_recurse_valid(t);
    let plan = Plan::empty();
    assert(plan.valid(t));
    if tag_of(t) == Ok::<Seq<char>, SchemaError>("definitions"@) {
        assert(walk_required_spec("schema"@, t, plan).valid(t));
    } else if tag_of(t) == Ok::<Seq<char>, SchemaError>("function-wrap"@) {
        assert(walk_dict_spec("return_schema"@, t, plan).valid(t));
    }
}

/// Gathering from one node: a reference is followed, any other node hands on
/// to its child schemas and then gives its own deferred discriminator.
///
/// `seen` are the definitions that the walk is inside of. The result is what
/// was gathered, and the fault that ended the walk, if any.
pub open spec fn gather_spec(t: Tree, defs: Entries, seen: Set<Seq<char>>, acc: Gathered) -> (
    Gathered,
    Option<SchemaError>,
)
    decreases idle(defs, seen), t, 2int, 0int,
{
    match tag_of(t) {
        Err(e) => (acc, Some(e)),
        Ok(tag) => if tag == "definition-ref"@ {
            gather_definition_ref_spec(t, defs, seen, acc)
        } else {
            gather_node_spec(t, defs, seen, acc)
        },
    }
}

/// Gathering from the child schemas of `t`, then from its own metadata.
pub open spec fn gather_node_spec(t: Tree, defs: Entries, seen: Set<Seq<char>>, acc: Gathered) -> (
    Gathered,
    Option<SchemaError>,
)
    decreases idle(defs, seen), t, 1int, 0int,
{
    let (acc1, fault) = gather_from(t, 0, defs, seen, acc);
    if fault is Some {
        (acc1, fault)
    } else if gather_plan_spec(t).failure is Some {
        (acc1, gather_plan_spec(t).failure)
    } else {
        gather_meta_spec(t, acc1)
    }
}

/// Gathering from the child schemas of `t` from the `k`-th on.
pub open spec fn gather_from(t: Tree, k: int, defs: Entries, seen: Set<Seq<char>>, acc: Gathered) -> (
    Gathered,
    Option<SchemaError>,
)
    decreases idle(defs, seen), t, 0int, gather_plan_spec(t).sites.len() - k,
{
    let sites = gather_plan_spec(t).sites;
    if 0 <= k < sites.len() {
        proof {
            lemma_gather_plan_valid(t);
            lemma_place_decreases(t, sites[k]);
        }
        let (acc1, fault) = gather_spec(sites[k].of(t), defs, seen, acc);
        if fault is Some {
            (acc1, fault)
        } else {
            gather_from(t, k + 1, defs, seen, acc1)
        }
    } else {
        (acc, None)
    }
}

/// Gathering from a reference node.
///
/// A reference to a definition that the walk is inside of closes a cycle: that
/// definition and all that the walk is inside of lie on it, and the walk does
/// not go into the definition again. Any other reference is noted under its
/// name; if the table holds the definition, the walk goes through the
/// definition, inside of which it then is. A name that the table does not hold
/// is tolerated. In each case the walk then goes through what the reference
/// node itself carries, its serialization and its deferred discriminator.
pub open spec fn gather_definition_ref_spec(
    t: Tree,
    defs: Entries,
    seen: Set<Seq<char>>,
    acc: Gathered,
) -> (Gathered, Option<SchemaError>)
    decreases idle(defs, seen), t, 1int, 1int,
{
    match schema_ref_of(t) {
        Err(e) => (acc, Some(e)),
        Ok(name) => if seen.contains(name) {
            gather_node_spec(
                t,
                defs,
                seen,
                Gathered { recursive_refs: acc.recursive_refs.union(seen), ..acc },
            )
        } else {
            let acc1 = Gathered { definition_refs: add_site(acc.definition_refs, name, t), ..acc };
            match lookup(defs, name) {
                None => gather_node_spec(t, defs, seen, acc1),
                Some(target) => if !target.is_dict() {
                    (acc1, Some(SchemaError::WrongType))
                } else {
                    proof {
                        lemma_enter_decreases(defs, seen, name);
                    }
                    let (acc2, fault) = gather_spec(target, defs, seen.insert(name), acc1);
                    if fault is Some {
                        (acc2, fault)
                    } else {
                        gather_node_spec(t, defs, seen.insert(name), acc2)
                    }
                },
            }
        },
    }
}

/// What is gathered from `t` through the table `defs`.
pub open spec fn gather_schemas_for_cleaning_spec(t: Tree, defs: Tree) -> (
    Gathered,
    Option<SchemaError>,
) {
    if !defs.is_dict() {
        (Gathered::empty(), Some(SchemaError::WrongType))
    } else {
        gather_spec(t, defs.entries(), Set::empty(), Gathered::empty())
    }
}

/// Whether `r` is what gathering from `t` through `defs` returns.
pub open spec fn is_gathered(t: Tree, defs: Tree, r: Result<GatherCtx, SchemaError>) -> bool {
    match r {
        Ok(ctx) => gather_schemas_for_cleaning_spec(t, defs) == (ctx@, None::<SchemaError>),
        Err(e) => gather_schemas_for_cleaning_spec(t, defs).1 == Some(e),
    }
}

/// Whether `name` is among `names`.
pub fn seen_name(names: &Vec<String>, name: &str) -> (r: bool)
    ensures
        r == name_set(names@).contains(name@),
{
    let mut i: usize = 0;
    while i < names.len()
        invariant
            i <= names.len(),
            forall|j: int| 0 <= j < i ==> names_model(names@)[j] != name@,
        decreases names.len() - i,
    {
        if str_eq(names[i].as_str(), name) {
            assert(names_model(names@)[i as int] == name@);
            return true;
        }
        i += 1;
    }
    false
}

/// Adds `name` to `names` unless it is among them.
pub fn note_name(names: &mut Vec<String>, name: &str)
    ensures
        name_set(final(names)@) == name_set(old(names)@).insert(name@),
{
    if !seen_name(names, name) {
        let ghost before = names_model(names@);
        names.push(name.to_owned());
        assert(names_model(names@) =~= before.push(name@));
        assert forall|n: Seq<char>| name_set(names@).contains(n) == name_set(old(names)@).insert(
            name@,
        ).contains(n) by {
            if before.push(name@).contains(n) {
                let i = choose|i: int| 0 <= i < before.push(name@).len() && before.push(name@)[i] == n;
                if i < before.len() {
                    assert(before[i] == n);
                }
            }
            if before.contains(n) {
                let i = choose|i: int| 0 <= i < before.len() && before[i] == n;
                assert(before.push(name@)[i] == n);
            }
            if n == name@ {
                assert(before.push(name@)[before.len() as int] == n);
            }
        }
    }
    assert(name_set(names@) =~= name_set(old(names)@).insert(name@));
}

/// The names that stand among the first `i` of a sequence.
pub open spec fn first_names(names: Seq<String>, i: int) -> Set<Seq<char>> {
    Set::new(|name: Seq<char>| exists|j: int| 0 <= j < i && j < names.len() && names[j]@ == name)
}

/// Adds to `names` each of `more` that is not among them.
pub fn note_names(names: &mut Vec<String>, more: &Vec<String>)
    ensures
        name_set(final(names)@) == name_set(old(names)@).union(name_set(more@)),
{
    let ghost before = name_set(names@);
    let mut i: usize = 0;
    assert(first_names(more@, 0) =~= Set::empty());
    while i < more.len()
        invariant
            i <= more.len(),
            before == name_set(old(names)@),
            name_set(names@) == before.union(first_names(more@, i as int)),
        decreases more.len() - i,
    {
        note_name(names, more[i].as_str());
        proof {
            let current = more@[i as int]@;
            assert forall|n: Seq<char>| first_names(more@, i as int + 1).contains(n)
                == first_names(more@, i as int).insert(current).contains(n) by {
                if first_names(more@, i as int + 1).contains(n) {
                    let j = choose|j: int| 0 <= j < i + 1 && j < more@.len() && more@[j]@ == n;
                    if j < i {
                        assert(first_names(more@, i as int).contains(n));
                    }
                }
                if first_names(more@, i as int).contains(n) {
                    let j = choose|j: int| 0 <= j < i && j < more@.len() && more@[j]@ == n;
                    assert(0 <= j < i + 1 && j < more@.len() && more@[j]@ == n);
                }
                if n == current {
                    assert(0 <= i < i + 1 && i < more@.len() && more@[i as int]@ == n);
                }
            }
            assert(first_names(more@, i as int + 1) =~= first_names(more@, i as int).insert(
                current,
            ));
            assert(name_set(names@) =~= before.union(first_names(more@, i as int + 1)));
        }
        i += 1;
    }
    proof {
        assert forall|n: Seq<char>| first_names(more@, i as int).contains(n) == name_set(
            more@,
        ).contains(n) by {
            let m = names_model(more@);
            if m.contains(n) {
                let j = choose|j: int| 0 <= j < m.len() && m[j] == n;
                assert(0 <= j < i && j < more@.len() && more@[j]@ == n);
            }
            if first_names(more@, i as int).contains(n) {
                let j = choose|j: int| 0 <= j < i && j < more@.len() && more@[j]@ == n;
                assert(m[j] == n);
            }
        }
        assert(first_names(more@, i as int) =~= name_set(more@));
    }
}

/// Adds a copy of the reference node `node` to those gathered under `name`.
pub fn note_site(refs: &mut Vec<(String, Vec<Value>)>, name: &str, node: &Value)
    ensures
        sites_model(final(refs)@) == add_site(sites_model(old(refs)@), name@, node@),
{
    let ghost before = sites_model(refs@);
    let mut i: usize = 0;
    while i < refs.len()
        invariant
            i <= refs.len(),
            before == sites_model(refs@),
            refs@ == old(refs)@,
            forall|j: int| 0 <= j < i ==> (#[trigger] before[j]).0 != name@,
        decreases refs.len() - i,
    {
        if str_eq(refs[i].0.as_str(), name) {
            proof {
                assert(before[i as int].0 == name@);
                lemma_position_first(before, name@, i as int);
            }
            let mut entry = (String::new(), Vec::new());
            refs.set_and_swap(i, &mut entry);
            let (key, mut nodes) = entry;
            let ghost held = items_model(nodes@);
            nodes.push(node.deep_clone());
            assert(items_model(nodes@) =~= held.push(node@));
            refs.set(i, (key, nodes));
            assert(sites_model(refs@) =~= before.update(i as int, (name@, held.push(node@))));
            return ;
        }
        assert(before[i as int].0 != name@);
        i += 1;
    }
    proof {
        lemma_position_none(before, name@);
    }
    let mut nodes: Vec<Value> = Vec::new();
    nodes.push(node.deep_clone());
    assert(items_model(nodes@) =~= seq![node@]);
    refs.push((name.to_owned(), nodes));
    assert(sites_model(refs@) =~= before.push((name@, seq![node@])));
}

/// Gathers the deferred discriminator of one node, if its metadata holds one.
pub fn gather_meta(schema: &Value, ctx: &mut GatherCtx) -> (fault: Option<SchemaError>)
    ensures
        (final(ctx)@, fault) == gather_meta_spec(schema@, old(ctx)@),
        final(ctx).recursively_seen_refs@ == old(ctx).recursively_seen_refs@,
{
    match schema.get("metadata") {
        None => None,
        Some(meta) => {
            if !meta.is_dict() {
                return Some(SchemaError::WrongType);
            }
            match meta.get("pydantic.internal.union_discriminator") {
                None => None,
                Some(d) => {
                    let ghost before = pairs_model(ctx.discriminators@);
                    ctx.discriminators.push((schema.deep_clone(), d.deep_clone()));
                    assert(pairs_model(ctx.discriminators@) =~= before.push((schema@, d@)));
                    None
                },
            }
        },
    }
}

/// Lists the places of the child schemas of a node in the order in which
/// gathering visits them.
pub fn gather_plan(schema: &Value) -> (r: Walk)
    ensures
        r@ == gather_plan_spec(schema@),
        r@.valid(schema@),
{
    proof {
        lemma_gather_plan_valid(schema@);
    }
    match node_tag(schema) {
        Ok(tag) if str_eq(tag, "definitions") => {
            let walk = walk_required("schema", schema, Walk::new());
            let walk = walk_container("definitions", schema, false, true, Mode::Definition, walk);
            walk_serialization(schema, walk)
        },
        Ok(tag) if str_eq(tag, "function-wrap") => {
            let walk = walk_dict("return_schema", schema, Walk::new());
            let walk = walk_dict("schema", schema, walk);
            walk_serialization(schema, walk)
        },
        _ => recurse(schema),
    }
}

/// Gathers from one node, following references through `definitions`.
pub fn gather_schema(schema: &Value, definitions: &Vec<(String, Value)>, ctx: &mut GatherCtx) -> (fault:
    Option<SchemaError>)
    ensures
        final(ctx)@ == gather_spec(
            schema@,
            entries_model(definitions@),
            old(ctx).seen(),
            old(ctx)@,
        ).0,
        fault == gather_spec(schema@, entries_model(definitions@), old(ctx).seen(), old(ctx)@).1,
        final(ctx).recursively_seen_refs@ == old(ctx).recursively_seen_refs@,
    decreases idle(entries_model(definitions@), old(ctx).seen()), schema@, 2int, 0int,
{
    match node_tag(schema) {
        Err(e) => Some(e),
        Ok(tag) => if str_eq(tag, "definition-ref") {
            gather_definition_ref(schema, definitions, ctx)
        } else {
            gather_node(schema, definitions, ctx)
        },
    }
}

/// Gathers from the child schemas of a node, then from its own metadata.
pub fn gather_node(schema: &Value, definitions: &Vec<(String, Value)>, ctx: &mut GatherCtx) -> (fault:
    Option<SchemaError>)
    ensures
        final(ctx)@ == gather_node_spec(
            schema@,
            entries_model(definitions@),
            old(ctx).seen(),
            old(ctx)@,
        ).0,
        fault == gather_node_spec(
            schema@,
            entries_model(definitions@),
            old(ctx).seen(),
            old(ctx)@,
        ).1,
        final(ctx).recursively_seen_refs@ == old(ctx).recursively_seen_refs@,
    decreases idle(entries_model(definitions@), old(ctx).seen()), schema@, 1int, 0int,
{
    let ghost t = schema@;
    let ghost defs = entries_model(definitions@);
    let ghost seen = ctx.seen();
    let ghost acc0 = ctx@;
    let walk = gather_plan(schema);
    let mut k: usize = 0;
    while k < walk.sites.len()
        invariant
            k <= walk.sites.len(),
            t == schema@,
            defs == entries_model(definitions@),
            seen == old(ctx).seen(),
            acc0 == old(ctx)@,
            walk@ == gather_plan_spec(t),
            walk@.valid(t),
            ctx.recursively_seen_refs@ == old(ctx).recursively_seen_refs@,
            gather_from(t, k as int, defs, seen, ctx@) == gather_from(t, 0, defs, seen, acc0),
        decreases walk.sites.len() - k,
    {
        let site = walk.sites[k];
        assert(walk@.sites[k as int] == site@);
        proof {
            lemma_place_decreases(t, site@);
        }
        let fault = gather_schema(site_child(schema, site), definitions, ctx);
        if fault.is_some() {
            return fault;
        }
        k += 1;
    }
    if walk.failure.is_some() {
        return walk.failure;
    }
    gather_meta(schema, ctx)
}

/// Gathers from a reference node: notes the reference, walks through the
/// definition it refers to unless the walk is inside that definition already,
/// and then through what the reference node itself carries.
pub fn gather_definition_ref(
    schema_ref_dict: &Value,
    definitions: &Vec<(String, Value)>,
    ctx: &mut GatherCtx,
) -> (fault: Option<SchemaError>)
    ensures
        final(ctx)@ == gather_definition_ref_spec(
            schema_ref_dict@,
            entries_model(definitions@),
            old(ctx).seen(),
            old(ctx)@,
        ).0,
        fault == gather_definition_ref_spec(
            schema_ref_dict@,
            entries_model(definitions@),
            old(ctx).seen(),
            old(ctx)@,
        ).1,
        final(ctx).recursively_seen_refs@ == old(ctx).recursively_seen_refs@,
    decreases idle(entries_model(definitions@), old(ctx).seen()), schema_ref_dict@, 1int, 1int,
{
    let ghost defs = entries_model(definitions@);
    let ghost seen = ctx.seen();
    let name = match node_schema_ref(schema_ref_dict) {
        Err(e) => {
            return Some(e);
        },
        Ok(name) => name,
    };
    if seen_name(&ctx.recursively_seen_refs, name) {
        note_names(&mut ctx.recursive_def_refs, &ctx.recursively_seen_refs);
        return gather_node(schema_ref_dict, definitions, ctx);
    }
    note_site(&mut ctx.def_refs, name, schema_ref_dict);
    let i = match find_key(definitions, name) {
        None => {
            return gather_node(schema_ref_dict, definitions, ctx);
        },
        Some(i) => i,
    };
    let target = &definitions[i].1;
    assert(lookup(defs, name@) == Some(target@));
    if !target.is_dict() {
        return Some(SchemaError::WrongType);
    }
    let ghost stack = ctx.recursively_seen_refs@;
    ctx.recursively_seen_refs.push(name.to_owned());
    proof {
        lemma_enter_decreases(defs, seen, name@);
        lemma_pushed_name(stack, ctx.recursively_seen_refs@, name@);
    }
    let fault = match gather_schema(target, definitions, ctx) {
        Some(e) => Some(e),
        None => gather_node(schema_ref_dict, definitions, ctx),
    };
    let _ = ctx.recursively_seen_refs.pop();
    assert(ctx.recursively_seen_refs@ =~= stack);
    fault
}

/// The names after one more was pushed are the names before with that name.
pub proof fn lemma_pushed_name(before: Seq<String>, after: Seq<String>, name: Seq<char>)
    requires
        after.len() == before.len() + 1,
        forall|i: int| 0 <= i < before.len() ==> after[i] == before[i],
        after[before.len() as int]@ == name,
    ensures
        name_set(after) == name_set(before).insert(name),
{
    let a = names_model(after);
    let b = names_model(before);
    assert forall|n: Seq<char>| name_set(after).contains(n) == name_set(before).insert(
        name,
    ).contains(n) by {
        if a.contains(n) {
            let i = choose|i: int| 0 <= i < a.len() && a[i] == n;
            if i < b.len() {
                assert(b[i] == n);
            }
        }
        if b.contains(n) {
            let i = choose|i: int| 0 <= i < b.len() && b[i] == n;
            assert(a[i] == n);
        }
        if n == name {
            assert(a[b.len() as int] == n);
        }
    }
    assert(name_set(after) =~= name_set(before).insert(name));
}

/// Gathers from a schema, through the table `definitions`, what a later
/// cleaning needs: for each definition the nodes that refer to it, the
/// definitions that lie on a cycle of references, and the nodes that carry a
/// deferred discriminator.
///
/// A reference to a name that `definitions` does not hold is noted and passed
/// over. Fails if `definitions` is no record, and on the first structural fault
/// met.
pub fn gather_schemas_for_cleaning(schema: &Value, definitions: &Value) -> (r: Result<
    GatherCtx,
    SchemaError,
>)
    ensures
        is_gathered(schema@, definitions@, r),
{
    let table = match definitions {
        Value::Dict(entries) => entries,
        _ => {
            return Err(SchemaError::WrongType);
        },
    };
    let mut ctx = GatherCtx {
        def_refs: Vec::new(),
        recursive_def_refs: Vec::new(),
        discriminators: Vec::new(),
        recursively_seen_refs: Vec::new(),
    };
    proof {
        assert(sites_model(ctx.def_refs@) =~= Seq::empty());
        assert(pairs_model(ctx.discriminators@) =~= Seq::empty());
        assert(name_set(ctx.recursive_def_refs@) =~= Set::empty());
        assert(ctx.seen() =~= Set::empty());
    }
    match gather_schema(schema, table, &mut ctx) {
        Some(e) => Err(e),
        None => Ok(ctx),
    }
}

} // verus!
