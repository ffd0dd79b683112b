//! Counting how often each definition is referred to, and which definitions
//! lie on a cycle of references.
//!
//! The count follows every reference into the table of definitions. While a
//! definition is being walked it is marked as entered; a reference to an entered
//! definition closes a cycle and is not followed again.

use crate::value::{
    entries_model, find_key, lemma_position_first, lemma_position_is_first, lemma_position_none,
    lookup, position, str_eq, Entries, Tree, Value,
};
use crate::walk_core_schema::{
    lemma_place_decreases, lemma_recurse_valid, node_tag, recurse, recurse_spec, site_child,
    tag_of, SchemaError,
};
use vstd::prelude::*;

verus! {

/// What is known of the uses of one definition.
#[derive(Clone, Copy, Debug, PartialEq, Eq, Structural)]
pub struct RefCounts {
    /// How many references to the definition were met; it stops at the largest `u32`.
    pub ref_count: u32,
    /// Whether the definition lies on a cycle of references.
    pub involved_in_recursion: bool,
    /// How deep inside itself the definition is being walked; zero outside a count.
    pub recursion_ref_count: u32,
}

impl RefCounts {
    /// No use known.
    pub open spec fn zero() -> RefCounts {
        RefCounts { ref_count: 0, involved_in_recursion: false, recursion_ref_count: 0 }
    }

    /// One more reference met.
    pub open spec fn met(self) -> RefCounts {
        RefCounts {
            ref_count: if self.ref_count < u32::MAX {
                (self.ref_count + 1) as u32
            } else {
                u32::MAX
            },
            ..self
        }
    }

    /// One reference taken away again.
    pub open spec fn unmet(self) -> RefCounts {
        RefCounts {
            ref_count: if self.ref_count > 0 {
                (self.ref_count - 1) as u32
            } else {
                0
            },
            ..self
        }
    }

    /// Marked as lying on a cycle.
    pub open spec fn recursive(self) -> RefCounts {
        RefCounts { involved_in_recursion: true, ..self }
    }

    /// Marked as entered, or as left again.
    pub open spec fn entered(self, depth: u32) -> RefCounts {
        RefCounts { recursion_ref_count: depth, ..self }
    }
}

impl Default for RefCounts {
    fn default() -> (r: RefCounts)
        ensures
            r == RefCounts::zero(),
    {
        RefCounts { ref_count: 0, involved_in_recursion: false, recursion_ref_count: 0 }
    }
}

/// The counts by name (model).
pub type Counts = Map<Seq<char>, RefCounts>;

/// The counts of `name`; a name without counts has none.
pub open spec fn usage(counts: Counts, name: Seq<char>) -> RefCounts {
    if counts.dom().contains(name) {
        counts[name]
    } else {
        RefCounts::zero()
    }
}

/// The names whose definitions are entered.
pub open spec fn entered_names(counts: Counts) -> Set<Seq<char>> {
    Set::new(|name: Seq<char>| usage(counts, name).recursion_ref_count != 0)
}

/// The names of a table of counts with what is kept under each.
pub open spec fn named(entries: Seq<(String, RefCounts)>) -> Seq<(Seq<char>, RefCounts)> {
    entries.map_values(|e: (String, RefCounts)| (e.0@, e.1))
}

/// The model of a table of counts: each name with the counts at its first
/// occurrence.
pub open spec fn counts_model(entries: Seq<(String, RefCounts)>) -> Counts {
    Map::new(
        |name: Seq<char>| position(named(entries), name) is Some,
        |name: Seq<char>| named(entries)[position(named(entries), name)->0].1,
    )
}

/// The first place in a table of counts where `name` stands.
pub fn find_count(counts: &Vec<(String, RefCounts)>, name: &str) -> (r: Option<usize>)
    ensures
        match r {
            Some(i) => position(named(counts@), name@) == Some(i as int) && i < counts.len(),
            None => position(named(counts@), name@) is None,
        },
{
    let ghost model = named(counts@);
    let mut i: usize = 0;
    while i < counts.len()
        invariant
            i <= counts.len(),
            model == named(counts@),
            forall|j: int| 0 <= j < i ==> (#[trigger] model[j]).0 != name@,
        decreases counts.len() - i,
    {
        if str_eq(counts[i].0.as_str(), name) {
            proof {
                assert(model[i as int].0 == name@);
                lemma_position_first(model, name@, i as int);
            }
            return Some(i);
        }
        assert(model[i as int].0 != name@);
        i += 1;
    }
    proof {
        lemma_position_none(model, name@);
    }
    None
}

/// The counts kept for `name`; none if the table does not hold it.
pub fn count_of(counts: &Vec<(String, RefCounts)>, name: &str) -> (r: RefCounts)
    ensures
        r == usage(counts_model(counts@), name@),
{
    match find_count(counts, name) {
        Some(i) => counts[i].1,
        None => RefCounts::default(),
    }
}

/// Keeps `c` as the counts of `name`.
pub fn set_count(counts: &mut Vec<(String, RefCounts)>, name: &str, c: RefCounts)
    ensures
        counts_model(final(counts)@) == counts_model(old(counts)@).insert(name@, c),
{
    let ghost before = named(counts@);
    match find_count(counts, name) {
        Some(i) => {
            counts.set(i, (name.to_owned(), c));
            proof {
                let after = named(counts@);
                assert(after =~= before.update(i as int, (name@, c)));
                lemma_position_is_first(before, name@);
                assert forall|other: Seq<char>| position(after, other) == position(before, other) by {
                    lemma_same_keys_same_position(before, after, other);
                }
                assert(counts_model(counts@) =~= counts_model(old(counts)@).insert(name@, c));
            }
        },
        None => {
            counts.push((name.to_owned(), c));
            proof {
                let after = named(counts@);
                assert(after =~= before.push((name@, c)));
                lemma_position_is_first(before, name@);
                assert forall|other: Seq<char>|
                    position(after, other) == (if other == name@ {
                        Some(before.len() as int)
                    } else {
                        position(before, other)
                    }) by {
                    lemma_position_is_first(before, other);
                    if other == name@ {
                        lemma_position_first(after, other, before.len() as int);
                    } else {
                        match position(before, other) {
                            Some(i) => {
                                lemma_position_first(after, other, i);
                            },
                            None => {
                                lemma_position_none(after, other);
                            },
                        }
                    }
                }
                assert(counts_model(counts@) =~= counts_model(old(counts)@).insert(name@, c));
            }
        },
    }
}

/// Two tables with the same keys in the same places place every key alike.
pub proof fn lemma_same_keys_same_position<V, W>(
    a: Seq<(Seq<char>, V)>,
    b: Seq<(Seq<char>, W)>,
    key: Seq<char>,
)
    requires
        a.len() == b.len(),
        forall|i: int| 0 <= i < a.len() ==> (#[trigger] a[i]).0 == (#[trigger] b[i]).0,
    ensures
        position(a, key) == position(b, key),
{
    lemma_position_is_first(a, key);
    match position(a, key) {
        Some(i) => {
            assert forall|j: int| 0 <= j < i implies (#[trigger] b[j]).0 != key by {
                assert(a[j].0 != key);
            }
            assert(b[i].0 == a[i].0);
            lemma_position_first(b, key, i);
        },
        None => {
            assert forall|j: int| 0 <= j < b.len() implies (#[trigger] b[j]).0 != key by {
                assert(a[j].0 != key);
            }
            lemma_position_none(b, key);
        },
    }
}

/// The places of the table whose definition is not entered.
pub open spec fn idle_places(defs: Entries, entered: Set<Seq<char>>) -> Set<int> {
    Set::new(|i: int| 0 <= i < defs.len() && !entered.contains(defs[i].0))
}

/// How many definitions of the table are not entered.
pub open spec fn idle(defs: Entries, entered: Set<Seq<char>>) -> nat {
    idle_places(defs, entered).len()
}

/// Entering a definition of the table that was not entered leaves fewer idle.
pub proof fn lemma_enter_decreases(defs: Entries, entered: Set<Seq<char>>, name: Seq<char>)
    requires
        position(defs, name) is Some,
        !entered.contains(name),
    ensures
        idle(defs, entered.insert(name)) < idle(defs, entered),
{
    let before = idle_places(defs, entered);
    let after = idle_places(defs, entered.insert(name));
    let all = vstd::set_lib::set_int_range(0, defs.len() as int);
    vstd::set_lib::lemma_int_range(0, defs.len() as int);
    assert(before.subset_of(all));
    vstd::set_lib::lemma_len_subset(before, all);
    lemma_position_is_first(defs, name);
    let p = position(defs, name)->0;
    assert(before.contains(p));
    assert(!after.contains(p));
    assert(after.subset_of(before.remove(p)));
    vstd::set_lib::lemma_len_subset(after, before.remove(p));
}

/// The name that a reference node refers to: the string under `schema_ref`.
pub open spec fn schema_ref_of(t: Tree) -> Result<Seq<char>, SchemaError> {
    match t.get("schema_ref"@) {
        None => Err(SchemaError::MissingKey),
        Some(Tree::Str(name)) => Ok(name),
        Some(_) => Err(SchemaError::WrongType),
    }
}

/// The name that a reference node refers to.
pub fn node_schema_ref(schema: &Value) -> (r: Result<&str, SchemaError>)
    ensures
        match r {
            Ok(name) => schema_ref_of(schema@) == Ok::<Seq<char>, SchemaError>(name@),
            Err(e) => schema_ref_of(schema@) == Err::<Seq<char>, SchemaError>(e),
        },
{
    match schema.get("schema_ref") {
        None => Err(SchemaError::MissingKey),
        Some(Value::Str(name)) => Ok(name.as_str()),
        Some(_) => Err(SchemaError::WrongType),
    }
}

/// Counting the references in one node.
///
/// A node that is no reference passes the count on to its child schemas. A
/// reference counts as one use of its definition. If that definition is
/// entered, the reference closes a cycle and the definition is marked as
/// recursive; else the definition must stand in the table as a record, and is
/// walked while marked as entered.
///
/// `entered` are the definitions being walked. The result is the counts and the
/// fault that ended the count, if any.
pub open spec fn count_spec(t: Tree, defs: Entries, entered: Set<Seq<char>>, counts: Counts) -> (
    Counts,
    Option<SchemaError>,
)
    decreases idle(defs, entered), t, 1int, 0int,
{
    match tag_of(t) {
        Err(e) => (counts, Some(e)),
        Ok(tag) => if tag != "definition-ref"@ {
            let (counts1, fault) = count_from(t, 0, defs, entered, counts);
            (
                counts1,
                if fault is Some {
                    fault
                } else {
                    recurse_spec(t).failure
                },
            )
        } else {
            match schema_ref_of(t) {
                Err(e) => (counts, Some(e)),
                Ok(name) => {
                    let met = usage(counts, name).met();
                    if entered.contains(name) {
                        (counts.insert(name, met.recursive()), None)
                    } else {
                        match lookup(defs, name) {
                            None => (counts.insert(name, met), Some(SchemaError::MissingKey)),
                            Some(target) => if !target.is_dict() {
                                (counts.insert(name, met), Some(SchemaError::WrongType))
                            } else {
                                proof {
                                    lemma_enter_decreases(defs, entered, name);
                                }
                                let (counts1, fault) = count_spec(
                                    target,
                                    defs,
                                    entered.insert(name),
                                    counts.insert(name, met.entered(1)),
                                );
                                if fault is Some {
                                    (counts1, fault)
                                } else {
                                    (counts1.insert(name, usage(counts1, name).entered(0)), None)
                                }
                            },
                        }
                    }
                },
            }
        },
    }
}

/// Counting the references in the child schemas of `t` from the `k`-th on.
pub open spec fn count_from(
    t: Tree,
    k: int,
    defs: Entries,
    entered: Set<Seq<char>>,
    counts: Counts,
) -> (Counts, Option<SchemaError>)
    decreases idle(defs, entered), t, 0int, recurse_spec(t).sites.len() - k,
{
    let sites = recurse_spec(t).sites;
    if 0 <= k < sites.len() {
        proof {
            lemma_recurse_valid(t);
            lemma_place_decreases(t, sites[k]);
        }
        let (counts1, fault) = count_spec(sites[k].of(t), defs, entered, counts);
        if fault is Some {
            (counts1, fault)
        } else {
            count_from(t, k + 1, defs, entered, counts1)
        }
    } else {
        (counts, None)
    }
}

/// The counts of all references that can be reached from `t` through the table
/// `defs`, and the fault that ended the count, if any.
pub open spec fn count_refs_spec(t: Tree, defs: Entries) -> (Counts, Option<SchemaError>) {
    count_spec(t, defs, Set::empty(), Map::empty())
}

/// Whether `counts` keeps for every entered name the depth 1, and so that the
/// entered names are those of `entered`.
pub open spec fn marks(counts: Counts, entered: Set<Seq<char>>) -> bool {
    forall|name: Seq<char>|
        (#[trigger] usage(counts, name)).recursion_ref_count == (if entered.contains(name) {
            1u32
        } else {
            0u32
        })
}

/// A count leaves every definition as deep as it found it.
pub proof fn lemma_count_keeps_marks(t: Tree, defs: Entries, entered: Set<Seq<char>>, counts: Counts)
    requires
        marks(counts, entered),
    ensures
        count_spec(t, defs, entered, counts).1 is None ==> marks(
            count_spec(t, defs, entered, counts).0,
            entered,
        ),
    decreases idle(defs, entered), t, 1int, 0int,
{
    if let Ok(tag) = tag_of(t) {
        if tag != "definition-ref"@ {
            lemma_count_from_keeps_marks(t, 0, defs, entered, counts);
        } else if let Ok(name) = schema_ref_of(t) {
            let met = usage(counts, name).met();
            assert(usage(counts, name).recursion_ref_count == met.recursion_ref_count);
            if entered.contains(name) {
                let after = counts.insert(name, met.recursive());
                assert forall|other: Seq<char>|
                    (#[trigger] usage(after, other)).recursion_ref_count == (if entered.contains(
                        other,
                    ) {
                        1u32
                    } else {
                        0u32
                    }) by {
                    assert(usage(counts, other).recursion_ref_count == (if entered.contains(other) {
                        1u32
                    } else {
                        0u32
                    }));
                }
            } else if let Some(target) = lookup(defs, name) {
                if target.is_dict() {
                    lemma_enter_decreases(defs, entered, name);
                    let inside = counts.insert(name, met.entered(1));
                    assert forall|other: Seq<char>|
                        (#[trigger] usage(inside, other)).recursion_ref_count == (if entered.insert(
                            name,
                        ).contains(other) {
                            1u32
                        } else {
                            0u32
                        }) by {
                        assert(usage(counts, other).recursion_ref_count == (if entered.contains(
                            other,
                        ) {
                            1u32
                        } else {
                            0u32
                        }));
                    }
                    lemma_count_keeps_marks(target, defs, entered.insert(name), inside);
                    let (counts1, fault) = count_spec(target, defs, entered.insert(name), inside);
                    if fault is None {
                        let after = counts1.insert(name, usage(counts1, name).entered(0));
                        assert forall|other: Seq<char>|
                            (#[trigger] usage(after, other)).recursion_ref_count == (
                            if entered.contains(other) {
                                1u32
                            } else {
                                0u32
                            }) by {
                            assert(usage(counts1, other).recursion_ref_count == (if entered.insert(
                                name,
                            ).contains(other) {
                                1u32
                            } else {
                                0u32
                            }));
                        }
                    }
                }
            }
        }
    }
}

/// A count of child schemas leaves every definition as deep as it found it.
pub proof fn lemma_count_from_keeps_marks(
    t: Tree,
    k: int,
    defs: Entries,
    entered: Set<Seq<char>>,
    counts: Counts,
)
    requires
        marks(counts, entered),
    ensures
        count_from(t, k, defs, entered, counts).1 is None ==> marks(
            count_from(t, k, defs, entered, counts).0,
            entered,
        ),
    decreases idle(defs, entered), t, 0int, recurse_spec(t).sites.len() - k,
{
    let sites = recurse_spec(t).sites;
    if 0 <= k < sites.len() {
        lemma_recurse_valid(t);
        lemma_place_decreases(t, sites[k]);
        lemma_count_keeps_marks(sites[k].of(t), defs, entered, counts);
        let (counts1, fault) = count_spec(sites[k].of(t), defs, entered, counts);
        if fault is None {
            lemma_count_from_keeps_marks(t, k + 1, defs, entered, counts1);
        }
    }
}

/// No definition is deeper than once inside itself.
pub open spec fn shallow(counts: Counts) -> bool {
    forall|name: Seq<char>| (#[trigger] usage(counts, name)).recursion_ref_count <= 1
}

/// Counts that are shallow mark exactly their entered names.
pub proof fn lemma_shallow_marks(counts: Counts)
    requires
        shallow(counts),
    ensures
        marks(counts, entered_names(counts)),
{
    assert forall|name: Seq<char>|
        (#[trigger] usage(counts, name)).recursion_ref_count == (if entered_names(counts).contains(
            name,
        ) {
            1u32
        } else {
            0u32
        }) by {
        assert(usage(counts, name).recursion_ref_count <= 1);
    }
}

/// Counts that mark `entered` are shallow, and their entered names are `entered`.
pub proof fn lemma_marks_shallow(counts: Counts, entered: Set<Seq<char>>)
    requires
        marks(counts, entered),
    ensures
        shallow(counts),
        entered_names(counts) == entered,
{
    assert forall|name: Seq<char>| entered_names(counts).contains(name) == entered.contains(
        name,
    ) by {
        assert(usage(counts, name).recursion_ref_count == (if entered.contains(name) {
            1u32
        } else {
            0u32
        }));
    }
    assert(entered_names(counts) =~= entered);
    assert forall|name: Seq<char>| (#[trigger] usage(counts, name)).recursion_ref_count <= 1 by {
        assert(usage(counts, name).recursion_ref_count == (if entered.contains(name) {
            1u32
        } else {
            0u32
        }));
    }
}

/// Counts the references in one node into `counts`, following references
/// through the table `all_defs`.
fn count_visit(
    schema: &Value,
    all_defs: &Vec<(String, Value)>,
    counts: &mut Vec<(String, RefCounts)>,
) -> (fault: Option<SchemaError>)
    requires
        shallow(counts_model(old(counts)@)),
    ensures
        counts_model(final(counts)@) == count_spec(
            schema@,
            entries_model(all_defs@),
            entered_names(counts_model(old(counts)@)),
            counts_model(old(counts)@),
        ).0,
        fault == count_spec(
            schema@,
            entries_model(all_defs@),
            entered_names(counts_model(old(counts)@)),
            counts_model(old(counts)@),
        ).1,
        fault is None ==> marks(
            counts_model(final(counts)@),
            entered_names(counts_model(old(counts)@)),
        ),
    decreases idle(entries_model(all_defs@), entered_names(counts_model(old(counts)@))), schema@,
{
    let ghost t = schema@;
    let ghost defs = entries_model(all_defs@);
    let ghost counts0 = counts_model(counts@);
    let ghost entered = entered_names(counts0);
    proof {
        lemma_shallow_marks(counts0);
        lemma_count_keeps_marks(t, defs, entered, counts0);
    }
    let tag = match node_tag(schema) {
        Err(e) => {
            return Some(e);
        },
        Ok(tag) => tag,
    };
    if !str_eq(tag, "definition-ref") {
        return count_children(schema, all_defs, counts);
    }
    let name = match node_schema_ref(schema) {
        Err(e) => {
            return Some(e);
        },
        Ok(name) => name,
    };
    let c = count_of(counts, name);
    let met = RefCounts {
        ref_count: if c.ref_count < u32::MAX {
            c.ref_count + 1
        } else {
            u32::MAX
        },
        involved_in_recursion: c.involved_in_recursion,
        recursion_ref_count: c.recursion_ref_count,
    };
    assert(met == usage(counts0, name@).met());
    if c.recursion_ref_count != 0 {
        set_count(
            counts,
            name,
            RefCounts {
                ref_count: met.ref_count,
                involved_in_recursion: true,
                recursion_ref_count: met.recursion_ref_count,
            },
        );
        return None;
    }
    let i = match find_key(all_defs, name) {
        None => {
            set_count(counts, name, met);
            return Some(SchemaError::MissingKey);
        },
        Some(i) => i,
    };
    let target = &all_defs[i].1;
    assert(lookup(defs, name@) == Some(target@));
    if !target.is_dict() {
        set_count(counts, name, met);
        return Some(SchemaError::WrongType);
    }
    set_count(
        counts,
        name,
        RefCounts {
            ref_count: met.ref_count,
            involved_in_recursion: met.involved_in_recursion,
            recursion_ref_count: 1,
        },
    );
    let ghost inside = counts_model(counts@);
    proof {
        lemma_enter_decreases(defs, entered, name@);
        assert(inside == counts0.insert(name@, met.entered(1)));
        assert forall|other: Seq<char>|
            (#[trigger] usage(inside, other)).recursion_ref_count == (if entered.insert(
                name@,
            ).contains(other) {
                1u32
            } else {
                0u32
            }) by {
            assert(usage(counts0, other).recursion_ref_count == (if entered.contains(other) {
                1u32
            } else {
                0u32
            }));
        }
        lemma_marks_shallow(inside, entered.insert(name@));
    }
    let fault = count_visit(target, all_defs, counts);
    if fault.is_some() {
        return fault;
    }
    let c1 = count_of(counts, name);
    set_count(
        counts,
        name,
        RefCounts {
            ref_count: c1.ref_count,
            involved_in_recursion: c1.involved_in_recursion,
            recursion_ref_count: 0,
        },
    );
    None
}

/// Counts the references in the child schemas of a node into `counts`.
fn count_children(
    schema: &Value,
    all_defs: &Vec<(String, Value)>,
    counts: &mut Vec<(String, RefCounts)>,
) -> (fault: Option<SchemaError>)
    requires
        shallow(counts_model(old(counts)@)),
    ensures
        counts_model(final(counts)@) == count_from(
            schema@,
            0,
            entries_model(all_defs@),
            entered_names(counts_model(old(counts)@)),
            counts_model(old(counts)@),
        ).0,
        fault == (if count_from(
            schema@,
            0,
            entries_model(all_defs@),
            entered_names(counts_model(old(counts)@)),
            counts_model(old(counts)@),
        ).1 is Some {
            count_from(
                schema@,
                0,
                entries_model(all_defs@),
                entered_names(counts_model(old(counts)@)),
                counts_model(old(counts)@),
            ).1
        } else {
            recurse_spec(schema@).failure
        }),
    decreases
            idle(entries_model(all_defs@), entered_names(counts_model(old(counts)@))),
            schema@,
            0int,
{
    let ghost t = schema@;
    let ghost defs = entries_model(all_defs@);
    let ghost counts0 = counts_model(counts@);
    let ghost entered = entered_names(counts0);
    proof {
        lemma_shallow_marks(counts0);
    }
    let walk = recurse(schema);
    let mut k: usize = 0;
    while k < walk.sites.len()
        invariant
            k <= walk.sites.len(),
            t == schema@,
            defs == entries_model(all_defs@),
            counts0 == counts_model(old(counts)@),
            entered == entered_names(counts0),
            walk@ == recurse_spec(t),
            walk@.valid(t),
            marks(counts_model(counts@), entered),
            count_from(t, k as int, defs, entered, counts_model(counts@)) == count_from(
                t,
                0,
                defs,
                entered,
                counts0,
            ),
        decreases walk.sites.len() - k,
    {
        let site = walk.sites[k];
        assert(walk@.sites[k as int] == site@);
        proof {
            lemma_place_decreases(t, site@);
            lemma_marks_shallow(counts_model(counts@), entered);
        }
        let fault = count_visit(site_child(schema, site), all_defs, counts);
        if fault.is_some() {
            return fault;
        }
        k += 1;
    }
    walk.failure
}

/// Counts the references that can be reached from `schema` through the table
/// `all_defs`: for each name how often it is referred to, and whether it lies on
/// a cycle of references. A definition is walked once for every reference that
/// reaches it from outside itself.
///
/// Fails on the first structural fault met, or on the first reference to a name
/// that the table does not hold as a record. In the counts that come back no
/// definition is still marked as entered.
pub fn count_refs(schema: &Value, all_defs: &Vec<(String, Value)>) -> (r: Result<
    Vec<(String, RefCounts)>,
    SchemaError,
>)
    ensures
        match r {
            Ok(counts) => {
                &&& count_refs_spec(schema@, entries_model(all_defs@)).0 == counts_model(counts@)
                &&& count_refs_spec(schema@, entries_model(all_defs@)).1 is None
                &&& forall|name: Seq<char>|
                    (#[trigger] usage(counts_model(counts@), name)).recursion_ref_count == 0
            },
            Err(e) => count_refs_spec(schema@, entries_model(all_defs@)).1 == Some(e),
        },
{
    let mut counts: Vec<(String, RefCounts)> = Vec::new();
    proof {
        lemma_position_none_all(named(counts@));
        assert(counts_model(counts@) =~= Map::empty());
        assert(entered_names(counts_model(counts@)) =~= Set::empty());
    }
    match count_visit(schema, all_defs, &mut counts) {
        Some(e) => Err(e),
        None => Ok(counts),
    }
}

/// An empty table places no key.
pub proof fn lemma_position_none_all<V>(entries: Seq<(Seq<char>, V)>)
    requires
        entries.len() == 0,
    ensures
        forall|key: Seq<char>| position(entries, key) is None,
{
    assert forall|key: Seq<char>| position(entries, key) is None by {
        lemma_position_none(entries, key);
    }
}

} // verus!
