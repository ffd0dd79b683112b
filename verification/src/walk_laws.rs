//! What holds of the walk of a node: replacing a child schema by another
//! record changes neither the walk nor the other children.

use crate::value::{lemma_position_is_first, position, Tree};
use crate::walk_core_schema::{
    inner_key, recurse_spec, tag_of, walk_container_spec, walk_dict_spec, walk_field_spec,
    walk_item_spec, walk_items_spec, walk_required_spec, walk_serialization_key_spec,
    walk_serialization_spec, walk_tag_spec, Mode, Place, Plan, SchemaError,
};
use vstd::prelude::*;

verus! {

/// One step of the walk of a node: the children under one key.
pub enum Step {
    /// A single child, which may be missing.
    Single(Seq<char>),
    /// A single child, which must be there.
    Required(Seq<char>),
    /// A list of children, or a mapping where the first flag is set; a missing
    /// key is a fault where the second flag is set.
    Container(Seq<char>, bool, bool, Mode),
}

impl Step {
    /// The key under which the children of this step stand.
    pub open spec fn key(self) -> Seq<char> {
        match self {
            Step::Single(key) => key,
            Step::Required(key) => key,
            Step::Container(key, _, _, _) => key,
        }
    }

    /// The plan after this step.
    pub open spec fn apply(self, t: Tree, plan: Plan) -> Plan {
        match self {
            Step::Single(key) => walk_dict_spec(key, t, plan),
            Step::Required(key) => walk_required_spec(key, t, plan),
            Step::Container(key, mapping, required, mode) => walk_container_spec(
                key,
                t,
                mapping,
                required,
                mode,
                plan,
            ),
        }
    }
}

/// The plan after the steps from the `i`-th on.
pub open spec fn apply_steps(steps: Seq<Step>, i: int, t: Tree, plan: Plan) -> Plan
    decreases steps.len() - i,
{
    if 0 <= i < steps.len() {
        apply_steps(steps, i + 1, t, steps[i].apply(t, plan))
    } else {
        plan
    }
}

/// The steps that the tag `tag` gives a node, in order.
pub open spec fn steps_of(tag: Seq<char>) -> Seq<Step> {
    if tag == "definitions"@ {
        seq![
            Step::Container("definitions"@, false, true, Mode::Definition),
            Step::Required("schema"@),
        ]
    } else if tag == "list"@ || tag == "set"@ || tag == "frozenset"@ || tag == "generator"@ || tag
        == "tuple-variable"@ {
        seq![Step::Single("items_schema"@)]
    } else if tag == "tuple-positional"@ {
        seq![
            Step::Container("items_schema"@, false, true, Mode::Schema),
            Step::Single("extra_schema"@),
        ]
    } else if tag == "tuple"@ {
        seq![Step::Container("items_schema"@, false, true, Mode::Schema)]
    } else if tag == "dict"@ {
        seq![Step::Single("keys_schema"@), Step::Single("values_schema"@)]
    } else if tag == "function-plain"@ || tag == "computed-field"@ {
        seq![Step::Single("return_schema"@)]
    } else if tag == "function-wrap"@ {
        seq![Step::Single("schema"@), Step::Single("return_schema"@)]
    } else if tag == "union"@ {
        seq![Step::Container("choices"@, false, true, Mode::Choice)]
    } else if tag == "tagged-union"@ {
        seq![Step::Container("choices"@, true, true, Mode::Tagged)]
    } else if tag == "chain"@ {
        seq![Step::Container("steps"@, false, true, Mode::Schema)]
    } else if tag == "lax-or-strict"@ {
        seq![Step::Single("lax_schema"@), Step::Single("strict_schema"@)]
    } else if tag == "json-or-python"@ {
        seq![Step::Single("json_schema"@), Step::Single("python_schema"@)]
    } else if tag == "model-fields"@ || tag == "typed-dict"@ {
        seq![
            Step::Single("extras_schema"@),
            Step::Single("extra_validator"@),
            Step::Container("computed_fields"@, false, false, Mode::FieldReturn),
            Step::Container("fields"@, true, true, Mode::FieldSchema),
        ]
    } else if tag == "dataclass-args"@ {
        seq![
            Step::Container("computed_fields"@, false, false, Mode::FieldReturn),
            Step::Container("fields"@, false, true, Mode::FieldSchema),
        ]
    } else if tag == "arguments"@ {
        seq![
            Step::Container("arguments_schema"@, false, true, Mode::FieldSchema),
            Step::Single("var_args_schema"@),
            Step::Single("var_kwargs_schema"@),
        ]
    } else if tag == "call"@ {
        seq![Step::Single("arguments_schema"@), Step::Single("return_schema"@)]
    } else if tag == "definition-ref"@ {
        Seq::empty()
    } else {
        seq![Step::Single("schema"@)]
    }
}

/// The walk that a tag gives a node is the walk of its steps.
pub proof fn lemma_walk_tag_steps(tag: Seq<char>, t: Tree, plan: Plan)
    ensures
        walk_tag_spec(tag, t, plan) == apply_steps(steps_of(tag), 0, t, plan),
{
    reveal_with_fuel(apply_steps, 5);
}

/// The length of a key with its first two characters.
pub open spec fn print(key: Seq<char>) -> (nat, char, char) {
    (key.len(), key[0], key[1])
}

/// The keys under which child schemas stand, and those that a walk leaves
/// alone, by length and first characters.
pub proof fn lemma_key_prints()
    ensures
        print("schema"@) == (6nat, 's', 'c'),
        print("definitions"@) == (11nat, 'd', 'e'),
        print("items_schema"@) == (12nat, 'i', 't'),
        print("extra_schema"@) == (12nat, 'e', 'x'),
        print("keys_schema"@) == (11nat, 'k', 'e'),
        print("values_schema"@) == (13nat, 'v', 'a'),
        print("return_schema"@) == (13nat, 'r', 'e'),
        print("choices"@) == (7nat, 'c', 'h'),
        print("steps"@) == (5nat, 's', 't'),
        print("lax_schema"@) == (10nat, 'l', 'a'),
        print("strict_schema"@) == (13nat, 's', 't'),
        print("json_schema"@) == (11nat, 'j', 's'),
        print("python_schema"@) == (13nat, 'p', 'y'),
        print("extras_schema"@) == (13nat, 'e', 'x'),
        print("extra_validator"@) == (15nat, 'e', 'x'),
        print("computed_fields"@) == (15nat, 'c', 'o'),
        print("fields"@) == (6nat, 'f', 'i'),
        print("arguments_schema"@) == (16nat, 'a', 'r'),
        print("var_args_schema"@) == (15nat, 'v', 'a'),
        print("var_kwargs_schema"@) == (17nat, 'v', 'a'),
        print("serialization"@) == (13nat, 's', 'e'),
        print("metadata"@) == (8nat, 'm', 'e'),
{
    reveal_strlit("schema");
    reveal_strlit("definitions");
    reveal_strlit("items_schema");
    reveal_strlit("extra_schema");
    reveal_strlit("keys_schema");
    reveal_strlit("values_schema");
    reveal_strlit("return_schema");
    reveal_strlit("choices");
    reveal_strlit("steps");
    reveal_strlit("lax_schema");
    reveal_strlit("strict_schema");
    reveal_strlit("json_schema");
    reveal_strlit("python_schema");
    reveal_strlit("extras_schema");
    reveal_strlit("extra_validator");
    reveal_strlit("computed_fields");
    reveal_strlit("fields");
    reveal_strlit("arguments_schema");
    reveal_strlit("var_args_schema");
    reveal_strlit("var_kwargs_schema");
    reveal_strlit("serialization");
    reveal_strlit("metadata");
}

/// Whether no two of the steps stand under the same key, and none under the
/// key of the serialization or of the metadata.
pub open spec fn steps_distinct(steps: Seq<Step>) -> bool {
    &&& forall|i: int, j: int|
        0 <= i < j < steps.len() ==> (#[trigger] steps[i]).key() != (#[trigger] steps[j]).key()
    &&& forall|i: int|
        0 <= i < steps.len() ==> (#[trigger] steps[i]).key() != "serialization"@ && steps[i].key()
            != "metadata"@
}

/// The steps of a tag stand under different keys, and none under the key of
/// the serialization or of the metadata.
pub proof fn lemma_steps_of_distinct(tag: Seq<char>)
    ensures
        steps_distinct(steps_of(tag)),
{
    lemma_key_prints();
}

impl Place {
    /// The entry of the node under which this place lies.
    pub open spec fn entry(self) -> int {
        match self {
            Place::Key(a) => a,
            Place::Item(a, _) => a,
            Place::Field(a, _, _) => a,
        }
    }

    /// The item of the container in which this place lies; none for a single child.
    pub open spec fn item(self) -> int {
        match self {
            Place::Key(_) => -1,
            Place::Item(_, b) => b,
            Place::Field(_, b, _) => b,
        }
    }

    /// The item `item` with the value at this place replaced by `c`.
    pub open spec fn put_in_item(self, item: Tree, c: Tree) -> Tree {
        match self {
            Place::Field(_, _, f) => item.with_child(f, c),
            _ => c,
        }
    }

    /// The value `v` of the entry under which this place lies, with the value
    /// at this place replaced by `c`.
    pub open spec fn put_in_entry(self, v: Tree, c: Tree) -> Tree {
        match self {
            Place::Key(_) => c,
            Place::Item(_, b) => v.with_child(b, c),
            Place::Field(_, b, f) => v.with_child(b, v.child(b).with_child(f, c)),
        }
    }
}

/// Whether `s` is among the places that `after` has more than `before`.
pub open spec fn contributed(after: Plan, before: Plan, s: Place) -> bool {
    exists|k: int| before.sites.len() <= k < after.sites.len() && #[trigger] after.sites[k] == s
}

/// Whether `after` goes on from `before`: it has all its places, in their
/// places, and keeps its fault.
pub open spec fn extends(after: Plan, before: Plan) -> bool {
    &&& before.sites.len() <= after.sites.len()
    &&& forall|k: int| 0 <= k < before.sites.len() ==> #[trigger] after.sites[k] == before.sites[k]
    &&& before.failure is Some ==> after == before
}

/// What replacing the value at a place does to the entries of a node: one
/// entry changes, and no key.
pub proof fn lemma_put_entries(s: Place, t: Tree, c: Tree)
    requires
        s.valid(t),
        t.is_dict(),
    ensures
        s.put(t, c).is_dict(),
        s.put(t, c).arity() == t.arity(),
        forall|i: int|
            0 <= i < t.arity() ==> (#[trigger] s.put(t, c).entries()[i]).0 == t.entries()[i].0,
        forall|i: int|
            0 <= i < t.arity() && i != s.entry() ==> #[trigger] s.put(t, c).child(i) == t.child(i),
        s.put(t, c).child(s.entry()) == s.put_in_entry(t.child(s.entry()), c),
        0 <= s.entry() < t.arity(),
        !(t.child(s.entry()) is Str),
        !(s.put(t, c).child(s.entry()) is Str) || c is Str,
{
    let a = s.entry();
    let u = s.put(t, c);
    let entries = t.entries();
    assert(u.entries() =~= entries.update(a, (entries[a].0, s.put_in_entry(t.child(a), c))));
}

/// Replacing the value at a place moves no key.
pub proof fn lemma_put_position(s: Place, t: Tree, c: Tree, key: Seq<char>)
    requires
        s.valid(t),
        t.is_dict(),
    ensures
        position(s.put(t, c).entries(), key) == position(t.entries(), key),
{
    lemma_put_entries(s, t, c);
    crate::ref_counts::lemma_same_keys_same_position(t.entries(), s.put(t, c).entries(), key);
}

/// A step that looks at another entry than the one that changed gives the
/// same plan.
pub proof fn lemma_step_untouched(step: Step, s: Place, t: Tree, c: Tree, plan: Plan)
    requires
        s.valid(t),
        t.is_dict(),
        position(t.entries(), step.key()) != Some(s.entry()),
    ensures
        step.apply(s.put(t, c), plan) == step.apply(t, plan),
{
    lemma_put_entries(s, t, c);
    lemma_put_position(s, t, c, step.key());
    lemma_position_is_first(t.entries(), step.key());
}

/// One item gives the plan one place more, ends it with a fault, or leaves it.
pub proof fn lemma_walk_item_extends(mode: Mode, item: Tree, a: int, b: int, plan: Plan)
    requires
        plan.failure is None,
    ensures
        extends(walk_item_spec(mode, item, a, b, plan), plan),
        walk_item_spec(mode, item, a, b, plan).sites.len() <= plan.sites.len() + 1,
        forall|s: Place|
            contributed(walk_item_spec(mode, item, a, b, plan), plan, s) ==> s.entry() == a
                && s.item() == b && walk_item_spec(mode, item, a, b, Plan::empty())
                == Plan::empty().push(s),
{
    let next = walk_item_spec(mode, item, a, b, plan);
    assert forall|s: Place| contributed(next, plan, s) implies s.entry() == a && s.item() == b
        && walk_item_spec(mode, item, a, b, Plan::empty()) == Plan::empty().push(s) by {
        let k = choose|k: int| plan.sites.len() <= k < next.sites.len() && #[trigger] next.sites[k] == s;
        assert(k == plan.sites.len());
        assert(next.sites[k] == s);
    }
}

/// The items of a container only add to a plan.
pub proof fn lemma_walk_items_extends(mode: Mode, container: Tree, a: int, b: int, plan: Plan)
    ensures
        extends(walk_items_spec(mode, container, a, b, plan), plan),
    decreases container.arity() - b,
{
    if !(plan.failure is Some || b < 0 || b >= container.arity()) {
        let next = walk_item_spec(mode, container.child(b), a, b, plan);
        lemma_walk_item_extends(mode, container.child(b), a, b, plan);
        lemma_walk_items_extends(mode, container, a, b + 1, next);
    }
}

/// Whether the item `item`, which is item `b` of the container in entry `a`,
/// gives the place `s`.
pub open spec fn yields(mode: Mode, item: Tree, a: int, b: int, s: Place) -> bool {
    walk_item_spec(mode, item, a, b, Plan::empty()) == Plan::empty().push(s)
}

/// Every place that the items of a container add lies in that container, at
/// an item that gives it.
pub proof fn lemma_walk_items_contributed(
    mode: Mode,
    container: Tree,
    a: int,
    b: int,
    plan: Plan,
    s: Place,
)
    requires
        0 <= b,
        contributed(walk_items_spec(mode, container, a, b, plan), plan, s),
    ensures
        s.entry() == a,
        b <= s.item() < container.arity(),
        yields(mode, container.child(s.item()), a, s.item(), s),
    decreases container.arity() - b,
{
    let next = walk_item_spec(mode, container.child(b), a, b, plan);
    let last = walk_items_spec(mode, container, a, b, plan);
    lemma_walk_item_extends(mode, container.child(b), a, b, plan);
    lemma_walk_items_extends(mode, container, a, b + 1, next);
    let k = choose|k: int| plan.sites.len() <= k < last.sites.len() && #[trigger] last.sites[k] == s;
    if k < next.sites.len() {
        assert(next.sites[k] == s);
        assert(contributed(next, plan, s));
    } else {
        assert(contributed(last, next, s));
        lemma_walk_items_contributed(mode, container, a, b + 1, next, s);
    }
}

/// An item whose place takes another record gives the same plan.
pub proof fn lemma_walk_item_stable(mode: Mode, item: Tree, a: int, b: int, s: Place, c: Tree, plan: Plan)
    requires
        yields(mode, item, a, b, s),
        c.is_dict(),
        mode != Mode::Definition,
    ensures
        walk_item_spec(mode, s.put_in_item(item, c), a, b, plan) == walk_item_spec(
            mode,
            item,
            a,
            b,
            plan,
        ),
        s.entry() == a,
        s.item() == b,
        s is Item || (s is Field && 0 <= s->Field_2 < item.arity()),
{
    let after = s.put_in_item(item, c);
    let empty = Plan::empty();
    assert(empty.push(s).sites[0] == s);
    match mode {
        Mode::FieldSchema => {
            assert(walk_item_spec(mode, item, a, b, empty) == walk_field_spec(
                inner_key(mode),
                item,
                a,
                b,
                empty,
            ));
            lemma_field_stable(inner_key(mode), item, a, b, s, c, plan);
            assert(s.entry() == a);
        },
        Mode::FieldReturn => {
            assert(walk_item_spec(mode, item, a, b, empty) == walk_field_spec(
                inner_key(mode),
                item,
                a,
                b,
                empty,
            ));
            lemma_field_stable(inner_key(mode), item, a, b, s, c, plan);
            assert(s.entry() == a);
        },
        Mode::Choice => {
            if !item.is_dict() {
                assert(empty.push(Place::Field(a, b, 0)).sites[0] == Place::Field(a, b, 0));
                assert(s == Place::Field(a, b, 0));
                assert(after is Tuple && after.arity() == item.arity());
                assert(after.child(0) == c);
            } else {
                assert(empty.push(Place::Item(a, b)).sites[0] == Place::Item(a, b));
            }
        },
        _ => {
            assert(empty.push(Place::Item(a, b)).sites[0] == Place::Item(a, b));
        },
    }
}

/// A field record whose schema is replaced by another record gives the same plan.
pub proof fn lemma_field_stable(key: Seq<char>, item: Tree, a: int, b: int, s: Place, c: Tree, plan: Plan)
    requires
        walk_field_spec(key, item, a, b, Plan::empty())
            == Plan::empty().push(s),
        c.is_dict(),
    ensures
        walk_field_spec(key, s.put_in_item(item, c), a, b, plan)
            == walk_field_spec(key, item, a, b, plan),
        s.entry() == a,
        s.item() == b,
        s is Field && 0 <= s->Field_2 < item.arity(),
{
    let empty = Plan::empty();
    assert(empty.push(s).sites[0] == s);
    lemma_position_is_first(item.entries(), key);
    let f = position(item.entries(), key)->0;
    assert(s == Place::Field(a, b, f));
    let after = item.with_child(f, c);
    assert(after.entries() =~= item.entries().update(f, (item.entries()[f].0, c)));
    crate::ref_counts::lemma_same_keys_same_position(item.entries(), after.entries(), key);
}

/// A container one of whose items takes another record at its place gives the
/// same plan.
pub proof fn lemma_walk_items_stable(
    mode: Mode,
    container: Tree,
    a: int,
    s: Place,
    c: Tree,
    j: int,
    plan: Plan,
)
    requires
        0 <= s.item() < container.arity(),
        yields(mode, container.child(s.item()), a, s.item(), s),
        c.is_dict(),
        mode != Mode::Definition,
        0 <= j,
    ensures
        walk_items_spec(
            mode,
            container.with_child(s.item(), s.put_in_item(container.child(s.item()), c)),
            a,
            j,
            plan,
        ) == walk_items_spec(mode, container, a, j, plan),
    decreases container.arity() - j,
{
    let b = s.item();
    let after = container.with_child(b, s.put_in_item(container.child(b), c));
    crate::value::lemma_with_child_twice(
        container,
        b,
        s.put_in_item(container.child(b), c),
        s.put_in_item(container.child(b), c),
    );
    assert(after.arity() == container.arity());
    if !(plan.failure is Some || j >= container.arity()) {
        if j == b {
            lemma_walk_item_stable(mode, container.child(b), a, b, s, c, plan);
        } else {
            assert(after.child(j) == container.child(j)) by {
                lemma_with_child_other(container, b, s.put_in_item(container.child(b), c), j);
            }
        }
        lemma_walk_items_stable(
            mode,
            container,
            a,
            s,
            c,
            j + 1,
            walk_item_spec(mode, container.child(j), a, j, plan),
        );
    }
}

/// Replacing one child leaves the other children.
pub proof fn lemma_with_child_other(t: Tree, i: int, x: Tree, j: int)
    requires
        0 <= j < t.arity(),
        i != j,
    ensures
        t.with_child(i, x).child(j) == t.child(j),
        t.with_child(i, x).arity() == t.arity(),
        t.with_child(i, x) is Dict == t is Dict,
        t.with_child(i, x) is List == t is List,
        t.with_child(i, x) is Tuple == t is Tuple,
{
}

/// Whether a step looks for definitions, which must bear a `ref`.
pub open spec fn for_definitions(step: Step) -> bool {
    step matches Step::Container(_, _, _, mode) && mode == Mode::Definition
}

/// What was contributed to a plan on the way was contributed in the end.
pub proof fn lemma_contributed_split(first: Plan, mid: Plan, last: Plan, s: Place)
    requires
        extends(mid, first),
        extends(last, mid),
        contributed(last, first, s),
    ensures
        contributed(mid, first, s) || contributed(last, mid, s),
{
    let k = choose|k: int| first.sites.len() <= k < last.sites.len() && #[trigger] last.sites[k] == s;
    if k < mid.sites.len() {
        assert(mid.sites[k] == s);
    } else {
        assert(last.sites[k] == s);
    }
}

/// A step only adds to a plan.
pub proof fn lemma_step_extends(step: Step, t: Tree, plan: Plan)
    ensures
        extends(step.apply(t, plan), plan),
{
    match step {
        Step::Container(key, mapping, required, mode) => {
            if plan.failure is None {
                if let Some(a) = position(t.entries(), key) {
                    lemma_walk_items_extends(mode, t.child(a), a, 0, plan);
                }
            }
        },
        _ => {},
    }
}

/// The places that a step contributes lie under the entry of its key.
pub proof fn lemma_step_contributed(step: Step, t: Tree, plan: Plan, s: Place)
    requires
        contributed(step.apply(t, plan), plan, s),
    ensures
        position(t.entries(), step.key()) == Some(s.entry()),
{
    let after = step.apply(t, plan);
    let k = choose|k: int| plan.sites.len() <= k < after.sites.len() && #[trigger] after.sites[k] == s;
    match step {
        Step::Container(key, mapping, required, mode) => {
            let a = position(t.entries(), key)->0;
            lemma_walk_items_contributed(mode, t.child(a), a, 0, plan, s);
        },
        _ => {
            assert(after.sites[k] == s);
        },
    }
}

/// A step one of whose children takes another record gives the same plan.
pub proof fn lemma_step_stable(step: Step, s: Place, t: Tree, c: Tree, before: Plan, plan: Plan)
    requires
        s.valid(t),
        t.is_dict(),
        c.is_dict(),
        !for_definitions(step),
        contributed(step.apply(t, before), before, s),
    ensures
        step.apply(s.put(t, c), plan) == step.apply(t, plan),
{
    let u = s.put(t, c);
    lemma_step_contributed(step, t, before, s);
    lemma_put_entries(s, t, c);
    lemma_put_position(s, t, c, step.key());
    let a = s.entry();
    let after = step.apply(t, before);
    let k = choose|k: int|
        before.sites.len() <= k < after.sites.len() && #[trigger] after.sites[k] == s;
    match step {
        Step::Container(key, mapping, required, mode) => {
            let container = t.child(a);
            lemma_walk_items_contributed(mode, container, a, 0, before, s);
            lemma_walk_item_stable(mode, container.child(s.item()), a, s.item(), s, c, plan);
            lemma_walk_items_stable(mode, container, a, s, c, 0, plan);
            assert(u.child(a) == container.with_child(
                s.item(),
                s.put_in_item(container.child(s.item()), c),
            ));
            assert(u.child(a) is Dict == container is Dict);
            assert(u.child(a) is List == container is List);
        },
        _ => {
            assert(after.sites[k] == s);
            assert(s == Place::Key(a));
        },
    }
}

/// Steps only add to a plan.
pub proof fn lemma_steps_extends(steps: Seq<Step>, i: int, t: Tree, plan: Plan)
    ensures
        extends(apply_steps(steps, i, t, plan), plan),
    decreases steps.len() - i,
{
    if 0 <= i < steps.len() {
        lemma_step_extends(steps[i], t, plan);
        lemma_steps_extends(steps, i + 1, t, steps[i].apply(t, plan));
    }
}

/// Steps that look at other entries than the one that changed give the same plan.
pub proof fn lemma_steps_untouched(steps: Seq<Step>, i: int, s: Place, t: Tree, c: Tree, plan: Plan)
    requires
        s.valid(t),
        t.is_dict(),
        forall|j: int|
            i <= j < steps.len() ==> position(t.entries(), (#[trigger] steps[j]).key()) != Some(
                s.entry(),
            ),
    ensures
        apply_steps(steps, i, s.put(t, c), plan) == apply_steps(steps, i, t, plan),
    decreases steps.len() - i,
{
    if 0 <= i < steps.len() {
        lemma_step_untouched(steps[i], s, t, c, plan);
        lemma_steps_untouched(steps, i + 1, s, t, c, steps[i].apply(t, plan));
    }
}

/// Two keys do not stand in the same place.
pub proof fn lemma_keys_apart<V>(entries: Seq<(Seq<char>, V)>, one: Seq<char>, other: Seq<char>)
    requires
        one != other,
        position(entries, one) is Some,
    ensures
        position(entries, other) != position(entries, one),
{
    lemma_position_is_first(entries, one);
    lemma_position_is_first(entries, other);
}

/// Steps one of whose children takes another record give the same plan.
pub proof fn lemma_steps_stable(steps: Seq<Step>, i: int, s: Place, t: Tree, c: Tree, plan: Plan)
    requires
        0 <= i,
        s.valid(t),
        t.is_dict(),
        c.is_dict(),
        steps_distinct(steps),
        forall|j: int| 0 <= j < steps.len() ==> !for_definitions(#[trigger] steps[j]),
        contributed(apply_steps(steps, i, t, plan), plan, s),
    ensures
        apply_steps(steps, i, s.put(t, c), plan) == apply_steps(steps, i, t, plan),
        exists|j: int|
            i <= j < steps.len() && position(t.entries(), (#[trigger] steps[j]).key()) == Some(
                s.entry(),
            ),
    decreases steps.len() - i,
{
    assert(i < steps.len());
    let next = steps[i].apply(t, plan);
    let last = apply_steps(steps, i + 1, t, next);
    lemma_step_extends(steps[i], t, plan);
    lemma_steps_extends(steps, i + 1, t, next);
    lemma_contributed_split(plan, next, last, s);
    if contributed(next, plan, s) {
        lemma_step_contributed(steps[i], t, plan, s);
        lemma_step_stable(steps[i], s, t, c, plan, plan);
        assert forall|j: int| i + 1 <= j < steps.len() implies position(
            t.entries(),
            (#[trigger] steps[j]).key(),
        ) != Some(s.entry()) by {
            assert(steps[i].key() != steps[j].key());
            lemma_keys_apart(t.entries(), steps[i].key(), steps[j].key());
        }
        lemma_steps_untouched(steps, i + 1, s, t, c, next);
    } else {
        lemma_steps_stable(steps, i + 1, s, t, c, next);
        let j = choose|j: int|
            i + 1 <= j < steps.len() && position(t.entries(), (#[trigger] steps[j]).key()) == Some(
                s.entry(),
            );
        assert(steps[i].key() != steps[j].key());
        lemma_keys_apart(t.entries(), steps[j].key(), steps[i].key());
        lemma_step_untouched(steps[i], s, t, c, plan);
    }
}

/// The places that the serialization contributes lie under its entry.
pub proof fn lemma_serialization_contributed(t: Tree, plan: Plan, s: Place)
    requires
        contributed(walk_serialization_spec(t, plan), plan, s),
    ensures
        position(t.entries(), "serialization"@) == Some(s.entry()),
        s is Item,
        position(t.child(s.entry()).entries(), "schema"@) == Some(s.item()) || position(
            t.child(s.entry()).entries(),
            "return_schema"@,
        ) == Some(s.item()),
        t.child(s.entry()).is_dict(),
{
    let after = walk_serialization_spec(t, plan);
    let k = choose|k: int| plan.sites.len() <= k < after.sites.len() && #[trigger] after.sites[k] == s;
    let a = position(t.entries(), "serialization"@)->0;
    let ser = t.child(a);
    let mid = walk_serialization_key_spec("schema"@, ser, a, plan);
    if k < mid.sites.len() {
        assert(mid.sites[k] == s);
    } else {
        assert(after.sites[k] == s);
    }
}

/// The serialization of a node of which another entry changed gives the same plan.
pub proof fn lemma_serialization_untouched(s: Place, t: Tree, c: Tree, plan: Plan)
    requires
        s.valid(t),
        t.is_dict(),
        position(t.entries(), "serialization"@) != Some(s.entry()),
    ensures
        walk_serialization_spec(s.put(t, c), plan) == walk_serialization_spec(t, plan),
{
    lemma_put_entries(s, t, c);
    lemma_put_position(s, t, c, "serialization"@);
    lemma_position_is_first(t.entries(), "serialization"@);
}

/// The serialization one of whose children takes another record gives the
/// same plan.
pub proof fn lemma_serialization_stable(s: Place, t: Tree, c: Tree, before: Plan, plan: Plan)
    requires
        s.valid(t),
        t.is_dict(),
        c.is_dict(),
        contributed(walk_serialization_spec(t, before), before, s),
    ensures
        walk_serialization_spec(s.put(t, c), plan) == walk_serialization_spec(t, plan),
{
    lemma_key_prints();
    lemma_serialization_contributed(t, before, s);
    lemma_put_entries(s, t, c);
    lemma_put_position(s, t, c, "serialization"@);
    let a = s.entry();
    let b = s.item();
    let ser = t.child(a);
    let after = ser.with_child(b, c);
    lemma_position_is_first(ser.entries(), "schema"@);
    lemma_position_is_first(ser.entries(), "return_schema"@);
    assert(after.entries() =~= ser.entries().update(b, (ser.entries()[b].0, c)));
    crate::ref_counts::lemma_same_keys_same_position(ser.entries(), after.entries(), "schema"@);
    crate::ref_counts::lemma_same_keys_same_position(
        ser.entries(),
        after.entries(),
        "return_schema"@,
    );
}

/// The type, the ref and the metadata of a node are no child schemas of it:
/// they stay when a child schema is replaced.
pub proof fn lemma_put_keeps_marks(t: Tree, k: int, c: Tree)
    requires
        0 <= k < recurse_spec(t).sites.len(),
        c.is_dict(),
    ensures
        tag_of(recurse_spec(t).sites[k].put(t, c)) == tag_of(t),
        crate::collect::ref_of(recurse_spec(t).sites[k].put(t, c)) == crate::collect::ref_of(t),
        crate::collect::invalid_schema_spec(recurse_spec(t).sites[k].put(t, c))
            == crate::collect::invalid_schema_spec(t),
        recurse_spec(t).sites[k].put(t, c).get("metadata"@) == t.get("metadata"@),
{
    let s = recurse_spec(t).sites[k];
    let u = s.put(t, c);
    crate::walk_core_schema::lemma_recurse_valid(t);
    assert(s.valid(t));
    let tag = tag_of(t)->Ok_0;
    lemma_put_entries(s, t, c);
    lemma_put_position(s, t, c, "type"@);
    lemma_put_position(s, t, c, "ref"@);
    lemma_put_position(s, t, c, "metadata"@);
    lemma_position_is_first(t.entries(), "type"@);
    lemma_position_is_first(t.entries(), "ref"@);
    lemma_position_is_first(t.entries(), "metadata"@);
    lemma_walk_tag_steps(tag, t, Plan::empty());
    lemma_steps_of_distinct(tag);
    let steps = steps_of(tag);
    let mid = apply_steps(steps, 0, t, Plan::empty());
    let last = walk_serialization_spec(t, mid);
    lemma_steps_extends(steps, 0, t, Plan::empty());
    assert(last.sites[k] == s);
    if k < mid.sites.len() {
        assert(mid.sites[k] == s);
        assert(contributed(mid, Plan::empty(), s));
        lemma_steps_contributed(steps, 0, t, Plan::empty(), s);
        let j = choose|j: int|
            0 <= j < steps.len() && position(t.entries(), (#[trigger] steps[j]).key()) == Some(
                s.entry(),
            );
        assert(steps[j].key() != "metadata"@);
        lemma_keys_apart(t.entries(), steps[j].key(), "metadata"@);
    } else {
        assert(contributed(last, mid, s));
        lemma_serialization_contributed(t, mid, s);
        lemma_serialization_is_no_metadata();
        lemma_keys_apart(t.entries(), "serialization"@, "metadata"@);
    }
}

/// The metadata of a node is none of its child schemas and holds none.
pub proof fn lemma_site_is_no_metadata(t: Tree, k: int)
    requires
        0 <= k < recurse_spec(t).sites.len(),
    ensures
        position(t.entries(), "metadata"@) != Some(recurse_spec(t).sites[k].entry()),
{
    let s = recurse_spec(t).sites[k];
    let tag = tag_of(t)->Ok_0;
    lemma_walk_tag_steps(tag, t, Plan::empty());
    lemma_steps_of_distinct(tag);
    let steps = steps_of(tag);
    let mid = apply_steps(steps, 0, t, Plan::empty());
    let last = walk_serialization_spec(t, mid);
    lemma_steps_extends(steps, 0, t, Plan::empty());
    assert(last.sites[k] == s);
    if k < mid.sites.len() {
        assert(mid.sites[k] == s);
        assert(contributed(mid, Plan::empty(), s));
        lemma_steps_contributed(steps, 0, t, Plan::empty(), s);
        let j = choose|j: int|
            0 <= j < steps.len() && position(t.entries(), (#[trigger] steps[j]).key()) == Some(
                s.entry(),
            );
        assert(steps[j].key() != "metadata"@);
        lemma_keys_apart(t.entries(), steps[j].key(), "metadata"@);
    } else {
        assert(contributed(last, mid, s));
        lemma_serialization_contributed(t, mid, s);
        lemma_serialization_is_no_metadata();
        lemma_keys_apart(t.entries(), "serialization"@, "metadata"@);
    }
}

/// No step of a walk looks under `type`, nor does the walk of the
/// serialization.
pub proof fn lemma_steps_spare_type(tag: Seq<char>)
    ensures
        forall|n: int| 0 <= n < steps_of(tag).len() ==> (#[trigger] steps_of(tag)[n]).key() != "type"@,
        "serialization"@ != "type"@,
{
    reveal_strlit("type");
    lemma_key_prints();
    assert forall|n: int| 0 <= n < steps_of(tag).len() implies (#[trigger] steps_of(tag)[n]).key()
        != "type"@ by {
        assert(print(steps_of(tag)[n].key()).0 != 4);
    }
    assert(print("serialization"@).0 != 4);
}

/// The type of a node is none of its child schemas and holds none.
pub proof fn lemma_site_is_no_type(t: Tree, k: int)
    requires
        0 <= k < recurse_spec(t).sites.len(),
    ensures
        position(t.entries(), "type"@) != Some(recurse_spec(t).sites[k].entry()),
{
    let s = recurse_spec(t).sites[k];
    let tag = tag_of(t)->Ok_0;
    lemma_steps_spare_type(tag);
    lemma_walk_tag_steps(tag, t, Plan::empty());
    let steps = steps_of(tag);
    let mid = apply_steps(steps, 0, t, Plan::empty());
    let last = walk_serialization_spec(t, mid);
    lemma_steps_extends(steps, 0, t, Plan::empty());
    assert(last.sites[k] == s);
    if k < mid.sites.len() {
        assert(mid.sites[k] == s);
        assert(contributed(mid, Plan::empty(), s));
        lemma_steps_contributed(steps, 0, t, Plan::empty(), s);
        let j = choose|j: int|
            0 <= j < steps.len() && position(t.entries(), (#[trigger] steps[j]).key()) == Some(
                s.entry(),
            );
        assert(steps[j].key() != "type"@);
        lemma_keys_apart(t.entries(), steps[j].key(), "type"@);
    } else {
        assert(contributed(last, mid, s));
        lemma_serialization_contributed(t, mid, s);
        lemma_keys_apart(t.entries(), "serialization"@, "type"@);
    }
}

/// No step of a walk looks under `ref`, nor does the walk of the
/// serialization.
pub proof fn lemma_steps_spare_ref(tag: Seq<char>)
    ensures
        forall|n: int| 0 <= n < steps_of(tag).len() ==> (#[trigger] steps_of(tag)[n]).key() != "ref"@,
        "serialization"@ != "ref"@,
{
    reveal_strlit("ref");
    lemma_key_prints();
    assert forall|n: int| 0 <= n < steps_of(tag).len() implies (#[trigger] steps_of(tag)[n]).key()
        != "ref"@ by {
        assert(print(steps_of(tag)[n].key()).0 != 3);
    }
    assert(print("serialization"@).0 != 3);
}

/// The `ref` of a node is none of its child schemas and holds none.
pub proof fn lemma_site_is_no_ref(t: Tree, k: int)
    requires
        0 <= k < recurse_spec(t).sites.len(),
    ensures
        position(t.entries(), "ref"@) != Some(recurse_spec(t).sites[k].entry()),
{
    let s = recurse_spec(t).sites[k];
    let tag = tag_of(t)->Ok_0;
    lemma_steps_spare_ref(tag);
    lemma_walk_tag_steps(tag, t, Plan::empty());
    let steps = steps_of(tag);
    let mid = apply_steps(steps, 0, t, Plan::empty());
    let last = walk_serialization_spec(t, mid);
    lemma_steps_extends(steps, 0, t, Plan::empty());
    assert(last.sites[k] == s);
    if k < mid.sites.len() {
        assert(mid.sites[k] == s);
        assert(contributed(mid, Plan::empty(), s));
        lemma_steps_contributed(steps, 0, t, Plan::empty(), s);
        let j = choose|j: int|
            0 <= j < steps.len() && position(t.entries(), (#[trigger] steps[j]).key()) == Some(
                s.entry(),
            );
        assert(steps[j].key() != "ref"@);
        lemma_keys_apart(t.entries(), steps[j].key(), "ref"@);
    } else {
        assert(contributed(last, mid, s));
        lemma_serialization_contributed(t, mid, s);
        lemma_keys_apart(t.entries(), "serialization"@, "ref"@);
    }
}

/// The serialization and the metadata stand under different keys.
pub proof fn lemma_serialization_is_no_metadata()
    ensures
        "serialization"@ != "metadata"@,
{
    lemma_key_prints();
}

/// Only a `definitions` node has a step that looks for definitions.
pub proof fn lemma_steps_of_plain(tag: Seq<char>)
    requires
        tag != "definitions"@,
    ensures
        forall|j: int| 0 <= j < steps_of(tag).len() ==> !for_definitions(#[trigger] steps_of(tag)[j]),
{
}

/// The places that steps contribute lie under the entry of the key of one of them.
pub proof fn lemma_steps_contributed(steps: Seq<Step>, i: int, t: Tree, plan: Plan, s: Place)
    requires
        0 <= i,
        contributed(apply_steps(steps, i, t, plan), plan, s),
    ensures
        exists|j: int|
            i <= j < steps.len() && position(t.entries(), (#[trigger] steps[j]).key()) == Some(
                s.entry(),
            ),
    decreases steps.len() - i,
{
    assert(i < steps.len());
    let next = steps[i].apply(t, plan);
    let last = apply_steps(steps, i + 1, t, next);
    lemma_step_extends(steps[i], t, plan);
    lemma_steps_extends(steps, i + 1, t, next);
    lemma_contributed_split(plan, next, last, s);
    if contributed(next, plan, s) {
        lemma_step_contributed(steps[i], t, plan, s);
    } else {
        lemma_steps_contributed(steps, i + 1, t, next, s);
        let j = choose|j: int|
            i + 1 <= j < steps.len() && position(t.entries(), (#[trigger] steps[j]).key()) == Some(
                s.entry(),
            );
        assert(i <= j < steps.len());
    }
}

/// Stability of the walk: a node one of whose child schemas is replaced by
/// another record is walked as before. (A `definitions` node is left out: its
/// definitions must bear a `ref`.)
pub proof fn lemma_recurse_stable(t: Tree, k: int, c: Tree)
    requires
        0 <= k < recurse_spec(t).sites.len(),
        c.is_dict(),
        tag_of(t) != Ok::<Seq<char>, SchemaError>("definitions"@),
    ensures
        recurse_spec(recurse_spec(t).sites[k].put(t, c)) == recurse_spec(t),
        recurse_spec(t).sites[k].put(t, c).is_dict(),
{
    let s = recurse_spec(t).sites[k];
    let u = s.put(t, c);
    crate::walk_core_schema::lemma_recurse_valid(t);
    assert(s.valid(t));
    lemma_put_keeps_marks(t, k, c);
    lemma_put_entries(s, t, c);
    let tag = tag_of(t)->Ok_0;
    let empty = Plan::empty();
    lemma_walk_tag_steps(tag, t, empty);
    lemma_walk_tag_steps(tag, u, empty);
    lemma_steps_of_distinct(tag);
    lemma_steps_of_plain(tag);
    let steps = steps_of(tag);
    let mid = apply_steps(steps, 0, t, empty);
    let last = walk_serialization_spec(t, mid);
    lemma_steps_extends(steps, 0, t, empty);
    assert(last.sites[k] == s);
    if k < mid.sites.len() {
        assert(mid.sites[k] == s);
        assert(contributed(mid, empty, s));
        lemma_steps_stable(steps, 0, s, t, c, empty);
        let j = choose|j: int|
            0 <= j < steps.len() && position(t.entries(), (#[trigger] steps[j]).key()) == Some(
                s.entry(),
            );
        assert(steps[j].key() != "serialization"@);
        lemma_keys_apart(t.entries(), steps[j].key(), "serialization"@);
        lemma_serialization_untouched(s, t, c, mid);
    } else {
        assert(contributed(last, mid, s));
        lemma_serialization_contributed(t, mid, s);
        assert forall|j: int| 0 <= j < steps.len() implies position(
            t.entries(),
            (#[trigger] steps[j]).key(),
        ) != Some(s.entry()) by {
            assert(steps[j].key() != "serialization"@);
            lemma_keys_apart(t.entries(), "serialization"@, steps[j].key());
        }
        lemma_steps_untouched(steps, 0, s, t, c, empty);
        lemma_serialization_stable(s, t, c, mid, mid);
    }
}

/// Whether two places lie apart: under different entries, or at different
/// items of the same container.
pub open spec fn apart(p: Place, q: Place) -> bool {
    p.entry() != q.entry() || (!(p is Key) && !(q is Key) && p.item() != q.item())
}

/// Whether all places of a plan lie apart from one another.
pub open spec fn spread(plan: Plan) -> bool {
    forall|i: int, j: int|
        0 <= i < j < plan.sites.len() ==> apart(#[trigger] plan.sites[i], #[trigger] plan.sites[j])
}

/// Whether the places of a plan under the entry `a` lie at items before `b`.
pub open spec fn under(plan: Plan, a: int, b: int) -> bool {
    forall|i: int|
        0 <= i < plan.sites.len() && (#[trigger] plan.sites[i]).entry() == a ==> !(plan.sites[i]
            is Key) && plan.sites[i].item() < b
}

/// The items of a container give places that lie apart.
pub proof fn lemma_walk_items_spread(mode: Mode, container: Tree, a: int, b: int, plan: Plan)
    requires
        0 <= b,
        spread(plan),
        under(plan, a, b),
    ensures
        spread(walk_items_spec(mode, container, a, b, plan)),
    decreases container.arity() - b,
{
    if !(plan.failure is Some || b >= container.arity()) {
        let next = walk_item_spec(mode, container.child(b), a, b, plan);
        lemma_walk_item_extends(mode, container.child(b), a, b, plan);
        assert forall|i: int|
            0 <= i < next.sites.len() && (#[trigger] next.sites[i]).entry() == a implies !(
        next.sites[i] is Key) && next.sites[i].item() < b + 1 by {
            if i < plan.sites.len() {
                assert(next.sites[i] == plan.sites[i]);
            } else {
                assert(contributed(next, plan, next.sites[i]));
                lemma_walk_item_form(mode, container.child(b), a, b, plan, next.sites[i]);
            }
        }
        assert forall|i: int, j: int| 0 <= i < j < next.sites.len() implies apart(
            #[trigger] next.sites[i],
            #[trigger] next.sites[j],
        ) by {
            assert(next.sites[i] == plan.sites[i]);
            if j < plan.sites.len() {
                assert(next.sites[j] == plan.sites[j]);
            } else {
                assert(contributed(next, plan, next.sites[j]));
                lemma_walk_item_form(mode, container.child(b), a, b, plan, next.sites[j]);
            }
        }
        lemma_walk_items_spread(mode, container, a, b + 1, next);
    }
}

/// The place that an item gives lies at that item, and is no single child.
pub proof fn lemma_walk_item_form(mode: Mode, item: Tree, a: int, b: int, plan: Plan, s: Place)
    requires
        plan.failure is None,
        contributed(walk_item_spec(mode, item, a, b, plan), plan, s),
    ensures
        s.entry() == a,
        s.item() == b,
        !(s is Key),
{
    let next = walk_item_spec(mode, item, a, b, plan);
    let k = choose|k: int| plan.sites.len() <= k < next.sites.len() && #[trigger] next.sites[k] == s;
    assert(next.sites[k] == s);
}

/// Whether no place of a plan lies under the entry `a`.
pub open spec fn fresh(plan: Plan, a: int) -> bool {
    forall|i: int| 0 <= i < plan.sites.len() ==> (#[trigger] plan.sites[i]).entry() != a
}

/// A step that looks at a fresh entry gives places that lie apart.
pub proof fn lemma_step_spread(step: Step, t: Tree, plan: Plan)
    requires
        spread(plan),
        position(t.entries(), step.key()) matches Some(a) ==> fresh(plan, a),
    ensures
        spread(step.apply(t, plan)),
{
    let next = step.apply(t, plan);
    match step {
        Step::Container(key, mapping, required, mode) => {
            if plan.failure is None {
                if let Some(a) = position(t.entries(), key) {
                    lemma_walk_items_spread(mode, t.child(a), a, 0, plan);
                }
            }
        },
        _ => {
            assert forall|i: int, j: int| 0 <= i < j < next.sites.len() implies apart(
                #[trigger] next.sites[i],
                #[trigger] next.sites[j],
            ) by {
                assert(next.sites[i] == plan.sites[i]);
                if j < plan.sites.len() {
                    assert(next.sites[j] == plan.sites[j]);
                }
            }
        },
    }
}

/// Whether the entry `a` is that of the key of one of the steps before the `i`-th.
pub open spec fn owner(steps: Seq<Step>, i: int, t: Tree, a: int) -> bool {
    exists|j: int|
        0 <= j < i && j < steps.len() && position(t.entries(), (#[trigger] steps[j]).key())
            == Some(a)
}

/// Whether every place of a plan lies under the entry of the key of one of the
/// steps before the `i`-th.
pub open spec fn owned(plan: Plan, steps: Seq<Step>, i: int, t: Tree) -> bool {
    forall|k: int|
        0 <= k < plan.sites.len() ==> owner(steps, i, t, (#[trigger] plan.sites[k]).entry())
}

/// An entry of one of the steps before the `i`-th is one of the steps before a
/// later one, and of all steps.
pub proof fn lemma_owner_more(steps: Seq<Step>, i: int, t: Tree, a: int, more: int)
    requires
        owner(steps, i, t, a),
        i <= more || steps.len() <= more,
    ensures
        owner(steps, more, t, a),
{
    let j = choose|j: int|
        0 <= j < i && j < steps.len() && position(t.entries(), (#[trigger] steps[j]).key())
            == Some(a);
    assert(0 <= j < more && j < steps.len() && position(t.entries(), steps[j].key()) == Some(a));
}

/// An entry of one of the steps is not that of another key.
pub proof fn lemma_owner_apart(steps: Seq<Step>, i: int, t: Tree, a: int, key: Seq<char>)
    requires
        owner(steps, i, t, a),
        forall|j: int| 0 <= j < i && j < steps.len() ==> (#[trigger] steps[j]).key() != key,
    ensures
        position(t.entries(), key) != Some(a),
{
    let j = choose|j: int|
        0 <= j < i && j < steps.len() && position(t.entries(), (#[trigger] steps[j]).key())
            == Some(a);
    assert(steps[j].key() != key);
    lemma_keys_apart(t.entries(), steps[j].key(), key);
}

/// Steps under different keys give places that lie apart.
pub proof fn lemma_steps_spread(steps: Seq<Step>, i: int, t: Tree, plan: Plan)
    requires
        0 <= i,
        steps_distinct(steps),
        spread(plan),
        owned(plan, steps, i, t),
    ensures
        spread(apply_steps(steps, i, t, plan)),
        owned(apply_steps(steps, i, t, plan), steps, steps.len() as int, t),
    decreases steps.len() - i,
{
    if i < steps.len() {
        let next = steps[i].apply(t, plan);
        if let Some(a) = position(t.entries(), steps[i].key()) {
            assert forall|k: int| 0 <= k < plan.sites.len() implies (#[trigger] plan.sites[k]).entry()
                != a by {
                assert forall|j: int| 0 <= j < i && j < steps.len() implies (#[trigger] steps[j]).key()
                    != steps[i].key() by {}
                lemma_owner_apart(steps, i, t, plan.sites[k].entry(), steps[i].key());
            }
        }
        lemma_step_spread(steps[i], t, plan);
        lemma_step_extends(steps[i], t, plan);
        assert forall|k: int| 0 <= k < next.sites.len() implies owner(
            steps,
            i + 1,
            t,
            (#[trigger] next.sites[k]).entry(),
        ) by {
            if k < plan.sites.len() {
                assert(next.sites[k] == plan.sites[k]);
                lemma_owner_more(steps, i, t, plan.sites[k].entry(), i + 1);
            } else {
                assert(contributed(next, plan, next.sites[k]));
                lemma_step_contributed(steps[i], t, plan, next.sites[k]);
                assert(0 <= i < i + 1 && i < steps.len() && position(
                    t.entries(),
                    steps[i].key(),
                ) == Some(next.sites[k].entry()));
            }
        }
        lemma_steps_spread(steps, i + 1, t, next);
    } else {
        assert forall|k: int| 0 <= k < plan.sites.len() implies owner(
            steps,
            steps.len() as int,
            t,
            (#[trigger] plan.sites[k]).entry(),
        ) by {
            lemma_owner_more(steps, i, t, plan.sites[k].entry(), steps.len() as int);
        }
    }
}

/// The places of the walk of a node lie apart from one another.
pub proof fn lemma_recurse_spread(t: Tree)
    ensures
        spread(recurse_spec(t)),
{
    if let Ok(tag) = tag_of(t) {
        let empty = Plan::empty();
        let steps = steps_of(tag);
        lemma_walk_tag_steps(tag, t, empty);
        lemma_steps_of_distinct(tag);
        lemma_steps_spread(steps, 0, t, empty);
        let mid = apply_steps(steps, 0, t, empty);
        lemma_serialization_spread(t, steps, mid);
    }
}

/// The serialization gives places that lie apart from those of the steps, and
/// from one another.
pub proof fn lemma_serialization_spread(t: Tree, steps: Seq<Step>, plan: Plan)
    requires
        steps_distinct(steps),
        spread(plan),
        owned(plan, steps, steps.len() as int, t),
    ensures
        spread(walk_serialization_spec(t, plan)),
{
    lemma_key_prints();
    let last = walk_serialization_spec(t, plan);
    if plan.failure is None {
        if let Some(a) = position(t.entries(), "serialization"@) {
            let ser = t.child(a);
            assert forall|k: int| 0 <= k < plan.sites.len() implies (#[trigger] plan.sites[k]).entry()
                != a by {
                lemma_owner_apart(
                    steps,
                    steps.len() as int,
                    t,
                    plan.sites[k].entry(),
                    "serialization"@,
                );
            }
            if ser.is_dict() {
                let mid = walk_serialization_key_spec("schema"@, ser, a, plan);
                if position(ser.entries(), "schema"@) is Some {
                    lemma_keys_apart(ser.entries(), "schema"@, "return_schema"@);
                }
                assert forall|i: int, j: int| 0 <= i < j < last.sites.len() implies apart(
                    #[trigger] last.sites[i],
                    #[trigger] last.sites[j],
                ) by {
                    if j < plan.sites.len() {
                        assert(last.sites[i] == plan.sites[i]);
                        assert(last.sites[j] == plan.sites[j]);
                    } else if i < plan.sites.len() {
                        assert(last.sites[i] == plan.sites[i]);
                        assert(last.sites[j].entry() == a);
                    } else {
                        assert(last.sites[i] == mid.sites[i]);
                    }
                }
            }
        }
    }
}

/// What stands at a place after something was put there.
pub proof fn lemma_put_of(p: Place, t: Tree, c: Tree)
    requires
        p.valid(t),
    ensures
        p.of(p.put(t, c)) == c,
        c.is_dict() ==> p.valid(p.put(t, c)),
{
    match p {
        Place::Key(a) => {
            crate::value::lemma_with_child_twice(t, a, c, c);
        },
        Place::Item(a, b) => {
            crate::value::lemma_with_child_twice(t.child(a), b, c, c);
            crate::value::lemma_with_child_twice(t, a, t.child(a).with_child(b, c), c);
        },
        Place::Field(a, b, f) => {
            let item = t.child(a).child(b).with_child(f, c);
            crate::value::lemma_with_child_twice(t.child(a).child(b), f, c, c);
            crate::value::lemma_with_child_twice(t.child(a), b, item, c);
            crate::value::lemma_with_child_twice(t, a, t.child(a).with_child(b, item), c);
        },
    }
}

/// Putting something at one place leaves what stands at a place apart from it.
pub proof fn lemma_put_other(p: Place, q: Place, t: Tree, c: Tree)
    requires
        p.valid(t),
        q.valid(t),
        apart(p, q),
    ensures
        q.of(p.put(t, c)) == q.of(t),
        q.valid(p.put(t, c)),
{
    let a = p.entry();
    let inner = p.put_in_entry(t.child(a), c);
    crate::value::lemma_with_child_twice(t, a, inner, inner);
    if q.entry() != a {
        lemma_with_child_other(t, a, inner, q.entry());
    } else {
        let b = p.item();
        let container = t.child(a);
        let item = p.put_in_item(container.child(b), c);
        assert(inner == container.with_child(b, item));
        crate::value::lemma_with_child_twice(container, b, item, item);
        lemma_with_child_other(container, b, item, q.item());
    }
}

/// Replacing a child schema by another record: the node is walked as before,
/// the new child stands where the old one stood, the other children stay, and
/// so do the type, the ref and the metadata of the node. (A `definitions` node
/// is left out: its definitions must bear a `ref`.)
pub proof fn lemma_replace_child(t: Tree, k: int, c: Tree)
    requires
        0 <= k < recurse_spec(t).sites.len(),
        c.is_dict(),
        tag_of(t) != Ok::<Seq<char>, SchemaError>("definitions"@),
    ensures
        recurse_spec(recurse_spec(t).sites[k].put(t, c)) == recurse_spec(t),
        recurse_spec(t).sites[k].of(recurse_spec(t).sites[k].put(t, c)) == c,
        forall|j: int|
            0 <= j < recurse_spec(t).sites.len() && j != k ==> (#[trigger] recurse_spec(
                t,
            ).sites[j]).of(recurse_spec(t).sites[k].put(t, c)) == recurse_spec(t).sites[j].of(t),
        tag_of(recurse_spec(t).sites[k].put(t, c)) == tag_of(t),
        crate::collect::ref_of(recurse_spec(t).sites[k].put(t, c)) == crate::collect::ref_of(t),
        crate::collect::invalid_schema_spec(recurse_spec(t).sites[k].put(t, c))
            == crate::collect::invalid_schema_spec(t),
{
    let sites = recurse_spec(t).sites;
    crate::walk_core_schema::lemma_recurse_valid(t);
    lemma_recurse_stable(t, k, c);
    lemma_put_keeps_marks(t, k, c);
    lemma_recurse_spread(t);
    assert(sites[k].valid(t));
    lemma_put_of(sites[k], t, c);
    assert forall|j: int| 0 <= j < sites.len() && j != k implies (#[trigger] sites[j]).of(
        sites[k].put(t, c),
    ) == sites[j].of(t) by {
        assert(sites[j].valid(t));
        if j < k {
            assert(apart(sites[j], sites[k]));
        } else {
            assert(apart(sites[k], sites[j]));
        }
        lemma_put_other(sites[k], sites[j], t, c);
    }
}

} // verus!
