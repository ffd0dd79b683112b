//! The shape of what inlining leaves: a plain schema stays plain, and the
//! table stays a table of definitions in simplified form.

use crate::collect::{invalid_schema_spec, ref_of};
use crate::fixed_point::{
    flat_definition, flat_table, lemma_flat_lift, lemma_simplified_is_fixed_inline, marks_first,
    nothing_to_inline, plain, plain_from,
};
use crate::idempotence::{
    lemma_plain_from_all, lemma_sound_marks, lemma_sound_simplified, patched, unmixed,
};
use crate::inline_laws::{counted_spec, flattened_spec, lemma_inlined_holds};
use crate::lifting_laws::sound;
use crate::lineage::{lemma_definitions_single_keyed, single_keyed};
use crate::simplify_laws::table_ok;
use crate::simplify_schema::{
    kept_fold, make_definitions_result_spec, required_ref, simplify_spec, table_values,
};
use crate::inline_refs::{
    inlinable, inline_children, inline_from, inline_spec, inlined_node, lemma_inline_shrinks,
};
use crate::ref_counts::{count_refs_spec, schema_ref_of, usage, Counts};
use crate::value::{distinct_keys, lemma_position_is_first, lookup, position, Entries, Tree};
use crate::walk_core_schema::{
    lemma_place_decreases, lemma_recurse_valid, recurse_spec, tag_of, walk_item_spec, walk_items_spec, walk_serialization_key_spec,
    walk_serialization_spec, walk_tag_spec, Mode, Place, Plan, SchemaError,
};
use crate::walk_laws::{
    apply_steps, extends, lemma_replace_child, lemma_steps_of_distinct, lemma_steps_spare_ref,
    lemma_walk_tag_steps, steps_of, Step,
};
use vstd::prelude::*;

verus! {

/// Whether the plan `p` of `t` from its `i`-th place on, and the plan `q` of
/// `u` from its `j`-th place on, end alike and list as many places, with the
/// same values at them.
pub open spec fn akin(p: Plan, i: int, t: Tree, q: Plan, j: int, u: Tree) -> bool {
    &&& p.failure == q.failure
    &&& 0 <= i <= p.sites.len()
    &&& 0 <= j <= q.sites.len()
    &&& p.sites.len() - i == q.sites.len() - j
    &&& forall|a: int|
        i <= a < p.sites.len() ==> (#[trigger] p.sites[a]).of(t) == q.sites[a - i + j].of(u)
}

/// Plans that are akin stay so with one more place each, where the same value
/// stands at both.
pub proof fn lemma_akin_push(p: Plan, i: int, t: Tree, q: Plan, j: int, u: Tree, s: Place, r: Place)
    requires
        akin(p, i, t, q, j, u),
        s.of(t) == r.of(u),
    ensures
        akin(p.push(s), i, t, q.push(r), j, u),
{
    let p1 = p.push(s);
    let q1 = q.push(r);
    assert forall|a: int| i <= a < p1.sites.len() implies (#[trigger] p1.sites[a]).of(t)
        == q1.sites[a - i + j].of(u) by {
        if a < p.sites.len() {
            assert(p1.sites[a] == p.sites[a]);
            assert(q1.sites[a - i + j] == q.sites[a - i + j]);
        }
    }
}

/// Plans that are akin stay so after an item that is the same in both nodes.
pub proof fn lemma_item_akin(
    mode: Mode,
    item: Tree,
    a: int,
    c: int,
    b: int,
    p: Plan,
    i: int,
    t: Tree,
    q: Plan,
    j: int,
    u: Tree,
)
    requires
        akin(p, i, t, q, j, u),
        t.child(a).child(b) == item,
        u.child(c).child(b) == item,
    ensures
        akin(walk_item_spec(mode, item, a, b, p), i, t, walk_item_spec(mode, item, c, b, q), j, u),
{
    let p1 = walk_item_spec(mode, item, a, b, p);
    let q1 = walk_item_spec(mode, item, c, b, q);
    if p1.sites.len() > p.sites.len() {
        let s = p1.sites[p.sites.len() as int];
        let r = q1.sites[q.sites.len() as int];
        assert(p1 == p.push(s));
        assert(q1 == q.push(r));
        lemma_akin_push(p, i, t, q, j, u, s, r);
    }
}

/// Plans that are akin stay so after the items of a container that is the
/// same in both nodes.
pub proof fn lemma_items_akin(
    mode: Mode,
    container: Tree,
    a: int,
    c: int,
    b: int,
    p: Plan,
    i: int,
    t: Tree,
    q: Plan,
    j: int,
    u: Tree,
)
    requires
        akin(p, i, t, q, j, u),
        t.child(a) == container,
        u.child(c) == container,
    ensures
        akin(
            walk_items_spec(mode, container, a, b, p),
            i,
            t,
            walk_items_spec(mode, container, c, b, q),
            j,
            u,
        ),
    decreases container.arity() - b,
{
    if !(p.failure is Some || b < 0 || b >= container.arity()) {
        lemma_item_akin(mode, container.child(b), a, c, b, p, i, t, q, j, u);
        lemma_items_akin(
            mode,
            container,
            a,
            c,
            b + 1,
            walk_item_spec(mode, container.child(b), a, b, p),
            i,
            t,
            walk_item_spec(mode, container.child(b), c, b, q),
            j,
            u,
        );
    }
}

/// Plans that are akin stay so after a step that finds the same under its key
/// in both nodes.
pub proof fn lemma_step_akin(step: Step, p: Plan, i: int, t: Tree, q: Plan, j: int, u: Tree)
    requires
        akin(p, i, t, q, j, u),
        lookup(t.entries(), step.key()) == lookup(u.entries(), step.key()),
    ensures
        akin(step.apply(t, p), i, t, step.apply(u, q), j, u),
{
    let key = step.key();
    lemma_position_is_first(t.entries(), key);
    lemma_position_is_first(u.entries(), key);
    if p.failure is None {
        if let Some(a) = position(t.entries(), key) {
            let c = position(u.entries(), key)->0;
            assert(t.child(a) == u.child(c));
            match step {
                Step::Single(_) => {
                    if t.child(a).is_dict() {
                        lemma_akin_push(p, i, t, q, j, u, Place::Key(a), Place::Key(c));
                    }
                },
                Step::Required(_) => {
                    if t.child(a).is_dict() {
                        lemma_akin_push(p, i, t, q, j, u, Place::Key(a), Place::Key(c));
                    }
                },
                Step::Container(_, mapping, required, mode) => {
                    lemma_items_akin(mode, t.child(a), a, c, 0, p, i, t, q, j, u);
                },
            }
        }
    }
}

/// Plans that are akin stay so after steps that find the same under their
/// keys in both nodes.
pub proof fn lemma_steps_akin(steps: Seq<Step>, k: int, p: Plan, i: int, t: Tree, q: Plan, j: int, u: Tree)
    requires
        0 <= k,
        akin(p, i, t, q, j, u),
        forall|n: int|
            0 <= n < steps.len() ==> lookup(t.entries(), (#[trigger] steps[n]).key()) == lookup(
                u.entries(),
                steps[n].key(),
            ),
    ensures
        akin(apply_steps(steps, k, t, p), i, t, apply_steps(steps, k, u, q), j, u),
    decreases steps.len() - k,
{
    if k < steps.len() {
        lemma_step_akin(steps[k], p, i, t, q, j, u);
        lemma_steps_akin(steps, k + 1, steps[k].apply(t, p), i, t, steps[k].apply(u, q), j, u);
    }
}

/// Plans that are akin stay so after the serialization, where it is the same
/// in both nodes.
pub proof fn lemma_serialization_akin(p: Plan, i: int, t: Tree, q: Plan, j: int, u: Tree)
    requires
        akin(p, i, t, q, j, u),
        lookup(t.entries(), "serialization"@) == lookup(u.entries(), "serialization"@),
    ensures
        akin(walk_serialization_spec(t, p), i, t, walk_serialization_spec(u, q), j, u),
{
    lemma_position_is_first(t.entries(), "serialization"@);
    lemma_position_is_first(u.entries(), "serialization"@);
    if p.failure is None {
        if let Some(a) = position(t.entries(), "serialization"@) {
            let c = position(u.entries(), "serialization"@)->0;
            let ser = t.child(a);
            assert(ser == u.child(c));
            if ser.is_dict() {
                let p1 = walk_serialization_key_spec("schema"@, ser, a, p);
                let q1 = walk_serialization_key_spec("schema"@, ser, c, q);
                if let Some(b) = position(ser.entries(), "schema"@) {
                    if ser.child(b).is_dict() {
                        lemma_akin_push(p, i, t, q, j, u, Place::Item(a, b), Place::Item(c, b));
                    }
                }
                assert(akin(p1, i, t, q1, j, u));
                if p1.failure is None {
                    if let Some(b) = position(ser.entries(), "return_schema"@) {
                        if ser.child(b).is_dict() {
                            lemma_akin_push(p1, i, t, q1, j, u, Place::Item(a, b), Place::Item(c, b));
                        }
                    }
                }
            }
        }
    }
}

/// The places that the walk of the serialization adds come after those that
/// were there.
pub proof fn lemma_serialization_extends(t: Tree, p: Plan)
    ensures
        extends(walk_serialization_spec(t, p), p),
{
}

/// Every child schema of a node with plain children is plain.
pub proof fn lemma_plain_children(t: Tree, k: int, j: int)
    requires
        0 <= k <= j < recurse_spec(t).sites.len(),
        plain_from(t, k),
    ensures
        plain(recurse_spec(t).sites[j].of(t)),
    decreases j - k,
{
    if k < j {
        lemma_plain_children(t, k + 1, j);
    }
}

/// What takes the place of a reference is tagged as the definition is, bears
/// no `ref`, and holds under the key of every step what the definition holds.
pub proof fn lemma_inlined_marks(site: Tree, target: Tree)
    requires
        distinct_keys(target.entries()),
        tag_of(target) is Ok,
    ensures
        inlined_node(site, target).is_dict(),
        tag_of(inlined_node(site, target)) == tag_of(target),
        ref_of(inlined_node(site, target)) == Ok::<Option<Seq<char>>, SchemaError>(None),
        forall|n: int|
            0 <= n < steps_of(tag_of(target)->Ok_0).len() ==> lookup(
                inlined_node(site, target).entries(),
                (#[trigger] steps_of(tag_of(target)->Ok_0)[n]).key(),
            ) == lookup(target.entries(), steps_of(tag_of(target)->Ok_0)[n].key()),
{
    let node = inlined_node(site, target);
    let steps = steps_of(tag_of(target)->Ok_0);
    reveal_strlit("ref");
    reveal_strlit("type");
    reveal_strlit("serialization");
    assert("type"@.len() == 4 && "ref"@.len() == 3 && "serialization"@.len() == 13);
    lemma_inlined_holds(site, target, "type"@);
    lemma_steps_spare_ref(tag_of(target)->Ok_0);
    lemma_steps_of_distinct(tag_of(target)->Ok_0);
    assert forall|n: int| 0 <= n < steps.len() implies lookup(
        node.entries(),
        (#[trigger] steps[n]).key(),
    ) == lookup(target.entries(), steps[n].key()) by {
        lemma_inlined_holds(site, target, steps[n].key());
    }
}

/// The walk of what takes the place of a reference, before its serialization,
/// finds what the walk of the definition finds.
pub proof fn lemma_inlined_steps(site: Tree, target: Tree)
    requires
        distinct_keys(target.entries()),
        tag_of(target) is Ok,
    ensures
        ({
            let node = inlined_node(site, target);
            let steps = steps_of(tag_of(target)->Ok_0);
            let mid = apply_steps(steps, 0, node, Plan::empty());
            let old_mid = apply_steps(steps, 0, target, Plan::empty());
            &&& akin(mid, 0, node, old_mid, 0, target)
            &&& recurse_spec(node) == walk_serialization_spec(node, mid)
            &&& recurse_spec(target) == walk_serialization_spec(target, old_mid)
        }),
{
    let node = inlined_node(site, target);
    let tag = tag_of(target)->Ok_0;
    let none = Plan::empty();
    lemma_inlined_marks(site, target);
    lemma_walk_tag_steps(tag, node, none);
    lemma_walk_tag_steps(tag, target, none);
    lemma_steps_akin(steps_of(tag), 0, none, 0, node, none, 0, target);
}

/// What takes the place of a reference is plain: where a plain reference
/// gives way to a definition in simplified form that holds no key twice, the
/// node that stands in its place is a plain record.
pub proof fn lemma_inlined_plain(site: Tree, target: Tree, key: Seq<char>)
    requires
        plain(site),
        tag_of(site) == Ok::<Seq<char>, SchemaError>("definition-ref"@),
        flat_definition(target, key),
        distinct_keys(target.entries()),
    ensures
        plain(inlined_node(site, target)),
        inlined_node(site, target).is_dict(),
{
    let node = inlined_node(site, target);
    let steps = steps_of(tag_of(target)->Ok_0);
    let none = Plan::empty();
    lemma_inlined_marks(site, target);
    lemma_inlined_steps(site, target);
    lemma_inlined_holds(site, target, "type"@);
    let mid = apply_steps(steps, 0, node, none);
    let old_mid = apply_steps(steps, 0, target, none);
    lemma_serialization_extends(node, mid);
    lemma_serialization_extends(target, old_mid);
    let all = recurse_spec(node);
    let old_all = recurse_spec(target);
    assert(old_mid.failure is None);
    if site.get("serialization"@) is None {
        lemma_serialization_akin(mid, 0, node, old_mid, 0, target);
        assert forall|a: int| 0 <= a < all.sites.len() implies plain(
            (#[trigger] all.sites[a]).of(node),
        ) by {
            lemma_plain_children(target, 0, a);
        }
    } else {
        lemma_site_walk(site);
        let by_site = recurse_spec(site);
        let m = mid.sites.len() as int;
        lemma_serialization_akin(mid, m, node, none, 0, site);
        assert forall|a: int| 0 <= a < all.sites.len() implies plain(
            (#[trigger] all.sites[a]).of(node),
        ) by {
            if a < m {
                assert(all.sites[a] == mid.sites[a]);
                assert(mid.sites[a].of(node) == old_mid.sites[a].of(target));
                assert(old_all.sites[a] == old_mid.sites[a]);
                lemma_plain_children(target, 0, a);
            } else {
                assert(all.sites[a].of(node) == by_site.sites[a - m].of(site));
                lemma_plain_children(site, 0, a - m);
            }
        }
    }
    lemma_plain_from_all(node, 0);
}

/// The walk of a reference is the walk of its serialization.
pub proof fn lemma_site_walk(site: Tree)
    requires
        tag_of(site) == Ok::<Seq<char>, SchemaError>("definition-ref"@),
    ensures
        recurse_spec(site) == walk_serialization_spec(site, Plan::empty()),
{
    reveal_strlit("definition-ref");
    reveal_strlit("definitions");
    reveal_strlit("list");
    reveal_strlit("set");
    reveal_strlit("frozenset");
    reveal_strlit("generator");
    reveal_strlit("tuple-variable");
    reveal_strlit("tuple-positional");
    reveal_strlit("tuple");
    reveal_strlit("dict");
    reveal_strlit("function-plain");
    reveal_strlit("computed-field");
    reveal_strlit("function-wrap");
    reveal_strlit("union");
    reveal_strlit("tagged-union");
    reveal_strlit("chain");
    reveal_strlit("lax-or-strict");
    reveal_strlit("json-or-python");
    reveal_strlit("model-fields");
    reveal_strlit("typed-dict");
    reveal_strlit("dataclass-args");
    reveal_strlit("arguments");
    reveal_strlit("call");
    let tag = "definition-ref"@;
    assert(tag.len() == 14 && tag[0] == 'd' && tag[1] == 'e' && tag[2] == 'f');
    assert("function-plain"@[0] == 'f');
    assert("tuple-variable"@[0] == 't');
    assert("computed-field"@[0] == 'c');
    assert("json-or-python"@[0] == 'j');
    assert("dataclass-args"@[1] == 'a');
    assert(walk_tag_spec(tag, site, Plan::empty()) == Plan::empty());
}

/// Whether `d` is marked invalid.
pub open spec fn is_marked(d: Tree) -> bool {
    invalid_schema_spec(d) == Ok::<bool, SchemaError>(true)
}

/// Whether a table of definitions is in simplified form, none of its
/// definitions holds a key twice, and those that are marked invalid come
/// before the others.
pub open spec fn neat(defs: Entries) -> bool {
    &&& flat_table(defs)
    &&& forall|j: int| 0 <= j < defs.len() ==> distinct_keys((#[trigger] defs[j]).1.entries())
    &&& forall|i: int, j: int|
        0 <= i < j < defs.len() && is_marked((#[trigger] defs[j]).1) ==> is_marked(
            (#[trigger] defs[i]).1,
        )
}

/// How far the definitions that are marked invalid reach from the `k`-th on.
pub open spec fn marked_prefix(defs: Entries, k: int) -> int
    decreases defs.len() - k,
{
    if 0 <= k < defs.len() && is_marked(defs[k].1) {
        marked_prefix(defs, k + 1)
    } else {
        k
    }
}

/// The definitions of a neat table that are marked invalid are its first.
pub proof fn lemma_neat_marks(defs: Entries, k: int)
    requires
        neat(defs),
        0 <= k <= defs.len(),
        forall|j: int| 0 <= j < k ==> is_marked((#[trigger] defs[j]).1),
    ensures
        marks_first(defs, marked_prefix(defs, k)),
    decreases defs.len() - k,
{
    if k < defs.len() && is_marked(defs[k].1) {
        lemma_neat_marks(defs, k + 1);
    } else {
        assert forall|j: int| 0 <= j < defs.len() implies invalid_schema_spec(
            (#[trigger] defs[j]).1,
        ) == Ok::<bool, SchemaError>(j < k) by {
            assert(flat_definition(defs[j].1, defs[j].0));
            if j > k {
                assert(!is_marked(defs[k].1));
            }
        }
    }
}

/// A neat table without one of its definitions is neat.
pub proof fn lemma_remove_neat(defs: Entries, i: int)
    requires
        neat(defs),
        0 <= i < defs.len(),
    ensures
        neat(defs.remove(i)),
{
    let after = defs.remove(i);
    assert forall|j: int| 0 <= j < after.len() implies flat_definition(
        (#[trigger] after[j]).1,
        after[j].0,
    ) && distinct_keys(after[j].1.entries()) by {
        if j < i {
            assert(after[j] == defs[j]);
        } else {
            assert(after[j] == defs[j + 1]);
        }
    }
    assert forall|a: int, b: int|
        0 <= a < b < after.len() && is_marked((#[trigger] after[b]).1) implies is_marked(
        (#[trigger] after[a]).1,
    ) by {
        let x = if a < i {
            a
        } else {
            a + 1
        };
        let y = if b < i {
            b
        } else {
            b + 1
        };
        assert(after[a] == defs[x]);
        assert(after[b] == defs[y]);
        assert(is_marked(defs[y].1) ==> is_marked(defs[x].1));
    }
    assert forall|a: int, b: int| 0 <= a < b < after.len() implies (#[trigger] after[a]).0 != (
    #[trigger] after[b]).0 by {
        let x = if a < i {
            a
        } else {
            a + 1
        };
        let y = if b < i {
            b
        } else {
            b + 1
        };
        assert(after[a] == defs[x]);
        assert(after[b] == defs[y]);
        assert(defs[x].0 != defs[y].0);
    }
}

/// Inlining keeps the shape: where the references of a plain schema are
/// inlined against a neat table and the pass gets through, a plain record
/// comes out, and the table that is left is neat.
pub proof fn lemma_inline_plain(t: Tree, defs: Entries, counts: Counts)
    requires
        plain(t),
        neat(defs),
        inline_spec(t, defs, counts).fault is None,
    ensures
        plain(inline_spec(t, defs, counts).node),
        inline_spec(t, defs, counts).node.is_dict(),
        neat(inline_spec(t, defs, counts).defs),
    decreases defs.len(), t, 2int, 0int,
{
    let tag = tag_of(t)->Ok_0;
    if tag != "definition-ref"@ {
        lemma_inline_children_plain(t, defs, counts);
    } else {
        let name = schema_ref_of(t)->Ok_0;
        let c = usage(counts, name);
        if !inlinable(c) {
            lemma_inline_children_plain(t, defs, counts);
        } else {
            let i = position(defs, name)->0;
            lemma_position_is_first(defs, name);
            let target = defs[i].1;
            lemma_inlined_plain(t, target, defs[i].0);
            lemma_remove_neat(defs, i);
            lemma_inline_children_plain(
                inlined_node(t, target),
                defs.remove(i),
                counts.insert(name, c.unmet()),
            );
        }
    }
}

/// The same, for the child schemas of a node that stays.
pub proof fn lemma_inline_children_plain(t: Tree, defs: Entries, counts: Counts)
    requires
        plain(t),
        neat(defs),
        inline_children(t, defs, counts).fault is None,
    ensures
        plain(inline_children(t, defs, counts).node),
        inline_children(t, defs, counts).node.is_dict(),
        neat(inline_children(t, defs, counts).defs),
    decreases defs.len(), t, 1int, 0int,
{
    lemma_inline_from_plain(t, 0, t, defs, counts);
    let node = inline_from(t, 0, t, defs, counts).node;
    assert forall|j: int| 0 <= j < recurse_spec(node).sites.len() implies plain(
        (#[trigger] recurse_spec(node).sites[j]).of(node),
    ) by {
        assert(plain(recurse_spec(t).sites[j].of(node)));
    }
    lemma_plain_from_all(node, 0);
}

/// The same, for the later child schemas of a node.
pub proof fn lemma_inline_from_plain(t: Tree, k: int, cur: Tree, defs: Entries, counts: Counts)
    requires
        0 <= k,
        tag_of(t) matches Ok(tag) && tag != "definitions"@,
        plain_from(t, k),
        neat(defs),
        patched(t, cur, k),
        inline_from(t, k, cur, defs, counts).fault is None,
    ensures
        patched(t, inline_from(t, k, cur, defs, counts).node, recurse_spec(t).sites.len() as int),
        neat(inline_from(t, k, cur, defs, counts).defs),
    decreases defs.len(), t, 0int, recurse_spec(t).sites.len() - k,
{
    let sites = recurse_spec(t).sites;
    if k < sites.len() {
        lemma_recurse_valid(t);
        lemma_place_decreases(t, sites[k]);
        let child = sites[k].of(t);
        let r = inline_spec(child, defs, counts);
        lemma_inline_shrinks(child, defs, counts);
        lemma_inline_plain(child, defs, counts);
        let cur1 = sites[k].put(cur, r.node);
        lemma_replace_child(cur, k, r.node);
        assert(patched(t, cur1, k + 1)) by {
            assert forall|j: int| 0 <= j < k + 1 && j < sites.len() implies plain(
                (#[trigger] sites[j]).of(cur1),
            ) by {
                if j < k {
                    assert(plain(sites[j].of(cur)));
                    assert(recurse_spec(cur).sites[j].of(cur1) == recurse_spec(cur).sites[j].of(
                        cur,
                    ));
                }
            }
            assert forall|j: int| k + 1 <= j < sites.len() implies (#[trigger] sites[j]).of(cur1)
                == sites[j].of(t) by {
                assert(recurse_spec(cur).sites[j].of(cur1) == recurse_spec(cur).sites[j].of(cur));
            }
        }
        lemma_inline_from_plain(t, k + 1, cur1, r.defs, r.counts);
    }
}

/// Those of the definitions of a table from the `k`-th on that are still
/// referred to, with their names.
pub open spec fn kept_entries(defs: Entries, counts: Counts, k: int) -> Entries
    decreases defs.len() - k,
{
    if 0 <= k < defs.len() {
        (if usage(counts, defs[k].0).ref_count > 0 {
            seq![defs[k]]
        } else {
            Seq::empty()
        }) + kept_entries(defs, counts, k + 1)
    } else {
        Seq::empty()
    }
}

/// The definitions that come out of a table in order are the values of those
/// of its entries that are still referred to.
pub proof fn lemma_kept_entries(defs: Entries, counts: Counts, k: int, kept: Seq<Tree>)
    requires
        table_ok(defs),
        0 <= k,
    ensures
        kept_fold(defs, counts, k, kept) == (
            kept + table_values(kept_entries(defs, counts, k)),
            None::<SchemaError>,
        ),
    decreases defs.len() - k,
{
    if k < defs.len() {
        let rest = kept_entries(defs, counts, k + 1);
        assert(required_ref(defs[k].1) == Ok::<Seq<char>, SchemaError>(defs[k].0));
        if usage(counts, defs[k].0).ref_count > 0 {
            lemma_kept_entries(defs, counts, k + 1, kept.push(defs[k].1));
            assert(table_values(seq![defs[k]] + rest) =~= seq![defs[k].1] + table_values(rest));
            assert(kept.push(defs[k].1) + table_values(rest) =~= kept + (seq![defs[k].1]
                + table_values(rest)));
        } else {
            lemma_kept_entries(defs, counts, k + 1, kept);
            assert(Seq::<(Seq<char>, Tree)>::empty() + rest =~= rest);
        }
    } else {
        assert(table_values(kept_entries(defs, counts, k)) =~= Seq::<Tree>::empty());
        assert(kept + Seq::<Tree>::empty() =~= kept);
    }
}

/// The entries of a neat table that are still referred to make a neat table,
/// each of them an entry of the table from the `k`-th on.
pub proof fn lemma_kept_neat(defs: Entries, counts: Counts, k: int)
    requires
        neat(defs),
        0 <= k,
    ensures
        neat(kept_entries(defs, counts, k)),
        forall|n: int|
            0 <= n < kept_entries(defs, counts, k).len() ==> exists|j: int|
                k <= j < defs.len() && #[trigger] kept_entries(defs, counts, k)[n] == defs[j],
    decreases defs.len() - k,
{
    let all = kept_entries(defs, counts, k);
    if k < defs.len() {
        lemma_kept_neat(defs, counts, k + 1);
        let rest = kept_entries(defs, counts, k + 1);
        let used = usage(counts, defs[k].0).ref_count > 0;
        let shift = if used {
            1int
        } else {
            0int
        };
        assert forall|n: int| 0 <= n < all.len() implies exists|j: int|
            k <= j < defs.len() && #[trigger] all[n] == defs[j] by {
            if used && n == 0 {
                assert(all[0] == defs[k]);
            } else {
                assert(all[n] == rest[n - shift]);
                let j = choose|j: int| k + 1 <= j < defs.len() && rest[n - shift] == defs[j];
                assert(k <= j < defs.len() && all[n] == defs[j]);
            }
        }
        assert forall|n: int| 0 <= n < all.len() implies flat_definition(
            (#[trigger] all[n]).1,
            all[n].0,
        ) && distinct_keys(all[n].1.entries()) by {
            let j = choose|j: int| k <= j < defs.len() && all[n] == defs[j];
            assert(flat_definition(defs[j].1, defs[j].0));
        }
        assert forall|a: int, b: int|
            0 <= a < b < all.len() && is_marked((#[trigger] all[b]).1) implies is_marked(
            (#[trigger] all[a]).1,
        ) by {
            assert(all[b] == rest[b - shift]);
            let y = choose|j: int| k + 1 <= j < defs.len() && rest[b - shift] == defs[j];
            if used && a == 0 {
                assert(all[0] == defs[k]);
                assert(is_marked(defs[y].1) ==> is_marked(defs[k].1));
            } else {
                assert(all[a] == rest[a - shift]);
                assert(is_marked(rest[b - shift].1) ==> is_marked(rest[a - shift].1));
            }
        }
        assert forall|a: int, b: int| 0 <= a < b < all.len() implies (#[trigger] all[a]).0 != (
        #[trigger] all[b]).0 by {
            assert(all[b] == rest[b - shift]);
            let y = choose|j: int| k + 1 <= j < defs.len() && rest[b - shift] == defs[j];
            if used && a == 0 {
                assert(all[0] == defs[k]);
                assert(defs[k].0 != defs[y].0);
            } else {
                assert(all[a] == rest[a - shift]);
                assert(rest[a - shift].0 != rest[b - shift].0);
            }
        }
    }
}

/// The schema that stands once the references of a schema were lifted,
/// flattened, counted and inlined.
pub open spec fn inlined_root(root: Tree) -> Tree {
    inline_spec(flattened_spec(root).0, flattened_spec(root).1, counted_spec(root)).node
}

/// The table of the definitions that come out when a schema is simplified
/// with inlining.
pub open spec fn emitted_table(root: Tree) -> Entries {
    let r = inline_spec(flattened_spec(root).0, flattened_spec(root).1, counted_spec(root));
    kept_entries(r.defs, r.counts, 0)
}

/// What simplifying with inlining makes of a sound schema is in simplified
/// form: where no record of the schema holds a key twice, no `ref` is borne
/// both by a node that is marked invalid and by one that is not, and the pass
/// gets through, a plain schema comes out, wrapped with definitions in
/// simplified form, those that are marked invalid first, or alone.
pub proof fn lemma_inlined_is_simplified(root: Tree)
    requires
        sound(root),
        single_keyed(root),
        unmixed(root),
        simplify_spec(root, true) is Ok,
    ensures
        marks_first(emitted_table(root), marked_prefix(emitted_table(root), 0)),
        simplify_spec(root, true) == Ok::<Tree, SchemaError>(
            make_definitions_result_spec(inlined_root(root), table_values(emitted_table(root))),
        ),
        plain(inlined_root(root)),
        flat_table(emitted_table(root)),
{
    lemma_sound_simplified(root);
    let (root1, table) = flattened_spec(root);
    let counts = counted_spec(root);
    lemma_sound_marks(root);
    assert forall|j: int| 0 <= j < table.len() implies distinct_keys(
        (#[trigger] table[j]).1.entries(),
    ) by {
        lemma_definitions_single_keyed(root, j);
    }
    lemma_inline_plain(root1, table, counts);
    let r = inline_spec(root1, table, counts);
    lemma_table_is_ok(r.defs);
    lemma_kept_entries(r.defs, r.counts, 0, Seq::empty());
    lemma_kept_neat(r.defs, r.counts, 0);
    lemma_neat_marks(emitted_table(root), 0);
    assert(Seq::<Tree>::empty() + table_values(emitted_table(root)) =~= table_values(
        emitted_table(root),
    ));
}

/// A table in simplified form keeps each definition under the `ref` it bears.
pub proof fn lemma_table_is_ok(defs: Entries)
    requires
        flat_table(defs),
    ensures
        table_ok(defs),
{
    assert forall|j: int| 0 <= j < defs.len() implies required_ref((#[trigger] defs[j]).1) == Ok::<
        Seq<char>,
        SchemaError,
    >(defs[j].0) by {
        lemma_flat_lift(defs[j].1, defs[j].0);
    }
}

/// Idempotence with inlining: where a sound schema in which no record holds a
/// key twice, and no `ref` is borne both by a node that is marked invalid and
/// by one that is not, is simplified with inlining, simplifying the result
/// with inlining gives the result, if it gets through, finds every definition
/// referred to, and comes upon no reference that is fit to be inlined.
///
/// The first pass may leave such a reference: a reference that is inlined
/// takes its own serialization along and drops that of the definition, and
/// with it the references that stood there, which were counted.
pub proof fn lemma_simplify_idempotent_inline(root: Tree)
    requires
        sound(root),
        single_keyed(root),
        unmixed(root),
        simplify_spec(root, true) is Ok,
        simplify_spec(simplify_spec(root, true)->Ok_0, true) is Ok,
        nothing_to_inline(
            inlined_root(root),
            emitted_table(root),
            count_refs_spec(inlined_root(root), emitted_table(root)).0,
        ),
        forall|j: int|
            0 <= j < emitted_table(root).len() ==> usage(
                count_refs_spec(inlined_root(root), emitted_table(root)).0,
                (#[trigger] emitted_table(root)[j]).0,
            ).ref_count > 0,
    ensures
        simplify_spec(simplify_spec(root, true)->Ok_0, true) == simplify_spec(root, true),
{
    lemma_inlined_is_simplified(root);
    lemma_simplified_is_fixed_inline(
        inlined_root(root),
        emitted_table(root),
        marked_prefix(emitted_table(root), 0),
    );
}

} // verus!
