//! Applying deferred discriminators: every node whose metadata carries a
//! discriminator, and that is no tagged union yet, gives way to what a resolver
//! makes of it. Children come before their parents.

use crate::schema_traverse::discriminator_key;
use crate::value::{str_eq, Tree, Value};
use crate::walk_core_schema::{
    lemma_place_decreases, lemma_recurse_valid, node_tag, put_site, recurse, recurse_spec,
    site_child, tag_of, SchemaError,
};
use vstd::prelude::*;

verus! {

/// Why discriminators could not be applied.
#[derive(Debug, PartialEq, Eq)]
pub enum ApplyError<E> {
    /// The schema is not shaped as it must be.
    Schema(SchemaError),
    /// The resolver failed; its error is handed on as it came.
    Callback(E),
}

/// The deferred discriminator of a node: the string that its metadata keeps
/// under the discriminator key, if any.
pub open spec fn deferred_discriminator(t: Tree) -> Result<Option<Seq<char>>, SchemaError> {
    match t.get("metadata"@) {
        None => Ok(None),
        Some(meta) => if !meta.is_dict() {
            Err(SchemaError::WrongType)
        } else {
            match meta.get(discriminator_key()) {
                None => Ok(None),
                Some(Tree::Str(d)) => Ok(Some(d)),
                Some(_) => Err(SchemaError::WrongType),
            }
        },
    }
}

/// What becomes of `node` once the resolver has answered `answer`: a record
/// takes the place of the node; an error leaves the node; anything else leaves
/// an empty record and is a fault.
pub open spec fn answered<E>(
    answer: Result<Value, E>,
    node: Tree,
    out: Tree,
    fault: Option<ApplyError<E>>,
) -> bool {
    match answer {
        Err(e) => out == node && fault == Some(ApplyError::Callback(e)),
        Ok(v) => if v@.is_dict() {
            out == v@ && fault is None
        } else {
            out == Tree::Dict(Seq::empty()) && fault == Some(
                ApplyError::<E>::Schema(SchemaError::WrongType),
            )
        },
    }
}

/// Whether `out` and `fault` are what becomes of `node` when the resolver is
/// asked about it with the discriminator `d`: some answer that the resolver
/// can give to that question leads to them.
pub open spec fn resolved<E, F: Fn(&Value, &str) -> Result<Value, E>>(
    f: &F,
    node: Tree,
    d: Seq<char>,
    out: Tree,
    fault: Option<ApplyError<E>>,
) -> bool {
    exists|n: Value, s: &str, answer: Result<Value, E>|
        n@ == node && s@ == d && #[trigger] call_ensures(f, (&n, s), answer) && answered(
            answer,
            node,
            out,
            fault,
        )
}

/// Whether `out` and `fault` are what becomes of the node `mid`, whose children
/// are done, and whose tag is `tag`: a tagged union stays, a node without a
/// deferred discriminator stays, any other node is handed to the resolver.
pub open spec fn finished<E, F: Fn(&Value, &str) -> Result<Value, E>>(
    f: &F,
    tag: Seq<char>,
    mid: Tree,
    out: Tree,
    fault: Option<ApplyError<E>>,
) -> bool {
    if tag == "tagged-union"@ {
        out == mid && fault is None
    } else {
        match deferred_discriminator(mid) {
            Err(e) => out == mid && fault == Some(ApplyError::<E>::Schema(e)),
            Ok(None) => out == mid && fault is None,
            Ok(Some(d)) => resolved(f, mid, d, out, fault),
        }
    }
}

/// A node and a fault, named as one outcome of a pass. It holds of every pair.
pub open spec fn outcome<E>(node: Tree, fault: Option<ApplyError<E>>) -> bool {
    true
}

/// Whether applying discriminators to `t` with the resolver `f` can end with
/// the node `out` in its place and with `fault`.
///
/// The child schemas of `t` are done first, in visiting order; the first fault
/// ends the pass and leaves what was rewritten before it. Then `t` itself, as
/// it stands with its new children, is finished.
pub open spec fn applied<E, F: Fn(&Value, &str) -> Result<Value, E>>(
    f: &F,
    t: Tree,
    out: Tree,
    fault: Option<ApplyError<E>>,
) -> bool
    decreases t, 1int, 0int,
{
    match tag_of(t) {
        Err(e) => out == t && fault == Some(ApplyError::<E>::Schema(e)),
        Ok(tag) => exists|mid: Tree, below: Option<ApplyError<E>>|
            #[trigger] outcome(mid, below) && applied_from(f, t, 0, t, mid, below) && (if below is Some {
                out == mid && fault == below
            } else if recurse_spec(t).failure is Some {
                out == mid && fault == Some(ApplyError::<E>::Schema(recurse_spec(t).failure->0))
            } else {
                finished(f, tag, mid, out, fault)
            }),
    }
}

/// Whether applying discriminators to the child schemas of `t` from the `k`-th
/// on can end with `out` in the place of `t` and with `fault`; `cur` is `t` with
/// the earlier children already replaced.
pub open spec fn applied_from<E, F: Fn(&Value, &str) -> Result<Value, E>>(
    f: &F,
    t: Tree,
    k: int,
    cur: Tree,
    out: Tree,
    fault: Option<ApplyError<E>>,
) -> bool
    decreases t, 0int, recurse_spec(t).sites.len() - k,
{
    let sites = recurse_spec(t).sites;
    if 0 <= k < sites.len() {
        proof {
            lemma_recurse_valid(t);
            lemma_place_decreases(t, sites[k]);
        }
        exists|child: Tree, inner: Option<ApplyError<E>>|
            #[trigger] outcome(child, inner) && applied(f, sites[k].of(t), child, inner) && (
            if inner is Some {
                out == sites[k].put(cur, child) && fault == inner
            } else {
                applied_from(f, t, k + 1, sites[k].put(cur, child), out, fault)
            })
    } else {
        out == cur && fault is None
    }
}

/// One step of the pass over the children of a node.
pub proof fn lemma_applied_step<E, F: Fn(&Value, &str) -> Result<Value, E>>(
    f: &F,
    t: Tree,
    k: int,
    cur: Tree,
    child: Tree,
    inner: Option<ApplyError<E>>,
    out: Tree,
    fault: Option<ApplyError<E>>,
)
    requires
        0 <= k < recurse_spec(t).sites.len(),
        applied(f, recurse_spec(t).sites[k].of(t), child, inner),
        inner is Some ==> out == recurse_spec(t).sites[k].put(cur, child) && fault == inner,
        inner is None ==> applied_from(f, t, k + 1, recurse_spec(t).sites[k].put(cur, child), out, fault),
    ensures
        applied_from(f, t, k, cur, out, fault),
{
    assert(outcome(child, inner));
}

/// The pass over the children of a node ends after the last child.
pub proof fn lemma_applied_end<E, F: Fn(&Value, &str) -> Result<Value, E>>(f: &F, t: Tree, cur: Tree)
    ensures
        applied_from(f, t, recurse_spec(t).sites.len() as int, cur, cur, None),
{
}

/// A node is done once its children are done and it is finished itself.
pub proof fn lemma_applied_node<E, F: Fn(&Value, &str) -> Result<Value, E>>(
    f: &F,
    t: Tree,
    mid: Tree,
    below: Option<ApplyError<E>>,
    out: Tree,
    fault: Option<ApplyError<E>>,
)
    requires
        tag_of(t) is Ok,
        applied_from(f, t, 0, t, mid, below),
        below is Some ==> out == mid && fault == below,
        below is None && recurse_spec(t).failure is Some ==> out == mid && fault == Some(
            ApplyError::<E>::Schema(recurse_spec(t).failure->0),
        ),
        below is None && recurse_spec(t).failure is None ==> finished(
            f,
            tag_of(t)->Ok_0,
            mid,
            out,
            fault,
        ),
    ensures
        applied(f, t, out, fault),
{
    assert(outcome(mid, below));
}

/// A node without a tag is left as it is.
pub proof fn lemma_applied_untagged<E, F: Fn(&Value, &str) -> Result<Value, E>>(f: &F, t: Tree)
    requires
        tag_of(t) is Err,
    ensures
        applied(f, t, t, Some(ApplyError::<E>::Schema(tag_of(t)->Err_0))),
{
}

/// The deferred discriminator of a node.
pub fn node_discriminator(schema: &Value) -> (r: Result<Option<&str>, SchemaError>)
    ensures
        match r {
            Ok(Some(d)) => deferred_discriminator(schema@) == Ok::<Option<Seq<char>>, SchemaError>(
                Some(d@),
            ),
            Ok(None) => deferred_discriminator(schema@) == Ok::<Option<Seq<char>>, SchemaError>(
                None,
            ),
            Err(e) => deferred_discriminator(schema@) == Err::<Option<Seq<char>>, SchemaError>(e),
        },
{
    match schema.get("metadata") {
        None => Ok(None),
        Some(meta) => {
            if !meta.is_dict() {
                return Err(SchemaError::WrongType);
            }
            match meta.get("pydantic.internal.union_discriminator") {
                None => Ok(None),
                Some(Value::Str(d)) => Ok(Some(d.as_str())),
                Some(_) => Err(SchemaError::WrongType),
            }
        },
    }
}

/// Puts the answer of the resolver in the place of `node`.
pub fn apply_answer<E>(node: Value, answer: Result<Value, E>) -> (r: (Value, Option<ApplyError<E>>))
    ensures
        answered(answer, node@, r.0@, r.1),
{
    match answer {
        Err(e) => (node, Some(ApplyError::Callback(e))),
        Ok(v) => if v.is_dict() {
            (v, None)
        } else {
            let empty = Value::Dict(Vec::new());
            assert(empty@->Dict_0 =~= Seq::empty());
            (empty, Some(ApplyError::Schema(SchemaError::WrongType)))
        },
    }
}

/// Applies discriminators to one node and returns the node that takes its
/// place, with the fault that ended the pass, if any.
fn apply_visit<E, F: Fn(&Value, &str) -> Result<Value, E>>(schema: &Value, apply_callback: &F) -> (r:
    (Value, Option<ApplyError<E>>))
    requires
        forall|n: &Value, s: &str| call_requires(apply_callback, (n, s)),
    ensures
        applied(apply_callback, schema@, r.0@, r.1),
    decreases schema@,
{
    let ghost t = schema@;
    let tag = match node_tag(schema) {
        Err(e) => {
            proof {
                lemma_applied_untagged::<E, F>(apply_callback, t);
            }
            return (schema.deep_clone(), Some(ApplyError::Schema(e)));
        },
        Ok(tag) => tag,
    };
    let walk = recurse(schema);
    let mut out = schema.deep_clone();
    let mut k: usize = 0;
    while k < walk.sites.len()
        invariant
            k <= walk.sites.len(),
            t == schema@,
            walk@ == recurse_spec(t),
            walk@.valid(t),
            tag_of(t) == Ok::<Seq<char>, SchemaError>(tag@),
            forall|n: &Value, s: &str| call_requires(apply_callback, (n, s)),
            forall|fin: Tree, fault: Option<ApplyError<E>>|
                applied_from(apply_callback, t, k as int, out@, fin, fault) ==> applied_from(
                    apply_callback,
                    t,
                    0,
                    t,
                    fin,
                    fault,
                ),
        decreases walk.sites.len() - k,
    {
        let site = walk.sites[k];
        assert(walk@.sites[k as int] == site@);
        proof {
            lemma_place_decreases(t, site@);
        }
        let ghost cur = out@;
        let (child, inner) = apply_visit(site_child(schema, site), apply_callback);
        out = put_site(out, site, child);
        if inner.is_some() {
            proof {
                lemma_applied_step(apply_callback, t, k as int, cur, child@, inner, out@, inner);
                lemma_applied_node(apply_callback, t, out@, inner, out@, inner);
            }
            return (out, inner);
        }
        proof {
            assert forall|fin: Tree, fault: Option<ApplyError<E>>|
                applied_from(apply_callback, t, k as int + 1, out@, fin, fault) implies applied_from(
                apply_callback,
                t,
                0,
                t,
                fin,
                fault,
            ) by {
                lemma_applied_step(apply_callback, t, k as int, cur, child@, inner, fin, fault);
            }
        }
        k += 1;
    }
    let ghost mid = out@;
    proof {
        lemma_applied_end(apply_callback, t, mid);
        assert(applied_from(apply_callback, t, 0, t, mid, None));
    }
    if let Some(e) = walk.failure {
        proof {
            lemma_applied_node(apply_callback, t, mid, None, mid, Some(ApplyError::<E>::Schema(e)));
        }
        return (out, Some(ApplyError::Schema(e)));
    }
    if str_eq(tag, "tagged-union") {
        proof {
            lemma_applied_node(apply_callback, t, mid, None, mid, None);
        }
        return (out, None);
    }
    let answer = match node_discriminator(&out) {
        Err(e) => {
            proof {
                lemma_applied_node(apply_callback, t, mid, None, mid, Some(ApplyError::<E>::Schema(e)));
            }
            return (out, Some(ApplyError::Schema(e)));
        },
        Ok(None) => {
            proof {
                lemma_applied_node(apply_callback, t, mid, None, mid, None);
            }
            return (out, None);
        },
        Ok(Some(d)) => apply_callback(&out, d),
    };
    let r = apply_answer(out, answer);
    proof {
        let d = deferred_discriminator(mid)->Ok_0->0;
        assert(resolved(apply_callback, mid, d, r.0@, r.1));
        lemma_applied_node(apply_callback, t, mid, None, r.0@, r.1);
    }
    r
}

/// Applies the deferred discriminators of a schema in place.
///
/// Children come before their parents. A node that is a `tagged-union` stays
/// as it is. Any other node whose `metadata` keeps a string under the
/// discriminator key is handed to `apply_callback` together with that string,
/// as it stands once its own children are done, and what the callback returns
/// takes its place; the replacement is not visited again.
///
/// Fails on the first structural fault met, where the callback fails, and where
/// it returns no record; what was replaced before stays replaced.
pub fn apply_discriminators<E, F: Fn(&Value, &str) -> Result<Value, E>>(
    schema: &mut Value,
    apply_callback: F,
) -> (r: Result<(), ApplyError<E>>)
    requires
        forall|n: &Value, s: &str| call_requires(apply_callback, (n, s)),
    ensures
        applied(
            &apply_callback,
            old(schema)@,
            final(schema)@,
            match r {
                Ok(_) => None::<ApplyError<E>>,
                Err(e) => Some(e),
            },
        ),
{
    let (node, fault) = apply_visit(schema, &apply_callback);
    *schema = node;
    match fault {
        Some(e) => Err(e),
        None => Ok(()),
    }
}

} // verus!
