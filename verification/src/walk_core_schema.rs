//! The traversal driver: which children of a schema node are schemas themselves.
//!
//! A node's `type` tag decides which of its keys hold child schemas and in what
//! shape: a single schema, a list of schemas, a mapping, or a list or mapping of
//! field records that each wrap one schema. [`recurse`] lists the places of
//! those children in the order in which they are visited, and stops at the
//! first place that is not shaped as the tag demands. After the tag's own
//! children come those of `serialization`.

use crate::value::{
    find_key, lemma_child_decreases, lemma_position_is_first, lemma_position_none,
    lemma_with_child_same, lemma_with_child_twice, position, str_eq, Tree, Value,
};
use vstd::prelude::*;

verus! {

/// Why a schema could not be processed.
#[derive(Clone, Copy, Debug, PartialEq, Eq, Structural)]
pub enum SchemaError {
    /// A required key is missing.
    MissingKey,
    /// A value has not the shape that its place demands.
    WrongType,
    /// A `definitions` node stands where all of them should have been lifted out.
    UnexpectedDefinitions,
}

/// Where a child schema stands below its node (model).
pub enum Place {
    /// The value of the node's entry `0`.
    Key(int),
    /// Item `1` of the list or mapping in the node's entry `0`.
    Item(int, int),
    /// Entry `2` of the record, or item `2` of the tuple, that is item `1` of the
    /// container in the node's entry `0`.
    Field(int, int, int),
}

/// Where a child schema stands below its node.
#[derive(Clone, Copy, Debug, PartialEq, Eq, Structural)]
pub enum Site {
    /// The value of the node's entry `0`.
    Key(usize),
    /// Item `1` of the list or mapping in the node's entry `0`.
    Item(usize, usize),
    /// Entry `2` of the record, or item `2` of the tuple, that is item `1` of the
    /// container in the node's entry `0`.
    Field(usize, usize, usize),
}

impl View for Site {
    type V = Place;

    open spec fn view(&self) -> Place {
        match *self {
            Site::Key(a) => Place::Key(a as int),
            Site::Item(a, b) => Place::Item(a as int, b as int),
            Site::Field(a, b, c) => Place::Field(a as int, b as int, c as int),
        }
    }
}

impl Place {
    /// The value that stands at this place in `t`.
    pub open spec fn of(self, t: Tree) -> Tree {
        match self {
            Place::Key(a) => t.child(a),
            Place::Item(a, b) => t.child(a).child(b),
            Place::Field(a, b, c) => t.child(a).child(b).child(c),
        }
    }

    /// Whether this place exists in `t` and holds a record.
    pub open spec fn valid(self, t: Tree) -> bool {
        match self {
            Place::Key(a) => 0 <= a < t.arity() && t.child(a).is_dict(),
            Place::Item(a, b) => {
                &&& 0 <= a < t.arity()
                &&& 0 <= b < t.child(a).arity()
                &&& t.child(a).child(b).is_dict()
            },
            Place::Field(a, b, c) => {
                &&& 0 <= a < t.arity()
                &&& 0 <= b < t.child(a).arity()
                &&& 0 <= c < t.child(a).child(b).arity()
                &&& t.child(a).child(b).child(c).is_dict()
            },
        }
    }

    /// `t` with the value at this place replaced by `n`.
    pub open spec fn put(self, t: Tree, n: Tree) -> Tree {
        match self {
            Place::Key(a) => t.with_child(a, n),
            Place::Item(a, b) => t.with_child(a, t.child(a).with_child(b, n)),
            Place::Field(a, b, c) => t.with_child(
                a,
                t.child(a).with_child(b, t.child(a).child(b).with_child(c, n)),
            ),
        }
    }
}

/// What lies at a valid place lies strictly below the node.
pub proof fn lemma_place_decreases(t: Tree, p: Place)
    requires
        p.valid(t),
    ensures
        decreases_to!(t => p.of(t)),
{
    match p {
        Place::Key(a) => {
            lemma_child_decreases(t, a);
        },
        Place::Item(a, b) => {
            lemma_child_decreases(t, a);
            lemma_child_decreases(t.child(a), b);
        },
        Place::Field(a, b, c) => {
            lemma_child_decreases(t, a);
            lemma_child_decreases(t.child(a), b);
            lemma_child_decreases(t.child(a).child(b), c);
        },
    }
}

/// The outcome of walking one node (model): the places of its child schemas in
/// visiting order, and the structural fault that ended the walk, if any.
pub struct Plan {
    pub sites: Seq<Place>,
    pub failure: Option<SchemaError>,
}

impl Plan {
    /// Nothing visited yet, nothing wrong.
    pub open spec fn empty() -> Plan {
        Plan { sites: Seq::empty(), failure: None }
    }

    /// This plan with one more place.
    pub open spec fn push(self, p: Place) -> Plan {
        Plan { sites: self.sites.push(p), failure: self.failure }
    }

    /// This plan ended by `e`.
    pub open spec fn fail(self, e: SchemaError) -> Plan {
        Plan { sites: self.sites, failure: Some(e) }
    }

    /// Every place of the plan exists in `t` and holds a record.
    pub open spec fn valid(self, t: Tree) -> bool {
        forall|k: int| 0 <= k < self.sites.len() ==> (#[trigger] self.sites[k]).valid(t)
    }
}

/// The outcome of walking one node: the places of its child schemas in visiting
/// order, and the structural fault that ended the walk, if any.
pub struct Walk {
    pub sites: Vec<Site>,
    pub failure: Option<SchemaError>,
}

impl View for Walk {
    type V = Plan;

    open spec fn view(&self) -> Plan {
        Plan { sites: self.sites@.map_values(|s: Site| s@), failure: self.failure }
    }
}

impl Walk {
    /// Nothing visited yet, nothing wrong.
    pub fn new() -> (r: Walk)
        ensures
            r@ == Plan::empty(),
    {
        let r = Walk { sites: Vec::new(), failure: None };
        assert(r@.sites =~= Seq::empty());
        r
    }

    /// This walk with one more place.
    pub fn push(self, site: Site) -> (r: Walk)
        ensures
            r@ == self@.push(site@),
    {
        let mut sites = self.sites;
        sites.push(site);
        let r = Walk { sites, failure: self.failure };
        assert(r@.sites =~= self@.sites.push(site@));
        r
    }

    /// This walk ended by `e`.
    pub fn fail(self, e: SchemaError) -> (r: Walk)
        ensures
            r@ == self@.fail(e),
    {
        Walk { sites: self.sites, failure: Some(e) }
    }
}

/// What each item of a container of children must be.
#[derive(Clone, Copy, Debug, PartialEq, Eq, Structural)]
pub enum Mode {
    /// A schema.
    Schema,
    /// A schema that bears a `ref`.
    Definition,
    /// A schema, or a `(schema, tag)` pair.
    Choice,
    /// A schema, or anything else, which is passed over.
    Tagged,
    /// A field record that holds a schema under `schema`.
    FieldSchema,
    /// A field record that holds a schema under `return_schema`.
    FieldReturn,
}

/// The key under which a field record of this mode holds its schema.
pub open spec fn inner_key(mode: Mode) -> Seq<char> {
    if mode == Mode::FieldReturn {
        "return_schema"@
    } else {
        "schema"@
    }
}

/// The plan after one field record: item `b` of the container in entry `a`.
pub open spec fn walk_field_spec(key: Seq<char>, field: Tree, a: int, b: int, plan: Plan) -> Plan {
    if !field.is_dict() {
        plan.fail(SchemaError::WrongType)
    } else {
        match position(field.entries(), key) {
            None => plan.fail(SchemaError::MissingKey),
            Some(c) => if field.child(c).is_dict() {
                plan.push(Place::Field(a, b, c))
            } else {
                plan.fail(SchemaError::WrongType)
            },
        }
    }
}

/// The plan after one item of a container: item `b` of the container in entry `a`.
pub open spec fn walk_item_spec(mode: Mode, item: Tree, a: int, b: int, plan: Plan) -> Plan {
    match mode {
        Mode::Schema => if item.is_dict() {
            plan.push(Place::Item(a, b))
        } else {
            plan.fail(SchemaError::WrongType)
        },
        Mode::Definition => if !item.is_dict() {
            plan.fail(SchemaError::WrongType)
        } else if item.has("ref"@) {
            plan.push(Place::Item(a, b))
        } else {
            plan.fail(SchemaError::MissingKey)
        },
        Mode::Choice => if item.is_dict() {
            plan.push(Place::Item(a, b))
        } else if item is Tuple && item.arity() >= 1 && item.child(0).is_dict() {
            plan.push(Place::Field(a, b, 0))
        } else {
            plan.fail(SchemaError::WrongType)
        },
        Mode::Tagged => if item.is_dict() {
            plan.push(Place::Item(a, b))
        } else {
            plan
        },
        Mode::FieldSchema => walk_field_spec(inner_key(mode), item, a, b, plan),
        Mode::FieldReturn => walk_field_spec(inner_key(mode), item, a, b, plan),
    }
}

/// The plan after the items of `container` from `b` on, until one is at fault.
pub open spec fn walk_items_spec(mode: Mode, container: Tree, a: int, b: int, plan: Plan) -> Plan
    decreases container.arity() - b,
{
    if plan.failure is Some || b < 0 || b >= container.arity() {
        plan
    } else {
        walk_items_spec(
            mode,
            container,
            a,
            b + 1,
            walk_item_spec(mode, container.child(b), a, b, plan),
        )
    }
}

/// The plan after the container of children under `key`: a list, or a mapping
/// where `mapping` is set. A missing key is a fault only where it is `required`.
pub open spec fn walk_container_spec(
    key: Seq<char>,
    schema: Tree,
    mapping: bool,
    required: bool,
    mode: Mode,
    plan: Plan,
) -> Plan {
    if plan.failure is Some {
        plan
    } else {
        match position(schema.entries(), key) {
            None => if required {
                plan.fail(SchemaError::MissingKey)
            } else {
                plan
            },
            Some(a) => {
                let container = schema.child(a);
                if (mapping && container is Dict) || (!mapping && container is List) {
                    walk_items_spec(mode, container, a, 0, plan)
                } else {
                    plan.fail(SchemaError::WrongType)
                }
            },
        }
    }
}

/// The plan after the single child under `key`, which may be missing.
pub open spec fn walk_dict_spec(key: Seq<char>, schema: Tree, plan: Plan) -> Plan {
    if plan.failure is Some {
        plan
    } else {
        match position(schema.entries(), key) {
            None => plan,
            Some(a) => if schema.child(a).is_dict() {
                plan.push(Place::Key(a))
            } else {
                plan.fail(SchemaError::WrongType)
            },
        }
    }
}

/// The plan after the single child under `key`, which must be there.
pub open spec fn walk_required_spec(key: Seq<char>, schema: Tree, plan: Plan) -> Plan {
    if plan.failure is None && !schema.has(key) {
        plan.fail(SchemaError::MissingKey)
    } else {
        walk_dict_spec(key, schema, plan)
    }
}

/// The plan after the list of schemas under `key`; with `pairs`, an item may be
/// a `(schema, tag)` pair.
pub open spec fn walk_list_spec(key: Seq<char>, schema: Tree, pairs: bool, plan: Plan) -> Plan {
    walk_container_spec(
        key,
        schema,
        false,
        true,
        if pairs {
            Mode::Choice
        } else {
            Mode::Schema
        },
        plan,
    )
}

/// The plan after the computed fields of a node, if it has any.
pub open spec fn walk_computed_fields_spec(schema: Tree, plan: Plan) -> Plan {
    walk_container_spec("computed_fields"@, schema, false, false, Mode::FieldReturn, plan)
}

/// The plan after the named fields of a node.
pub open spec fn walk_model_fields_spec(schema: Tree, plan: Plan) -> Plan {
    walk_container_spec("fields"@, schema, true, true, Mode::FieldSchema, plan)
}

/// The plan after a `definitions` node: its definitions, each of which must
/// bear a `ref`, then its inner schema.
pub open spec fn handle_definitions_schema_spec(schema: Tree, plan: Plan) -> Plan {
    walk_required_spec(
        "schema"@,
        schema,
        walk_container_spec("definitions"@, schema, false, true, Mode::Definition, plan),
    )
}

/// The plan after a `tagged-union` node: those of its choices that are schemas.
pub open spec fn handle_tagged_union_schema_spec(schema: Tree, plan: Plan) -> Plan {
    walk_container_spec("choices"@, schema, true, true, Mode::Tagged, plan)
}

/// The plan after a `dataclass-args` node: computed fields, then fields.
pub open spec fn handle_dataclass_args_schema_spec(schema: Tree, plan: Plan) -> Plan {
    walk_container_spec(
        "fields"@,
        schema,
        false,
        true,
        Mode::FieldSchema,
        walk_computed_fields_spec(schema, plan),
    )
}

/// The plan after an `arguments` node: its arguments, then the two variadic schemas.
pub open spec fn handle_arguments_schema_spec(schema: Tree, plan: Plan) -> Plan {
    walk_dict_spec(
        "var_kwargs_schema"@,
        schema,
        walk_dict_spec(
            "var_args_schema"@,
            schema,
            walk_container_spec("arguments_schema"@, schema, false, true, Mode::FieldSchema, plan),
        ),
    )
}

/// The plan after the children that the tag `tag` gives a node.
pub open spec fn walk_tag_spec(tag: Seq<char>, schema: Tree, plan: Plan) -> Plan {
    if tag == "definitions"@ {
        handle_definitions_schema_spec(schema, plan)
    } else if tag == "list"@ || tag == "set"@ || tag == "frozenset"@ || tag == "generator"@ || tag
        == "tuple-variable"@ {
        walk_dict_spec("items_schema"@, schema, plan)
    } else if tag == "tuple-positional"@ {
        walk_dict_spec("extra_schema"@, schema, walk_list_spec("items_schema"@, schema, false, plan))
    } else if tag == "tuple"@ {
        walk_list_spec("items_schema"@, schema, false, plan)
    } else if tag == "dict"@ {
        walk_dict_spec("values_schema"@, schema, walk_dict_spec("keys_schema"@, schema, plan))
    } else if tag == "function-plain"@ || tag == "computed-field"@ {
        walk_dict_spec("return_schema"@, schema, plan)
    } else if tag == "function-wrap"@ {
        walk_dict_spec("return_schema"@, schema, walk_dict_spec("schema"@, schema, plan))
    } else if tag == "union"@ {
        walk_list_spec("choices"@, schema, true, plan)
    } else if tag == "tagged-union"@ {
        handle_tagged_union_schema_spec(schema, plan)
    } else if tag == "chain"@ {
        walk_list_spec("steps"@, schema, false, plan)
    } else if tag == "lax-or-strict"@ {
        walk_dict_spec("strict_schema"@, schema, walk_dict_spec("lax_schema"@, schema, plan))
    } else if tag == "json-or-python"@ {
        walk_dict_spec("python_schema"@, schema, walk_dict_spec("json_schema"@, schema, plan))
    } else if tag == "model-fields"@ || tag == "typed-dict"@ {
        walk_model_fields_spec(
            schema,
            walk_computed_fields_spec(
                schema,
                walk_dict_spec(
                    "extra_validator"@,
                    schema,
                    walk_dict_spec("extras_schema"@, schema, plan),
                ),
            ),
        )
    } else if tag == "dataclass-args"@ {
        handle_dataclass_args_schema_spec(schema, plan)
    } else if tag == "arguments"@ {
        handle_arguments_schema_spec(schema, plan)
    } else if tag == "call"@ {
        walk_dict_spec("return_schema"@, schema, walk_dict_spec("arguments_schema"@, schema, plan))
    } else if tag == "definition-ref"@ {
        plan
    } else {
        walk_dict_spec("schema"@, schema, plan)
    }
}

/// The plan after one child of the serialization record in entry `a`.
pub open spec fn walk_serialization_key_spec(key: Seq<char>, ser: Tree, a: int, plan: Plan) -> Plan {
    if plan.failure is Some {
        plan
    } else {
        match position(ser.entries(), key) {
            None => plan,
            Some(b) => if ser.child(b).is_dict() {
                plan.push(Place::Item(a, b))
            } else {
                plan.fail(SchemaError::WrongType)
            },
        }
    }
}

/// The plan after the `serialization` of a node: its `schema`, then its
/// `return_schema`.
pub open spec fn walk_serialization_spec(schema: Tree, plan: Plan) -> Plan {
    if plan.failure is Some {
        plan
    } else {
        match position(schema.entries(), "serialization"@) {
            None => plan,
            Some(a) => {
                let ser = schema.child(a);
                if ser.is_dict() {
                    walk_serialization_key_spec(
                        "return_schema"@,
                        ser,
                        a,
                        walk_serialization_key_spec("schema"@, ser, a, plan),
                    )
                } else {
                    plan.fail(SchemaError::WrongType)
                }
            },
        }
    }
}

/// The tag of a node: the string under `type`.
pub open spec fn tag_of(schema: Tree) -> Result<Seq<char>, SchemaError> {
    if !schema.is_dict() {
        Err(SchemaError::WrongType)
    } else {
        match schema.get("type"@) {
            None => Err(SchemaError::MissingKey),
            Some(Tree::Str(tag)) => Ok(tag),
            Some(_) => Err(SchemaError::WrongType),
        }
    }
}

/// The walk of one node: the places of its child schemas in visiting order,
/// first those that its tag gives it, then those of its serialization.
pub open spec fn recurse_spec(schema: Tree) -> Plan {
    match tag_of(schema) {
        Err(e) => Plan::empty().fail(e),
        Ok(tag) => walk_serialization_spec(schema, walk_tag_spec(tag, schema, Plan::empty())),
    }
}

/// A key that has a position stands at that position, inside the record.
pub broadcast proof fn lemma_position_in_range<V>(entries: Seq<(Seq<char>, V)>, key: Seq<char>)
    ensures
        #[trigger] position(entries, key) matches Some(i) ==> 0 <= i < entries.len()
            && entries[i].0 == key,
{
    lemma_position_is_first(entries, key);
}

/// Walking a single child keeps a plan valid.
pub broadcast proof fn lemma_walk_dict_valid(key: Seq<char>, schema: Tree, plan: Plan)
    requires
        plan.valid(schema),
    ensures
        (#[trigger] walk_dict_spec(key, schema, plan)).valid(schema),
{
    broadcast use lemma_position_in_range;

}

/// Walking the items of a container keeps a plan valid.
pub proof fn lemma_walk_items_valid(mode: Mode, schema: Tree, a: int, b: int, plan: Plan)
    requires
        plan.valid(schema),
        0 <= a < schema.arity(),
    ensures
        walk_items_spec(mode, schema.child(a), a, b, plan).valid(schema),
    decreases schema.child(a).arity() - b,
{
    broadcast use lemma_position_in_range;

    let container = schema.child(a);
    if plan.failure is Some || b < 0 || b >= container.arity() {
    } else {
        let next = walk_item_spec(mode, container.child(b), a, b, plan);
        assert(next.valid(schema));
        lemma_walk_items_valid(mode, schema, a, b + 1, next);
    }
}

/// Walking a container of children keeps a plan valid.
pub broadcast proof fn lemma_walk_container_valid(
    key: Seq<char>,
    schema: Tree,
    mapping: bool,
    required: bool,
    mode: Mode,
    plan: Plan,
)
    requires
        plan.valid(schema),
    ensures
        (#[trigger] walk_container_spec(key, schema, mapping, required, mode, plan)).valid(schema),
{
    broadcast use lemma_position_in_range;

    if plan.failure is None {
        if let Some(a) = position(schema.entries(), key) {
            lemma_walk_items_valid(mode, schema, a, 0, plan);
        }
    }
}

/// Walking the serialization keeps a plan valid.
pub broadcast proof fn lemma_walk_serialization_valid(schema: Tree, plan: Plan)
    requires
        plan.valid(schema),
    ensures
        (#[trigger] walk_serialization_spec(schema, plan)).valid(schema),
{
    broadcast use lemma_position_in_range;

}

/// Every place that the walk of a node lists exists in the node and holds a
/// record.
pub proof fn lemma_recurse_valid(schema: Tree)
    ensures
        recurse_spec(schema).valid(schema),
{
    broadcast use {
        lemma_walk_dict_valid,
        lemma_walk_container_valid,
        lemma_walk_serialization_valid,
    };

    if let Ok(tag) = tag_of(schema) {
        let plan = Plan::empty();
        assert(plan.valid(schema));
        assert(walk_tag_spec(tag, schema, plan).valid(schema));
    }
}

/// The child of `node` that stands at `site`.
pub fn site_child(node: &Value, site: Site) -> (r: &Value)
    requires
        site@.valid(node@),
    ensures
        r@ == site@.of(node@),
{
    match site {
        Site::Key(a) => node.child(a),
        Site::Item(a, b) => node.child(a).child(b),
        Site::Field(a, b, c) => node.child(a).child(b).child(c),
    }
}

/// `node` with the value at `site` replaced by `new`.
pub fn put_site(node: Value, site: Site, new: Value) -> (r: Value)
    ensures
        r@ == site@.put(node@, new@),
{
    let ghost t = node@;
    match site {
        Site::Key(a) => node.with_child(a, new),
        Site::Item(a, b) => {
            let (rest, inner) = node.swap_child(a, Value::Opaque(0));
            if a < rest.arity() {
                proof {
                    lemma_with_child_twice(t, a as int, Tree::Opaque(0), inner@.with_child(b as int, new@));
                }
                rest.with_child(a, inner.with_child(b, new))
            } else {
                rest
            }
        },
        Site::Field(a, b, c) => {
            let (rest, inner) = node.swap_child(a, Value::Opaque(0));
            if a < rest.arity() {
                let ghost i0 = inner@;
                let (inner_rest, field) = inner.swap_child(b, Value::Opaque(0));
                if b < inner_rest.arity() {
                    let field = field.with_child(c, new);
                    proof {
                        lemma_with_child_twice(i0, b as int, Tree::Opaque(0), field@);
                        lemma_with_child_twice(t, a as int, Tree::Opaque(0), i0.with_child(b as int, field@));
                    }
                    rest.with_child(a, inner_rest.with_child(b, field))
                } else {
                    proof {
                        lemma_with_child_twice(t, a as int, Tree::Opaque(0), i0);
                        assert(t.with_child(a as int, i0) == t) by {
                            lemma_with_child_same(t, a as int);
                        }
                    }
                    rest.with_child(a, inner_rest)
                }
            } else {
                rest
            }
        },
    }
}

/// The walk after one field record: item `b` of the container in entry `a`.
pub fn walk_field(key: &str, field: &Value, a: usize, b: usize, walk: Walk) -> (r: Walk)
    ensures
        r@ == walk_field_spec(key@, field@, a as int, b as int, walk@),
{
    match field {
        Value::Dict(entries) => match find_key(entries, key) {
            None => walk.fail(SchemaError::MissingKey),
            Some(c) => if entries[c].1.is_dict() {
                walk.push(Site::Field(a, b, c))
            } else {
                walk.fail(SchemaError::WrongType)
            },
        },
        _ => walk.fail(SchemaError::WrongType),
    }
}

/// The walk after one item of a container: item `b` of the container in entry `a`.
pub fn walk_item(mode: Mode, item: &Value, a: usize, b: usize, walk: Walk) -> (r: Walk)
    ensures
        r@ == walk_item_spec(mode, item@, a as int, b as int, walk@),
{
    match mode {
        Mode::Schema => if item.is_dict() {
            walk.push(Site::Item(a, b))
        } else {
            walk.fail(SchemaError::WrongType)
        },
        Mode::Definition => if !item.is_dict() {
            walk.fail(SchemaError::WrongType)
        } else if item.get("ref").is_some() {
            walk.push(Site::Item(a, b))
        } else {
            walk.fail(SchemaError::MissingKey)
        },
        Mode::Choice => if item.is_dict() {
            walk.push(Site::Item(a, b))
        } else {
            match item {
                Value::Tuple(parts) => if parts.len() >= 1 && parts[0].is_dict() {
                    walk.push(Site::Field(a, b, 0))
                } else {
                    walk.fail(SchemaError::WrongType)
                },
                _ => walk.fail(SchemaError::WrongType),
            }
        },
        Mode::Tagged => if item.is_dict() {
            walk.push(Site::Item(a, b))
        } else {
            walk
        },
        Mode::FieldSchema => walk_field("schema", item, a, b, walk),
        Mode::FieldReturn => walk_field("return_schema", item, a, b, walk),
    }
}

/// The walk after all items of `container`, until one is at fault.
pub fn walk_items(mode: Mode, container: &Value, a: usize, walk: Walk) -> (r: Walk)
    ensures
        r@ == walk_items_spec(mode, container@, a as int, 0, walk@),
{
    let ghost start = walk@;
    let n = container.arity();
    let mut walk = walk;
    let mut b: usize = 0;
    while b < n && walk.failure.is_none()
        invariant
            b <= n,
            n == container@.arity(),
            walk_items_spec(mode, container@, a as int, 0, start) == walk_items_spec(
                mode,
                container@,
                a as int,
                b as int,
                walk@,
            ),
        decreases n - b,
    {
        walk = walk_item(mode, container.child(b), a, b, walk);
        b += 1;
    }
    walk
}

/// The walk after the container of children under `key`: a list, or a mapping
/// where `mapping` is set. A missing key is a fault only where it is `required`.
pub fn walk_container(
    key: &str,
    schema: &Value,
    mapping: bool,
    required: bool,
    mode: Mode,
    walk: Walk,
) -> (r: Walk)
    ensures
        r@ == walk_container_spec(key@, schema@, mapping, required, mode, walk@),
{
    if walk.failure.is_some() {
        return walk;
    }
    match schema {
        Value::Dict(entries) => match find_key(entries, key) {
            None => if required {
                walk.fail(SchemaError::MissingKey)
            } else {
                walk
            },
            Some(a) => {
                let container = &entries[a].1;
                let fits = match container {
                    Value::Dict(_) => mapping,
                    Value::List(_) => !mapping,
                    _ => false,
                };
                if fits {
                    walk_items(mode, container, a, walk)
                } else {
                    walk.fail(SchemaError::WrongType)
                }
            },
        },
        _ => {
            proof {
                lemma_position_none(schema@.entries(), key@);
            }
            if required {
                walk.fail(SchemaError::MissingKey)
            } else {
                walk
            }
        },
    }
}

/// The walk after the single child under `key`, which may be missing.
pub fn walk_dict(key: &str, schema: &Value, walk: Walk) -> (r: Walk)
    ensures
        r@ == walk_dict_spec(key@, schema@, walk@),
{
    if walk.failure.is_some() {
        return walk;
    }
    match schema {
        Value::Dict(entries) => match find_key(entries, key) {
            None => walk,
            Some(a) => if entries[a].1.is_dict() {
                walk.push(Site::Key(a))
            } else {
                walk.fail(SchemaError::WrongType)
            },
        },
        _ => {
            proof {
                lemma_position_none(schema@.entries(), key@);
            }
            walk
        },
    }
}

/// The walk after the single child under `key`, which must be there.
pub fn walk_required(key: &str, schema: &Value, walk: Walk) -> (r: Walk)
    ensures
        r@ == walk_required_spec(key@, schema@, walk@),
{
    if walk.failure.is_none() && schema.get(key).is_none() {
        walk.fail(SchemaError::MissingKey)
    } else {
        walk_dict(key, schema, walk)
    }
}

/// The walk after the list of schemas under `key`; with `pairs`, an item may be
/// a `(schema, tag)` pair.
pub fn walk_list(key: &str, schema: &Value, pairs: bool, walk: Walk) -> (r: Walk)
    ensures
        r@ == walk_list_spec(key@, schema@, pairs, walk@),
{
    let mode = if pairs {
        Mode::Choice
    } else {
        Mode::Schema
    };
    walk_container(key, schema, false, true, mode, walk)
}

/// The walk after the computed fields of a node, if it has any.
pub fn walk_computed_fields(schema: &Value, walk: Walk) -> (r: Walk)
    ensures
        r@ == walk_computed_fields_spec(schema@, walk@),
{
    walk_container("computed_fields", schema, false, false, Mode::FieldReturn, walk)
}

/// The walk after the named fields of a node.
pub fn walk_model_fields(schema: &Value, walk: Walk) -> (r: Walk)
    ensures
        r@ == walk_model_fields_spec(schema@, walk@),
{
    walk_container("fields", schema, true, true, Mode::FieldSchema, walk)
}

/// The walk after a `definitions` node: its definitions, each of which must
/// bear a `ref`, then its inner schema.
pub fn handle_definitions_schema(schema: &Value, walk: Walk) -> (r: Walk)
    ensures
        r@ == handle_definitions_schema_spec(schema@, walk@),
{
    let walk = walk_container("definitions", schema, false, true, Mode::Definition, walk);
    walk_required("schema", schema, walk)
}

/// The walk after a `tagged-union` node: those of its choices that are schemas.
pub fn handle_tagged_union_schema(schema: &Value, walk: Walk) -> (r: Walk)
    ensures
        r@ == handle_tagged_union_schema_spec(schema@, walk@),
{
    walk_container("choices", schema, true, true, Mode::Tagged, walk)
}

/// The walk after a `dataclass-args` node: computed fields, then fields.
pub fn handle_dataclass_args_schema(schema: &Value, walk: Walk) -> (r: Walk)
    ensures
        r@ == handle_dataclass_args_schema_spec(schema@, walk@),
{
    let walk = walk_computed_fields(schema, walk);
    walk_container("fields", schema, false, true, Mode::FieldSchema, walk)
}

/// The walk after an `arguments` node: its arguments, then the two variadic schemas.
pub fn handle_arguments_schema(schema: &Value, walk: Walk) -> (r: Walk)
    ensures
        r@ == handle_arguments_schema_spec(schema@, walk@),
{
    let walk = walk_container("arguments_schema", schema, false, true, Mode::FieldSchema, walk);
    let walk = walk_dict("var_args_schema", schema, walk);
    walk_dict("var_kwargs_schema", schema, walk)
}

/// The walk after the children that the tag `tag` gives a node.
pub fn walk_tag(tag: &str, schema: &Value, walk: Walk) -> (r: Walk)
    ensures
        r@ == walk_tag_spec(tag@, schema@, walk@),
{
    if str_eq(tag, "definitions") {
        handle_definitions_schema(schema, walk)
    } else if str_eq(tag, "list") || str_eq(tag, "set") || str_eq(tag, "frozenset") || str_eq(
        tag,
        "generator",
    ) || str_eq(tag, "tuple-variable") {
        walk_dict("items_schema", schema, walk)
    } else if str_eq(tag, "tuple-positional") {
        let walk = walk_list("items_schema", schema, false, walk);
        walk_dict("extra_schema", schema, walk)
    } else if str_eq(tag, "tuple") {
        walk_list("items_schema", schema, false, walk)
    } else if str_eq(tag, "dict") {
        let walk = walk_dict("keys_schema", schema, walk);
        walk_dict("values_schema", schema, walk)
    } else if str_eq(tag, "function-plain") || str_eq(tag, "computed-field") {
        walk_dict("return_schema", schema, walk)
    } else if str_eq(tag, "function-wrap") {
        let walk = walk_dict("schema", schema, walk);
        walk_dict("return_schema", schema, walk)
    } else if str_eq(tag, "union") {
        walk_list("choices", schema, true, walk)
    } else if str_eq(tag, "tagged-union") {
        handle_tagged_union_schema(schema, walk)
    } else if str_eq(tag, "chain") {
        walk_list("steps", schema, false, walk)
    } else if str_eq(tag, "lax-or-strict") {
        let walk = walk_dict("lax_schema", schema, walk);
        walk_dict("strict_schema", schema, walk)
    } else if str_eq(tag, "json-or-python") {
        let walk = walk_dict("json_schema", schema, walk);
        walk_dict("python_schema", schema, walk)
    } else if str_eq(tag, "model-fields") || str_eq(tag, "typed-dict") {
        let walk = walk_dict("extras_schema", schema, walk);
        let walk = walk_dict("extra_validator", schema, walk);
        let walk = walk_computed_fields(schema, walk);
        walk_model_fields(schema, walk)
    } else if str_eq(tag, "dataclass-args") {
        handle_dataclass_args_schema(schema, walk)
    } else if str_eq(tag, "arguments") {
        handle_arguments_schema(schema, walk)
    } else if str_eq(tag, "call") {
        let walk = walk_dict("arguments_schema", schema, walk);
        walk_dict("return_schema", schema, walk)
    } else if str_eq(tag, "definition-ref") {
        walk
    } else {
        walk_dict("schema", schema, walk)
    }
}

/// The walk after one child of the serialization record in entry `a`.
pub fn walk_serialization_key(key: &str, ser: &Value, a: usize, walk: Walk) -> (r: Walk)
    ensures
        r@ == walk_serialization_key_spec(key@, ser@, a as int, walk@),
{
    if walk.failure.is_some() {
        return walk;
    }
    match ser {
        Value::Dict(entries) => match find_key(entries, key) {
            None => walk,
            Some(b) => if entries[b].1.is_dict() {
                walk.push(Site::Item(a, b))
            } else {
                walk.fail(SchemaError::WrongType)
            },
        },
        _ => {
            proof {
                lemma_position_none(ser@.entries(), key@);
            }
            walk
        },
    }
}

/// The walk after the `serialization` of a node: its `schema`, then its
/// `return_schema`.
pub fn walk_serialization(schema: &Value, walk: Walk) -> (r: Walk)
    ensures
        r@ == walk_serialization_spec(schema@, walk@),
{
    if walk.failure.is_some() {
        return walk;
    }
    match schema {
        Value::Dict(entries) => match find_key(entries, "serialization") {
            None => walk,
            Some(a) => {
                let ser = &entries[a].1;
                if ser.is_dict() {
                    let walk = walk_serialization_key("schema", ser, a, walk);
                    walk_serialization_key("return_schema", ser, a, walk)
                } else {
                    walk.fail(SchemaError::WrongType)
                }
            },
        },
        _ => {
            proof {
                lemma_position_none(schema@.entries(), "serialization"@);
            }
            walk
        },
    }
}

/// The tag of a node: the string under `type`.
pub fn node_tag(schema: &Value) -> (r: Result<&str, SchemaError>)
    ensures
        match r {
            Ok(tag) => tag_of(schema@) == Ok::<Seq<char>, SchemaError>(tag@),
            Err(e) => tag_of(schema@) == Err::<Seq<char>, SchemaError>(e),
        },
{
    if !schema.is_dict() {
        return Err(SchemaError::WrongType);
    }
    match schema.get("type") {
        None => Err(SchemaError::MissingKey),
        Some(Value::Str(tag)) => Ok(tag.as_str()),
        Some(_) => Err(SchemaError::WrongType),
    }
}

/// Walks one node: lists the places of its child schemas in visiting order,
/// first those that its tag gives it, then those of its serialization, up to
/// the first place that is not shaped as it must be.
pub fn recurse(schema: &Value) -> (r: Walk)
    ensures
        r@ == recurse_spec(schema@),
        r@.valid(schema@),
{
    proof {
        lemma_recurse_valid(schema@);
    }
    match node_tag(schema) {
        Err(e) => Walk::new().fail(e),
        Ok(tag) => {
            let walk = walk_tag(tag, schema, Walk::new());
            walk_serialization(schema, walk)
        },
    }
}

} // verus!
