//! The data a core schema is made of, and its mathematical model.
//!
//! A schema is a tree of tagged records. [`Value`] is the executable tree;
//! [`Tree`] is what contracts speak of. A record keeps its entries in insertion
//! order, and a key is looked up at its first occurrence.

use vstd::prelude::*;

verus! {

/// The mathematical model of a [`Value`].
pub enum Tree {
    /// A string.
    Str(Seq<char>),
    /// An ordered list.
    List(Seq<Tree>),
    /// A fixed tuple, such as a `(schema, tag)` pair among union choices.
    Tuple(Seq<Tree>),
    /// A record: keys with their values, in insertion order.
    Dict(Seq<(Seq<char>, Tree)>),
    /// Payload that the rewriter carries through untouched, named by a handle.
    Opaque(u64),
}

/// A value inside a core schema: a record, a list, a tuple, a string, or a handle
/// that stands for payload the rewriter never looks into.
#[derive(Debug, PartialEq, Eq)]
pub enum Value {
    /// A string.
    Str(String),
    /// An ordered list.
    List(Vec<Value>),
    /// A fixed tuple, such as a `(schema, tag)` pair among union choices.
    Tuple(Vec<Value>),
    /// A record: keys with their values, in insertion order.
    Dict(Vec<(String, Value)>),
    /// Payload that the rewriter carries through untouched, named by a handle.
    Opaque(u64),
}

/// The entries of a record, in order.
pub type Entries = Seq<(Seq<char>, Tree)>;

/// The model of a sequence of values.
pub open spec fn items_model(items: Seq<Value>) -> Seq<Tree>
    decreases items, 0int,
{
    Seq::new(
        items.len(),
        |i: int|
            if 0 <= i < items.len() {
                model(items[i])
            } else {
                Tree::Opaque(0)
            },
    )
}

/// The model of the entries of a record.
pub open spec fn entries_model(entries: Seq<(String, Value)>) -> Entries
    decreases entries, 0int,
{
    Seq::new(
        entries.len(),
        |i: int|
            if 0 <= i < entries.len() {
                (entries[i].0@, model(entries[i].1))
            } else {
                (Seq::empty(), Tree::Opaque(0))
            },
    )
}

/// The model of a value.
pub open spec fn model(v: Value) -> Tree
    decreases v, 1int,
{
    match v {
        Value::Str(s) => Tree::Str(s@),
        Value::List(items) => Tree::List(items_model(items@)),
        Value::Tuple(items) => Tree::Tuple(items_model(items@)),
        Value::Dict(entries) => Tree::Dict(entries_model(entries@)),
        Value::Opaque(h) => Tree::Opaque(h),
    }
}

impl Clone for Value {
    fn clone(&self) -> (r: Value)
        ensures
            r@ == self@,
    {
        self.deep_clone()
    }
}

impl View for Value {
    type V = Tree;

    open spec fn view(&self) -> Tree {
        model(*self)
    }
}

impl Tree {
    /// Whether this is a record.
    pub open spec fn is_dict(self) -> bool {
        self is Dict
    }

    /// The entries of a record; none for anything else.
    pub open spec fn entries(self) -> Entries {
        match self {
            Tree::Dict(entries) => entries,
            _ => Seq::empty(),
        }
    }

    /// How many direct children a value has: the items of a list or tuple,
    /// the entry values of a record.
    pub open spec fn arity(self) -> nat {
        match self {
            Tree::List(items) => items.len(),
            Tree::Tuple(items) => items.len(),
            Tree::Dict(entries) => entries.len(),
            _ => 0,
        }
    }

    /// The `i`-th direct child.
    pub open spec fn child(self, i: int) -> Tree
        recommends
            0 <= i < self.arity(),
    {
        match self {
            Tree::List(items) => items[i],
            Tree::Tuple(items) => items[i],
            Tree::Dict(entries) => entries[i].1,
            _ => self,
        }
    }

    /// This value with its `i`-th direct child replaced by `c`. A record keeps the key.
    pub open spec fn with_child(self, i: int, c: Tree) -> Tree {
        if 0 <= i < self.arity() {
            match self {
                Tree::List(items) => Tree::List(items.update(i, c)),
                Tree::Tuple(items) => Tree::Tuple(items.update(i, c)),
                Tree::Dict(entries) => Tree::Dict(entries.update(i, (entries[i].0, c))),
                _ => self,
            }
        } else {
            self
        }
    }

    /// The value stored under `key` in a record, if any.
    pub open spec fn get(self, key: Seq<char>) -> Option<Tree> {
        lookup(self.entries(), key)
    }

    /// Whether a record holds `key`.
    pub open spec fn has(self, key: Seq<char>) -> bool {
        position(self.entries(), key) is Some
    }
}

/// Whether `i` is the first place in `entries` where `key` stands.
pub open spec fn is_first<V>(entries: Seq<(Seq<char>, V)>, key: Seq<char>, i: int) -> bool {
    &&& 0 <= i < entries.len()
    &&& entries[i].0 == key
    &&& forall|j: int| 0 <= j < i ==> (#[trigger] entries[j]).0 != key
}

/// The first place in `entries` where `key` stands.
pub open spec fn position<V>(entries: Seq<(Seq<char>, V)>, key: Seq<char>) -> Option<int> {
    if exists|i: int| is_first(entries, key, i) {
        Some(choose|i: int| is_first(entries, key, i))
    } else {
        None
    }
}

/// The value stored under `key`.
pub open spec fn lookup(entries: Entries, key: Seq<char>) -> Option<Tree> {
    match position(entries, key) {
        Some(i) => Some(entries[i].1),
        None => None,
    }
}

/// `entries` after storing `value` under `key`: an existing key keeps its place,
/// a new one goes to the end.
pub open spec fn store(entries: Entries, key: Seq<char>, value: Tree) -> Entries {
    match position(entries, key) {
        Some(i) => entries.update(i, (key, value)),
        None => entries.push((key, value)),
    }
}

/// `entries` without `key`.
pub open spec fn discard(entries: Entries, key: Seq<char>) -> Entries {
    match position(entries, key) {
        Some(i) => entries.remove(i),
        None => entries,
    }
}

/// No key stands twice in `entries`.
pub open spec fn distinct_keys(entries: Entries) -> bool {
    forall|i: int, j: int|
        0 <= i < j < entries.len() ==> (#[trigger] entries[i]).0 != (#[trigger] entries[j]).0
}

/// The first occurrence of a key is the only place that `position` can name.
pub proof fn lemma_position_first<V>(entries: Seq<(Seq<char>, V)>, key: Seq<char>, i: int)
    requires
        is_first(entries, key, i),
    ensures
        position(entries, key) == Some(i),
{
    let j = choose|j: int| is_first(entries, key, j);
    assert(is_first(entries, key, j));
    if j < i {
        assert(entries[j].0 != key);
    }
    if i < j {
        assert(entries[i].0 != key);
    }
}

/// A key that stands nowhere has no position.
pub proof fn lemma_position_none<V>(entries: Seq<(Seq<char>, V)>, key: Seq<char>)
    requires
        forall|j: int| 0 <= j < entries.len() ==> (#[trigger] entries[j]).0 != key,
    ensures
        position(entries, key) is None,
{
    if exists|i: int| is_first(entries, key, i) {
        let i = choose|i: int| is_first(entries, key, i);
        assert(entries[i].0 != key);
    }
}

/// What `position` returns is a first occurrence.
pub proof fn lemma_position_is_first<V>(entries: Seq<(Seq<char>, V)>, key: Seq<char>)
    ensures
        position(entries, key) matches Some(i) ==> is_first(entries, key, i),
        position(entries, key) is None ==> forall|j: int|
            0 <= j < entries.len() ==> (#[trigger] entries[j]).0 != key,
{
    if position(entries, key) is None {
        assert forall|j: int| 0 <= j < entries.len() implies (#[trigger] entries[j]).0 != key by {
            if entries[j].0 == key {
                lemma_some_first(entries, key, j);
            }
        }
    }
}

/// A key that stands somewhere has a first occurrence.
pub proof fn lemma_some_first<V>(entries: Seq<(Seq<char>, V)>, key: Seq<char>, j: int)
    requires
        0 <= j < entries.len(),
        entries[j].0 == key,
    ensures
        exists|i: int| is_first(entries, key, i),
    decreases j,
{
    if forall|k: int| 0 <= k < j ==> (#[trigger] entries[k]).0 != key {
        assert(is_first(entries, key, j));
    } else {
        let k = choose|k: int| 0 <= k < j && (#[trigger] entries[k]).0 == key;
        lemma_some_first(entries, key, k);
    }
}

/// A child lies strictly below its parent.
pub proof fn lemma_child_decreases(t: Tree, i: int)
    requires
        0 <= i < t.arity(),
    ensures
        decreases_to!(t => t.child(i)),
{
    match t {
        Tree::List(items) => {
            assert(decreases_to!(t => items));
            assert(decreases_to!(items => items[i]));
        },
        Tree::Tuple(items) => {
            assert(decreases_to!(t => items));
            assert(decreases_to!(items => items[i]));
        },
        Tree::Dict(entries) => {
            assert(decreases_to!(t => entries));
            assert(decreases_to!(entries => entries[i]));
            assert(decreases_to!(entries[i] => entries[i].1));
        },
        _ => {},
    }
}

/// Replacing a child twice is replacing it once.
pub proof fn lemma_with_child_twice(t: Tree, i: int, x: Tree, y: Tree)
    ensures
        t.with_child(i, x).with_child(i, y) == t.with_child(i, y),
        0 <= i < t.arity() ==> t.with_child(i, x).child(i) == x,
        t.with_child(i, x).arity() == t.arity(),
{
    if 0 <= i < t.arity() {
        match t {
            Tree::List(items) => {
                assert(items.update(i, x).update(i, y) =~= items.update(i, y));
            },
            Tree::Tuple(items) => {
                assert(items.update(i, x).update(i, y) =~= items.update(i, y));
            },
            Tree::Dict(entries) => {
                assert(entries.update(i, (entries[i].0, x)).update(i, (entries[i].0, y))
                    =~= entries.update(i, (entries[i].0, y)));
            },
            _ => {},
        }
    }
}

/// Putting a child where it stands changes nothing.
pub proof fn lemma_with_child_same(t: Tree, i: int)
    ensures
        t.with_child(i, t.child(i)) == t,
{
    if 0 <= i < t.arity() {
        match t {
            Tree::List(items) => {
                assert(items.update(i, items[i]) =~= items);
            },
            Tree::Tuple(items) => {
                assert(items.update(i, items[i]) =~= items);
            },
            Tree::Dict(entries) => {
                assert(entries.update(i, (entries[i].0, entries[i].1)) =~= entries);
            },
            _ => {},
        }
    }
}

/// Whether two strings hold the same characters.
pub fn str_eq(a: &str, b: &str) -> (r: bool)
    ensures
        r == (a@ == b@),
{
    let x = a.as_bytes();
    let y = b.as_bytes();
    if x.len() != y.len() {
        return false;
    }
    let mut i: usize = 0;
    while i < x.len()
        invariant
            i <= x.len(),
            x.len() == y.len(),
            x@ == vstd::utf8::encode_utf8(a@),
            y@ == vstd::utf8::encode_utf8(b@),
            forall|j: int| 0 <= j < i ==> x@[j] == y@[j],
        decreases x.len() - i,
    {
        if x[i] != y[i] {
            return false;
        }
        i += 1;
    }
    proof {
        assert(x@ =~= y@);
        vstd::utf8::encode_utf8_decode_utf8(a@);
        vstd::utf8::encode_utf8_decode_utf8(b@);
    }
    true
}

impl Value {
    /// A string value.
    pub fn string(s: &str) -> (r: Value)
        ensures
            r@ == Tree::Str(s@),
    {
        Value::Str(s.to_owned())
    }

    /// Whether this is a record.
    pub fn is_dict(&self) -> (r: bool)
        ensures
            r == self@.is_dict(),
    {
        match self {
            Value::Dict(_) => true,
            _ => false,
        }
    }

    /// How many direct children this value has.
    pub fn arity(&self) -> (r: usize)
        ensures
            r == self@.arity(),
    {
        match self {
            Value::List(items) => items.len(),
            Value::Tuple(items) => items.len(),
            Value::Dict(entries) => entries.len(),
            _ => 0,
        }
    }

    /// The `i`-th direct child.
    pub fn child(&self, i: usize) -> (r: &Value)
        requires
            i < self@.arity(),
        ensures
            r@ == self@.child(i as int),
    {
        match self {
            Value::List(items) => &items[i],
            Value::Tuple(items) => &items[i],
            Value::Dict(entries) => &entries[i].1,
            _ => self,
        }
    }

    /// This value with its `i`-th direct child replaced by `c`, and the child
    /// that stood there. Where there is no such child, `c` comes back.
    pub fn swap_child(self, i: usize, c: Value) -> (r: (Value, Value))
        ensures
            r.0@ == self@.with_child(i as int, c@),
            i < self@.arity() ==> r.1@ == self@.child(i as int),
            i >= self@.arity() ==> r.1@ == c@,
    {
        if i >= self.arity() {
            return (self, c);
        }
        let ghost before = self@;
        let ghost n = c@;
        let mut c = c;
        match self {
            Value::List(mut items) => {
                items.set_and_swap(i, &mut c);
                let r = Value::List(items);
                assert(r@->List_0 =~= before->List_0.update(i as int, n));
                (r, c)
            },
            Value::Tuple(mut items) => {
                items.set_and_swap(i, &mut c);
                let r = Value::Tuple(items);
                assert(r@->Tuple_0 =~= before->Tuple_0.update(i as int, n));
                (r, c)
            },
            Value::Dict(mut entries) => {
                // Take the entry out, which moves the last entry into its place;
                // put the new entry last, and swap the two back.
                let (key, old_child) = entries.swap_remove(i);
                let ghost k = key@;
                entries.push((key, c));
                let moved = entries.swap_remove(i);
                entries.push(moved);
                let r = Value::Dict(entries);
                assert(r@->Dict_0 =~= before->Dict_0.update(i as int, (k, n)));
                (r, old_child)
            },
            other => (other, c),
        }
    }

    /// This value with its `i`-th direct child replaced by `c`.
    pub fn with_child(self, i: usize, c: Value) -> (r: Value)
        ensures
            r@ == self@.with_child(i as int, c@),
    {
        self.swap_child(i, c).0
    }

    /// The value stored under `key`, if this is a record that holds it.
    pub fn get(&self, key: &str) -> (r: Option<&Value>)
        ensures
            match r {
                Some(v) => self@.get(key@) == Some(v@),
                None => self@.get(key@) is None,
            },
    {
        match self {
            Value::Dict(entries) => {
                match find_key(entries, key) {
                    Some(i) => Some(&entries[i].1),
                    None => None,
                }
            },
            _ => {
                proof {
                    lemma_position_none(self@.entries(), key@);
                }
                None
            },
        }
    }

    /// A copy of this value.
    pub fn deep_clone(&self) -> (r: Value)
        ensures
            r@ == self@,
        decreases self,
    {
        match self {
            Value::Str(s) => Value::Str(s.clone()),
            Value::Opaque(h) => Value::Opaque(*h),
            Value::List(items) => Value::List(clone_items(items)),
            Value::Tuple(items) => Value::Tuple(clone_items(items)),
            Value::Dict(entries) => Value::Dict(clone_entries(entries)),
        }
    }
}

/// A copy of a sequence of values.
pub fn clone_items(items: &Vec<Value>) -> (r: Vec<Value>)
    ensures
        items_model(r@) == items_model(items@),
    decreases items,
{
    let mut out: Vec<Value> = Vec::new();
    let mut i: usize = 0;
    while i < items.len()
        invariant
            i <= items.len(),
            out.len() == i,
            forall|j: int| 0 <= j < i ==> out[j]@ == items[j]@,
        decreases items.len() - i,
    {
        assert(decreases_to!(items => items[i as int]));
        out.push(items[i].deep_clone());
        i += 1;
    }
    assert(items_model(out@) =~= items_model(items@));
    out
}

/// A copy of the entries of a record.
pub fn clone_entries(entries: &Vec<(String, Value)>) -> (r: Vec<(String, Value)>)
    ensures
        entries_model(r@) == entries_model(entries@),
    decreases entries,
{
    let mut out: Vec<(String, Value)> = Vec::new();
    let mut i: usize = 0;
    while i < entries.len()
        invariant
            i <= entries.len(),
            out.len() == i,
            forall|j: int| 0 <= j < i ==> out[j].0@ == entries[j].0@ && out[j].1@ == entries[j].1@,
        decreases entries.len() - i,
    {
        assert(decreases_to!(entries => entries[i as int]));
        assert(decreases_to!(entries[i as int] => entries[i as int].1));
        out.push((entries[i].0.clone(), entries[i].1.deep_clone()));
        i += 1;
    }
    assert(entries_model(out@) =~= entries_model(entries@));
    out
}

/// The first place in `entries` where `key` stands.
pub fn find_key(entries: &Vec<(String, Value)>, key: &str) -> (r: Option<usize>)
    ensures
        match r {
            Some(i) => position(entries_model(entries@), key@) == Some(i as int),
            None => position(entries_model(entries@), key@) is None,
        },
{
    let ghost model = entries_model(entries@);
    let mut i: usize = 0;
    while i < entries.len()
        invariant
            i <= entries.len(),
            model == entries_model(entries@),
            forall|j: int| 0 <= j < i ==> (#[trigger] model[j]).0 != key@,
        decreases entries.len() - i,
    {
        if str_eq(entries[i].0.as_str(), key) {
            proof {
                assert(model[i as int].0 == key@);
                lemma_position_first(model, key@, i as int);
            }
            return Some(i);
        }
        assert(model[i as int].0 != key@);
        i += 1;
    }
    proof {
        lemma_position_none(model, key@);
    }
    None
}

/// Stores `value` under `key`: an existing key keeps its place, a new one goes
/// to the end.
pub fn set_entry(entries: &mut Vec<(String, Value)>, key: &str, value: Value)
    ensures
        entries_model(final(entries)@) == store(entries_model(old(entries)@), key@, value@),
{
    let ghost before = entries_model(entries@);
    match find_key(entries, key) {
        Some(i) => {
            entries.set(i, (key.to_owned(), value));
            assert(entries_model(entries@) =~= before.update(i as int, (key@, value@)));
        },
        None => {
            entries.push((key.to_owned(), value));
            assert(entries_model(entries@) =~= before.push((key@, value@)));
        },
    }
}

/// Takes `key` out of `entries` and returns what stood under it.
pub fn remove_entry(entries: &mut Vec<(String, Value)>, key: &str) -> (r: Option<Value>)
    ensures
        entries_model(final(entries)@) == discard(entries_model(old(entries)@), key@),
        match r {
            Some(v) => lookup(entries_model(old(entries)@), key@) == Some(v@),
            None => lookup(entries_model(old(entries)@), key@) is None,
        },
{
    let ghost before = entries_model(entries@);
    match find_key(entries, key) {
        Some(i) => {
            let (_, value) = entries.remove(i);
            assert(entries_model(entries@) =~= before.remove(i as int));
            Some(value)
        },
        None => None,
    }
}

} // verus!
