//! The tree-shaped value that documents, contexts and query replies are made of.

use crate::keyed::{
    key_index, keys_sorted, lemma_insert_keeps_sorted, lemma_key_index, lemma_key_index_is,
    lemma_rank_index, rank_index,
};
use vstd::prelude::*;

verus! {

/// What a [`Value`] holds, as mathematics: the model that contracts speak of.
#[verifier::ext_equal]
pub enum Node {
    Null,
    Bool(bool),
    Integer(int),
    String(Seq<char>),
    Sequence(Seq<Node>),
    Object(Seq<(Seq<char>, Node)>),
}

/// The keys of an object's entries, in their order.
pub open spec fn node_keys(entries: Seq<(Seq<char>, Node)>) -> Seq<Seq<char>> {
    Seq::new(entries.len(), |i: int| entries[i].0)
}

/// The value that the entries hold under `key`: that of the first entry with
/// this key.
pub open spec fn lookup(entries: Seq<(Seq<char>, Node)>, key: Seq<char>) -> Option<Node> {
    let i = key_index(node_keys(entries), key, 0);
    if i < entries.len() {
        Some(entries[i].1)
    } else {
        None
    }
}

/// The entries with `value` under `key`: in the place of the first entry with
/// this key, or, where there is none, before the first key that comes after it.
pub open spec fn put(entries: Seq<(Seq<char>, Node)>, key: Seq<char>, value: Node) -> Seq<
    (Seq<char>, Node),
> {
    let i = key_index(node_keys(entries), key, 0);
    if i < entries.len() {
        entries.update(i, (key, value))
    } else {
        entries.insert(rank_index(node_keys(entries), key, 0), (key, value))
    }
}

/// The value put under a key is the one found there.
pub proof fn lemma_lookup_put_same(entries: Seq<(Seq<char>, Node)>, key: Seq<char>, value: Node)
    ensures
        lookup(put(entries, key, value), key) == Some(value),
{
    let keys = node_keys(entries);
    let i = key_index(keys, key, 0);
    lemma_key_index(keys, key, 0);
    lemma_rank_index(keys, key, 0);
    let out = put(entries, key, value);
    if i < entries.len() {
        assert(node_keys(out) =~= keys);
    } else {
        let r = rank_index(keys, key, 0);
        assert forall|j: int| 0 <= j < r implies #[trigger] node_keys(out)[j] != key by {
            assert(node_keys(out)[j] == keys[j]);
        }
        lemma_key_index_is(node_keys(out), key, 0, r);
    }
}

/// Putting a value under one key leaves what stands under every other key.
pub proof fn lemma_lookup_put_other(
    entries: Seq<(Seq<char>, Node)>,
    key: Seq<char>,
    value: Node,
    other: Seq<char>,
)
    requires
        other != key,
    ensures
        lookup(put(entries, key, value), other) == lookup(entries, other),
{
    let keys = node_keys(entries);
    let i = key_index(keys, key, 0);
    lemma_key_index(keys, key, 0);
    lemma_key_index(keys, other, 0);
    lemma_rank_index(keys, key, 0);
    let out = put(entries, key, value);
    let o = key_index(keys, other, 0);
    if i < entries.len() {
        assert(node_keys(out) =~= keys);
    } else {
        let r = rank_index(keys, key, 0);
        let at = if o < r {
            o
        } else {
            o + 1
        };
        assert forall|j: int| 0 <= j < at implies #[trigger] node_keys(out)[j] != other by {
            if j < r {
                assert(node_keys(out)[j] == keys[j]);
            } else if j > r {
                assert(node_keys(out)[j] == keys[j - 1]);
            }
        }
        if at < out.len() {
            assert(node_keys(out)[at] == keys[o]);
        }
        lemma_key_index_is(node_keys(out), other, 0, at);
    }
}

/// Putting a value keeps sorted keys sorted.
pub proof fn lemma_put_keeps_sorted(entries: Seq<(Seq<char>, Node)>, key: Seq<char>, value: Node)
    requires
        keys_sorted(node_keys(entries)),
    ensures
        keys_sorted(node_keys(put(entries, key, value))),
{
    let keys = node_keys(entries);
    let i = key_index(keys, key, 0);
    lemma_key_index(keys, key, 0);
    lemma_rank_index(keys, key, 0);
    let out = put(entries, key, value);
    if i < entries.len() {
        assert(node_keys(out) =~= keys);
    } else {
        lemma_insert_keeps_sorted(keys, key);
        assert(node_keys(out) =~= keys.insert(rank_index(keys, key, 0), key));
    }
}

impl Node {
    /// Whether every object in the tree holds its keys in strictly rising
    /// order: the form in which equal documents are equal entry by entry.
    pub open spec fn canonical(self) -> bool
        decreases self,
    {
        match self {
            Node::Sequence(items) => forall|i: int|
                0 <= i < items.len() ==> (#[trigger] items[i]).canonical(),
            Node::Object(entries) => keys_sorted(node_keys(entries)) && forall|i: int|
                0 <= i < entries.len() ==> (#[trigger] entries[i]).1.canonical(),
            _ => true,
        }
    }
}

/// A generic nested value: nothing, a truth value, an integer, a text, a
/// sequence of values, or an object of values under text keys.
#[derive(Debug, PartialEq, Eq)]
pub enum Value {
    Null,
    Bool(bool),
    Integer(i128),
    String(String),
    Sequence(Vec<Value>),
    Object(Vec<(String, Value)>),
}

/// The models of a list of values, one for one.
pub open spec fn nodes_of(items: Seq<Value>) -> Seq<Node> {
    Seq::new(items.len(), |i: int| items[i]@)
}

/// The models of a list of entries, one for one.
pub open spec fn entries_of(entries: Seq<(String, Value)>) -> Seq<(Seq<char>, Node)> {
    Seq::new(entries.len(), |i: int| (entries[i].0@, entries[i].1@))
}

/// What a value holds.
pub open spec fn node_of(v: Value) -> Node
    decreases v,
{
    match v {
        Value::Null => Node::Null,
        Value::Bool(b) => Node::Bool(b),
        Value::Integer(i) => Node::Integer(i as int),
        Value::String(s) => Node::String(s@),
        Value::Sequence(items) => Node::Sequence(
            Seq::new(
                items@.len(),
                |i: int|
                    if 0 <= i < items@.len() {
                        node_of(items@[i])
                    } else {
                        Node::Null
                    },
            ),
        ),
        Value::Object(entries) => Node::Object(
            Seq::new(
                entries@.len(),
                |i: int|
                    if 0 <= i < entries@.len() {
                        (entries@[i].0@, node_of(entries@[i].1))
                    } else {
                        (Seq::empty(), Node::Null)
                    },
            ),
        ),
    }
}

impl View for Value {
    type V = Node;

    open spec fn view(&self) -> Node {
        node_of(*self)
    }
}

/// The model of a sequence is the models of its items.
pub proof fn lemma_view_sequence(items: Vec<Value>)
    ensures
        Value::Sequence(items)@ == Node::Sequence(nodes_of(items@)),
{
    assert(Value::Sequence(items)@->Sequence_0 =~= nodes_of(items@));
}

/// The model of an object is the models of its entries.
pub proof fn lemma_view_object(entries: Vec<(String, Value)>)
    ensures
        Value::Object(entries)@ == Node::Object(entries_of(entries@)),
{
    let v = Value::Object(entries);
    let a = v@->Object_0;
    assert(a.len() == entries@.len());
    assert(a =~= entries_of(entries@));
}

impl Clone for Value {
    /// A copy that holds what this value holds.
    fn clone(&self) -> (r: Self)
        ensures
            r@ == self@,
        decreases self, 1nat,
    {
        match self {
            Value::Null => Value::Null,
            Value::Bool(b) => Value::Bool(*b),
            Value::Integer(i) => Value::Integer(*i),
            Value::String(s) => Value::String(s.clone()),
            Value::Sequence(items) => {
                let out: Vec<Value> = copy_items(items);
                proof {
                    lemma_view_sequence(out);
                    lemma_view_sequence(*items);
                }
                Value::Sequence(out)
            },
            Value::Object(entries) => {
                let out: Vec<(String, Value)> = copy_entries(entries);
                proof {
                    lemma_view_object(out);
                    lemma_view_object(*entries);
                }
                Value::Object(out)
            },
        }
    }
}

/// Copies a list of values, item by item.
fn copy_items(items: &Vec<Value>) -> (out: Vec<Value>)
    ensures
        nodes_of(out@) == nodes_of(items@),
    decreases items, 0nat,
{
    let mut out: Vec<Value> = Vec::new();
    let mut i: usize = 0;
    while i < items.len()
        invariant
            i <= items.len(),
            out.len() == i,
            forall|j: int| 0 <= j < i ==> (#[trigger] out@[j])@ == items@[j]@,
        decreases items.len() - i,
    {
        let item: Value = items[i].clone();
        out.push(item);
        i = i + 1;
    }
    assert(nodes_of(out@) =~= nodes_of(items@));
    out
}

/// Copies a list of entries, entry by entry.
fn copy_entries(entries: &Vec<(String, Value)>) -> (out: Vec<(String, Value)>)
    ensures
        entries_of(out@) == entries_of(entries@),
    decreases entries, 0nat,
{
    let mut out: Vec<(String, Value)> = Vec::new();
    let mut i: usize = 0;
    while i < entries.len()
        invariant
            i <= entries.len(),
            out.len() == i,
            forall|j: int|
                0 <= j < i ==> (#[trigger] out@[j]).0@ == entries@[j].0@ && out@[j].1@
                    == entries@[j].1@,
        decreases entries.len() - i,
    {
        let key: String = entries[i].0.clone();
        let item: Value = entries[i].1.clone();
        out.push((key, item));
        i = i + 1;
    }
    assert(entries_of(out@) =~= entries_of(entries@));
    out
}

} // verus!
