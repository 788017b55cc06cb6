//! A document with dotted-path access: reading the value at a path, and
//! writing one there.

use crate::decimal::{index_of_text, parse_index};
use crate::error::PathError;
use crate::keyed::{
    find_key, find_rank, key_index, keys_of, lemma_key_index, lemma_rank_index, rank_index,
};
use crate::render::json_text;
use crate::strings::{path_segments, split_path, texts};
use crate::value::{
    entries_of, lemma_lookup_put_other, lemma_lookup_put_same, lemma_put_keeps_sorted,
    lemma_view_object, lemma_view_sequence, lookup, node_keys, nodes_of, put, Node, Value,
};
use vstd::prelude::*;

verus! {

/// The value that stands at `path` below `node`. A segment applied to an
/// object is a key; applied to a sequence it is an index. The empty path
/// stands for the node itself, and nothing stands below any other value.
pub open spec fn get_at(node: Node, path: Seq<Seq<char>>) -> Option<Node>
    decreases path.len(),
{
    if path.len() == 0 {
        Some(node)
    } else {
        match node {
            Node::Object(entries) => match lookup(entries, path[0]) {
                Some(child) => get_at(child, path.drop_first()),
                None => None,
            },
            Node::Sequence(items) => match index_of_text(path[0]) {
                Some(i) => if i < items.len() {
                    get_at(items[i as int], path.drop_first())
                } else {
                    None
                },
                None => None,
            },
            _ => None,
        }
    }
}

/// The node that `node` becomes when `value` is written at `path`. The last
/// segment assigns: into an object under its key, new or not; into a
/// sequence at an index that it has. Each segment before it steps into the
/// child it names, an object's missing child being made as an empty object.
pub open spec fn set_at(node: Node, path: Seq<Seq<char>>, value: Node) -> Result<Node, PathError>
    decreases path.len(),
{
    if path.len() == 0 {
        Ok(node)
    } else {
        match node {
            Node::Object(entries) => if path.len() == 1 {
                Ok(Node::Object(put(entries, path[0], value)))
            } else {
                let child = match lookup(entries, path[0]) {
                    Some(child) => child,
                    None => Node::Object(Seq::empty()),
                };
                match set_at(child, path.drop_first(), value) {
                    Ok(changed) => Ok(Node::Object(put(entries, path[0], changed))),
                    Err(e) => Err(e),
                }
            },
            Node::Sequence(items) => match index_of_text(path[0]) {
                Some(i) => if i >= items.len() {
                    Err(PathError::IndexOutOfBounds)
                } else if path.len() == 1 {
                    Ok(Node::Sequence(items.update(i as int, value)))
                } else {
                    match set_at(items[i as int], path.drop_first(), value) {
                        Ok(changed) => Ok(Node::Sequence(items.update(i as int, changed))),
                        Err(e) => Err(e),
                    }
                },
                None => Err(PathError::InvalidIndex),
            },
            _ => Err(PathError::InvalidStructure),
        }
    }
}

/// What was written at a path is read there.
pub proof fn lemma_get_after_set(node: Node, path: Seq<Seq<char>>, value: Node)
    requires
        path.len() > 0,
        set_at(node, path, value) is Ok,
    ensures
        get_at(set_at(node, path, value)->Ok_0, path) == Some(value),
    decreases path.len(),
{
    let rest = path.drop_first();
    match node {
        Node::Object(entries) => {
            if path.len() == 1 {
                lemma_lookup_put_same(entries, path[0], value);
                assert(get_at(value, rest) == Some(value));
            } else {
                let child = match lookup(entries, path[0]) {
                    Some(child) => child,
                    None => Node::Object(Seq::empty()),
                };
                lemma_get_after_set(child, rest, value);
                lemma_lookup_put_same(entries, path[0], set_at(child, rest, value)->Ok_0);
            }
        },
        Node::Sequence(items) => {
            if path.len() > 1 {
                lemma_get_after_set(items[index_of_text(path[0])->Some_0 as int], rest, value);
            } else {
                assert(get_at(value, rest) == Some(value));
            }
        },
        _ => {},
    }
}

/// Whether two segments name different children wherever both are applied:
/// they differ as keys, and do not write the same index.
pub open spec fn names_another(a: Seq<char>, b: Seq<char>) -> bool {
    a != b && !(index_of_text(a) is Some && index_of_text(a) == index_of_text(b))
}

/// Writing at one path leaves what stands at every path that parts from it:
/// one that agrees with it on the first `k` segments and names another child
/// at the next.
pub proof fn lemma_set_leaves_others(
    node: Node,
    path: Seq<Seq<char>>,
    value: Node,
    other: Seq<Seq<char>>,
    k: int,
)
    requires
        set_at(node, path, value) is Ok,
        0 <= k < path.len(),
        k < other.len(),
        path.take(k) == other.take(k),
        names_another(path[k], other[k]),
    ensures
        get_at(set_at(node, path, value)->Ok_0, other) == get_at(node, other),
    decreases path.len(),
{
    let rest = path.drop_first();
    let other_rest = other.drop_first();
    if k > 0 {
        assert(path[0] == path.take(k)[0]);
        assert(other[0] == other.take(k)[0]);
        assert(rest.take(k - 1) =~= path.take(k).drop_first());
        assert(other_rest.take(k - 1) =~= other.take(k).drop_first());
    }
    match node {
        Node::Object(entries) => {
            if k == 0 {
                if path.len() == 1 {
                    lemma_lookup_put_other(entries, path[0], value, other[0]);
                } else {
                    let child = match lookup(entries, path[0]) {
                        Some(child) => child,
                        None => Node::Object(Seq::empty()),
                    };
                    lemma_lookup_put_other(
                        entries,
                        path[0],
                        set_at(child, rest, value)->Ok_0,
                        other[0],
                    );
                }
            } else {
                let child = match lookup(entries, path[0]) {
                    Some(child) => child,
                    None => Node::Object(Seq::empty()),
                };
                lemma_set_leaves_others(child, rest, value, other_rest, k - 1);
                lemma_lookup_put_same(entries, path[0], set_at(child, rest, value)->Ok_0);
            }
        },
        Node::Sequence(items) => {
            if k > 0 {
                lemma_set_leaves_others(
                    items[index_of_text(path[0])->Some_0 as int],
                    rest,
                    value,
                    other_rest,
                    k - 1,
                );
            }
        },
        _ => {},
    }
}

/// Writing a canonical value into a canonical document leaves it canonical.
pub proof fn lemma_set_keeps_canonical(node: Node, path: Seq<Seq<char>>, value: Node)
    requires
        node.canonical(),
        value.canonical(),
        set_at(node, path, value) is Ok,
    ensures
        set_at(node, path, value)->Ok_0.canonical(),
    decreases path.len(),
{
    if path.len() > 0 {
        let rest = path.drop_first();
        match node {
            Node::Object(entries) => {
                let child = match lookup(entries, path[0]) {
                    Some(child) => child,
                    None => Node::Object(Seq::empty()),
                };
                lemma_key_index(node_keys(entries), path[0], 0);
                lemma_rank_index(node_keys(entries), path[0], 0);
                let changed = if path.len() == 1 {
                    value
                } else {
                    lemma_set_keeps_canonical(child, rest, value);
                    set_at(child, rest, value)->Ok_0
                };
                lemma_put_keeps_sorted(entries, path[0], changed);
                let out = put(entries, path[0], changed);
                assert forall|i: int| 0 <= i < out.len() implies (#[trigger] out[i]).1.canonical(
                ) by {
                    let at = key_index(node_keys(entries), path[0], 0);
                    if at < entries.len() {
                        if i != at {
                            assert(out[i] == entries[i]);
                        }
                    } else {
                        let r = rank_index(node_keys(entries), path[0], 0);
                        if i < r {
                            assert(out[i] == entries[i]);
                        } else if i > r {
                            assert(out[i] == entries[i - 1]);
                        }
                    }
                }
            },
            Node::Sequence(items) => {
                let at = index_of_text(path[0])->Some_0 as int;
                let changed = if path.len() == 1 {
                    value
                } else {
                    lemma_set_keeps_canonical(items[at], rest, value);
                    set_at(items[at], rest, value)->Ok_0
                };
                let out = items.update(at, changed);
                assert forall|i: int| 0 <= i < out.len() implies (#[trigger] out[i]).canonical(
                ) by {
                    if i != at {
                        assert(out[i] == items[i]);
                    }
                }
            },
            _ => {},
        }
    }
}

/// Writes `value` below `node` at the segments from `at` on.
fn set_in(node: Value, segments: &Vec<String>, at: usize, value: Value) -> (r: Result<
    Value,
    PathError,
>)
    requires
        at <= segments.len(),
    ensures
        match set_at(node@, texts(segments@).skip(at as int), value@) {
            Ok(n) => r is Ok && r->Ok_0@ == n,
            Err(e) => r is Err && r->Err_0 == e,
        },
    decreases segments.len() - at,
{
    if at >= segments.len() {
        return Ok(node);
    }
    let ghost path = texts(segments@).skip(at as int);
    assert(path.len() > 0 && path[0] == segments[at as int]@);
    assert(path.drop_first() =~= texts(segments@).skip(at + 1));
    let last: bool = at + 1 == segments.len();
    match node {
        Value::Object(entries) => {
            let mut entries: Vec<(String, Value)> = entries;
            let ghost before = entries_of(entries@);
            proof {
                lemma_view_object(entries);
                assert(node_keys(before) =~= keys_of(entries@));
                lemma_key_index(keys_of(entries@), path[0], 0);
                lemma_rank_index(keys_of(entries@), path[0], 0);
            }
            match find_key(&entries, &segments[at]) {
                Some(j) => {
                    let (key, child) = entries.remove(j);
                    let changed: Value = if last {
                        value
                    } else {
                        match set_in(child, segments, at + 1, value) {
                            Ok(changed) => changed,
                            Err(e) => {
                                return Err(e);
                            },
                        }
                    };
                    entries.insert(j, (key, changed));
                    proof {
                        lemma_view_object(entries);
                        assert(entries_of(entries@) =~= before.update(
                            j as int,
                            (path[0], changed@),
                        ));
                    }
                },
                None => {
                    let place: usize = find_rank(&entries, &segments[at]);
                    let changed: Value = if last {
                        value
                    } else {
                        let none: Vec<(String, Value)> = Vec::new();
                        proof {
                            lemma_view_object(none);
                            assert(entries_of(none@) =~= Seq::empty());
                        }
                        let fresh: Value = Value::Object(none);
                        match set_in(fresh, segments, at + 1, value) {
                            Ok(changed) => changed,
                            Err(e) => {
                                return Err(e);
                            },
                        }
                    };
                    entries.insert(place, (segments[at].clone(), changed));
                    proof {
                        lemma_view_object(entries);
                        assert(entries_of(entries@) =~= before.insert(
                            place as int,
                            (path[0], changed@),
                        ));
                    }
                },
            }
            Ok(Value::Object(entries))
        },
        Value::Sequence(items) => {
            let mut items: Vec<Value> = items;
            let ghost before = nodes_of(items@);
            proof {
                lemma_view_sequence(items);
            }
            match parse_index(segments[at].as_str()) {
                Some(j) => {
                    if j >= items.len() {
                        return Err(PathError::IndexOutOfBounds);
                    }
                    let child: Value = items.remove(j);
                    let changed: Value = if last {
                        value
                    } else {
                        match set_in(child, segments, at + 1, value) {
                            Ok(changed) => changed,
                            Err(e) => {
                                return Err(e);
                            },
                        }
                    };
                    items.insert(j, changed);
                    proof {
                        lemma_view_sequence(items);
                        assert(nodes_of(items@) =~= before.update(j as int, changed@));
                    }
                    Ok(Value::Sequence(items))
                },
                None => Err(PathError::InvalidIndex),
            }
        },
        _ => Err(PathError::InvalidStructure),
    }
}

/// The value at a dotted path below `root`, if one stands there.
pub fn value_at<'a>(root: &'a Value, key: &str) -> (r: Option<&'a Value>)
    ensures
        match r {
            Some(v) => get_at(root@, path_segments(key@)) == Some(v@),
            None => get_at(root@, path_segments(key@)) is None,
        },
{
    let segments: Vec<String> = split_path(key);
    let ghost path = texts(segments@);
    let mut cur: &'a Value = root;
    let mut i: usize = 0;
    assert(path.skip(0) =~= path);
    while i < segments.len()
        invariant
            i <= segments.len(),
            path == texts(segments@),
            path == path_segments(key@),
            get_at(root@, path) == get_at(cur@, path.skip(i as int)),
        decreases segments.len() - i,
    {
        let ghost rest = path.skip(i as int);
        assert(rest.len() > 0 && rest[0] == segments[i as int]@);
        assert(rest.drop_first() =~= path.skip(i + 1));
        match cur {
            Value::Object(entries) => {
                proof {
                    lemma_view_object(*entries);
                    assert(node_keys(entries_of(entries@)) =~= keys_of(entries@));
                }
                match find_key(entries, &segments[i]) {
                    Some(j) => {
                        cur = &entries[j].1;
                    },
                    None => {
                        return None;
                    },
                }
            },
            Value::Sequence(items) => {
                proof {
                    lemma_view_sequence(*items);
                }
                match parse_index(segments[i].as_str()) {
                    Some(j) => {
                        if j < items.len() {
                            cur = &items[j];
                        } else {
                            return None;
                        }
                    },
                    None => {
                        return None;
                    },
                }
            },
            _ => {
                return None;
            },
        }
        i = i + 1;
    }
    assert(path.skip(i as int).len() == 0);
    Some(cur)
}
/// A structured document.
#[derive(Debug)]
pub struct JSON(Value);

impl View for JSON {
    type V = Node;

    closed spec fn view(&self) -> Node {
        self.0@
    }
}

impl Clone for JSON {
    fn clone(&self) -> (r: Self)
        ensures
            r@ == self@,
    {
        JSON(self.0.clone())
    }
}

impl JSON {
    /// The document that holds `value`.
    pub fn from(value: Value) -> (r: JSON)
        ensures
            r@ == value@,
    {
        JSON(value)
    }

    /// The value that the document holds.
    pub fn value(&self) -> (r: &Value)
        ensures
            r@ == self@,
    {
        &self.0
    }

    /// Writes `value` at a dotted path. Where the path cannot be written
    /// through, the document stays as it was.
    pub fn update(&mut self, key: &str, value: Value) -> (r: Result<(), PathError>)
        ensures
            match set_at(old(self)@, path_segments(key@), value@) {
                Ok(n) => r is Ok && final(self)@ == n,
                Err(e) => r == Err::<(), PathError>(e) && final(self)@ == old(self)@,
            },
    {
        let segments: Vec<String> = split_path(key);
        assert(texts(segments@).skip(0) =~= texts(segments@));
        match set_in(self.0.clone(), &segments, 0, value) {
            Ok(changed) => {
                self.0 = changed;
                Ok(())
            },
            Err(e) => Err(e),
        }
    }

    /// The value at a dotted path, if one stands there.
    pub fn get<'a>(&'a self, key: &str) -> (r: Option<&'a Value>)
        ensures
            match r {
                Some(v) => get_at(self@, path_segments(key@)) == Some(v@),
                None => get_at(self@, path_segments(key@)) is None,
            },
    {
        value_at(&self.0, key)
    }

    /// The compact JSON text of the document.
    pub fn to_json_string(&self) -> (r: String)
        ensures
            r@ == json_text(self@),
    {
        self.0.to_json_string()
    }
}

} // verus!
