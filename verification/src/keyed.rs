//! Lists of entries under keys: how a key is found, and where a new key goes.
//!
//! A key stands for the first entry that holds it. In a list that is kept in
//! the order on texts a new key goes before the first key that comes after
//! it, so that the list stays in order.

use crate::strings::{lemma_text_order_total, lemma_text_order_transitive, text_less, text_lt};
use vstd::prelude::*;

verus! {

/// The keys of an entry list, by their views.
pub open spec fn keys_of<V>(entries: Seq<(String, V)>) -> Seq<Seq<char>> {
    Seq::new(entries.len(), |i: int| entries[i].0@)
}

/// The first position at or after `from` that holds `key`, or the list's length
/// if none does.
pub open spec fn key_index<K>(keys: Seq<K>, key: K, from: int) -> int
    decreases keys.len() - from,
{
    if from >= keys.len() {
        keys.len() as int
    } else if keys[from] == key {
        from
    } else {
        key_index(keys, key, from + 1)
    }
}

/// The first position at or after `from` whose key comes after `key`, or the
/// list's length if none does.
pub open spec fn rank_index(keys: Seq<Seq<char>>, key: Seq<char>, from: int) -> int
    decreases keys.len() - from,
{
    if from >= keys.len() {
        keys.len() as int
    } else if text_lt(key, keys[from]) {
        from
    } else {
        rank_index(keys, key, from + 1)
    }
}

/// Whether the keys stand in strictly rising order, so that none occurs twice.
pub open spec fn keys_sorted(keys: Seq<Seq<char>>) -> bool {
    forall|i: int, j: int|
        0 <= i < j < keys.len() ==> text_lt(#[trigger] keys[i], #[trigger] keys[j])
}

/// What `key_index` finds: nothing before it holds the key, and it does
/// unless it is the length.
pub proof fn lemma_key_index<K>(keys: Seq<K>, key: K, from: int)
    requires
        0 <= from <= keys.len(),
    ensures
        from <= key_index(keys, key, from) <= keys.len(),
        key_index(keys, key, from) < keys.len() ==> keys[key_index(keys, key, from)] == key,
        forall|j: int| from <= j < key_index(keys, key, from) ==> #[trigger] keys[j] != key,
    decreases keys.len() - from,
{
    if from < keys.len() && keys[from] != key {
        lemma_key_index(keys, key, from + 1);
    }
}

/// What `rank_index` finds: no key before it comes after `key`, and the key at
/// it does unless it is the length.
pub proof fn lemma_rank_index(keys: Seq<Seq<char>>, key: Seq<char>, from: int)
    requires
        0 <= from <= keys.len(),
    ensures
        from <= rank_index(keys, key, from) <= keys.len(),
        rank_index(keys, key, from) < keys.len() ==> text_lt(
            key,
            keys[rank_index(keys, key, from)],
        ),
        forall|j: int|
            from <= j < rank_index(keys, key, from) ==> !text_lt(key, #[trigger] keys[j]),
    decreases keys.len() - from,
{
    if from < keys.len() && !text_lt(key, keys[from]) {
        lemma_rank_index(keys, key, from + 1);
    }
}

/// The first position that holds the key is where `key_index` stops.
pub proof fn lemma_key_index_is<K>(keys: Seq<K>, key: K, from: int, at: int)
    requires
        0 <= from <= at <= keys.len(),
        forall|j: int| from <= j < at ==> #[trigger] keys[j] != key,
        at < keys.len() ==> keys[at] == key,
    ensures
        key_index(keys, key, from) == at,
    decreases at - from,
{
    if from < at {
        assert(keys[from] != key);
        lemma_key_index_is(keys, key, from + 1, at);
    }
}

/// Where each key is found once one more key stands at the end: where it was
/// found before, or at the new end if it is the new key and was not found.
pub proof fn lemma_key_index_push<K>(keys: Seq<K>, key: K)
    ensures
        forall|k: K| #[trigger]
            key_index(keys.push(key), k, 0) == if key_index(keys, k, 0) < keys.len() {
                key_index(keys, k, 0)
            } else if k == key {
                keys.len() as int
            } else {
                keys.len() as int + 1
            },
{
    let after = keys.push(key);
    let n = keys.len() as int;
    assert forall|k: K| #[trigger]
        key_index(after, k, 0) == if key_index(keys, k, 0) < n {
            key_index(keys, k, 0)
        } else if k == key {
            n
        } else {
            n + 1
        } by {
        lemma_key_index(keys, k, 0);
        let at = key_index(keys, k, 0);
        if at < n {
            assert(after[at] == keys[at]);
            assert forall|j: int| 0 <= j < at implies #[trigger] after[j] != k by {
                assert(after[j] == keys[j]);
            }
            lemma_key_index_is(after, k, 0, at);
        } else {
            assert forall|j: int| 0 <= j < n implies #[trigger] after[j] != k by {
                assert(after[j] == keys[j]);
            }
            if k == key {
                lemma_key_index_is(after, k, 0, n);
            } else {
                lemma_key_index_is(after, k, 0, n + 1);
            }
        }
    }
}

/// Inserting a new key at its rank keeps a sorted list sorted.
pub proof fn lemma_insert_keeps_sorted(keys: Seq<Seq<char>>, key: Seq<char>)
    requires
        keys_sorted(keys),
        key_index(keys, key, 0) == keys.len(),
    ensures
        keys_sorted(keys.insert(rank_index(keys, key, 0), key)),
{
    let r = rank_index(keys, key, 0);
    lemma_key_index(keys, key, 0);
    lemma_rank_index(keys, key, 0);
    let out = keys.insert(r, key);
    assert forall|i: int, j: int| 0 <= i < j < out.len() implies text_lt(
        #[trigger] out[i],
        #[trigger] out[j],
    ) by {
        if j < r {
            assert(out[i] == keys[i] && out[j] == keys[j]);
        } else if i > r {
            assert(out[i] == keys[i - 1] && out[j] == keys[j - 1]);
        } else if i == r {
            assert(out[j] == keys[j - 1]);
            if j - 1 > r {
                assert(text_lt(keys[r], keys[j - 1]));
                lemma_text_order_transitive(key, keys[r], keys[j - 1]);
            }
        } else if j == r {
            assert(out[i] == keys[i]);
            lemma_text_order_total(keys[i], key);
        } else {
            assert(out[i] == keys[i] && out[j] == keys[j - 1]);
        }
    }
}

/// Finds the entry that holds `key`.
pub fn find_key<V>(entries: &Vec<(String, V)>, key: &String) -> (r: Option<usize>)
    ensures
        match r {
            Some(i) => i < entries.len() && i == key_index(keys_of(entries@), key@, 0),
            None => key_index(keys_of(entries@), key@, 0) == entries.len(),
        },
{
    let mut i: usize = 0;
    while i < entries.len()
        invariant
            i <= entries.len(),
            key_index(keys_of(entries@), key@, 0) == key_index(keys_of(entries@), key@, i as int),
        decreases entries.len() - i,
    {
        if entries[i].0 == *key {
            return Some(i);
        }
        i = i + 1;
    }
    None
}

/// Finds the place at which a new entry under `key` goes.
pub fn find_rank<V>(entries: &Vec<(String, V)>, key: &String) -> (r: usize)
    ensures
        r <= entries.len(),
        r == rank_index(keys_of(entries@), key@, 0),
{
    let mut i: usize = 0;
    while i < entries.len()
        invariant
            i <= entries.len(),
            rank_index(keys_of(entries@), key@, 0) == rank_index(keys_of(entries@), key@, i as int),
        decreases entries.len() - i,
    {
        if text_less(key.as_str(), entries[i].0.as_str()) {
            return i;
        }
        i = i + 1;
    }
    i
}

/// The map that an entry list stands for: under each key the value of the
/// first entry that holds it.
pub open spec fn map_of<V>(entries: Seq<(String, V)>) -> Map<Seq<char>, V> {
    Map::new(
        |k: Seq<char>| key_index(keys_of(entries), k, 0) < entries.len(),
        |k: Seq<char>| entries[key_index(keys_of(entries), k, 0)].1,
    )
}

/// A table of values under names.
pub struct Table<V> {
    entries: Vec<(String, V)>,
}

impl<V> View for Table<V> {
    type V = Map<Seq<char>, V>;

    closed spec fn view(&self) -> Map<Seq<char>, V> {
        map_of(self.entries@)
    }
}

impl<V> Table<V> {
    /// The table that holds nothing.
    pub fn new() -> (r: Self)
        ensures
            r@ == Map::<Seq<char>, V>::empty(),
    {
        let r = Table { entries: Vec::new() };
        assert(r@ =~= Map::<Seq<char>, V>::empty());
        r
    }

    /// Puts `value` under `name`, in the place of what stood there.
    pub fn insert(&mut self, name: &str, value: V)
        ensures
            final(self)@ == old(self)@.insert(name@, value),
    {
        let key: String = name.to_owned();
        let ghost before = self.entries@;
        proof {
            lemma_key_index(keys_of(before), name@, 0);
        }
        match find_key(&self.entries, &key) {
            Some(i) => {
                self.entries.remove(i);
                self.entries.insert(i, (key, value));
                proof {
                    let after = self.entries@;
                    assert(keys_of(after) =~= keys_of(before));
                    assert(after =~= before.update(i as int, (key, value)));
                    let want = map_of(before).insert(name@, value);
                    assert forall|k: Seq<char>| #[trigger]
                        want.contains_key(k) implies map_of(after).contains_key(k) && map_of(
                        after,
                    )[k] == want[k] by {
                        lemma_key_index(keys_of(before), k, 0);
                    }
                    assert(map_of(after) =~= want);
                }
            },
            None => {
                self.entries.push((key, value));
                proof {
                    let after = self.entries@;
                    let n = before.len() as int;
                    assert(keys_of(after) =~= keys_of(before).push(name@));
                    lemma_key_index_push(keys_of(before), name@);
                    let want = map_of(before).insert(name@, value);
                    assert forall|k: Seq<char>| map_of(after).contains_key(k) == want.contains_key(
                        k,
                    ) && (want.contains_key(k) ==> map_of(after)[k] == want[k]) by {
                        lemma_key_index(keys_of(after), k, 0);
                        let at = key_index(keys_of(after), k, 0);
                        if at < n {
                            assert(after[at] == before[at]);
                        }
                    }
                    assert(map_of(after) =~= want);
                }
            },
        }
    }

    /// The value under `name`, if the table holds one.
    pub fn get(&self, name: &String) -> (r: Option<&V>)
        ensures
            match r {
                Some(v) => self@.contains_key(name@) && self@[name@] == *v,
                None => !self@.contains_key(name@),
            },
    {
        match find_key(&self.entries, name) {
            Some(i) => Some(&self.entries[i].1),
            None => None,
        }
    }
}

} // verus!
