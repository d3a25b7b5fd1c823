//! Objects: insertion-ordered maps from key to value, kept in an
//! `indexmap::IndexMap`.
use crate::value::{JsonValue, Value};
use indexmap::IndexMap;
use vstd::prelude::*;

verus! {

#[verifier::external_type_specification]
#[verifier::external_body]
#[verifier::reject_recursive_types(K)]
#[verifier::reject_recursive_types(V)]
#[verifier::reject_recursive_types(S)]
pub struct ExIndexMap<K, V, S>(IndexMap<K, V, S>);

/// The key-value pairs that an `IndexMap` holds, in its iteration order, each
/// key as its characters and each value as what it stands for.
pub uninterp spec fn entries(m: IndexMap<String, JsonValue>) -> Seq<(Seq<char>, Value)>;

/// The pair at position `i` of `pairs` has the key `key`.
pub open spec fn key_at(pairs: Seq<(Seq<char>, Value)>, key: Seq<char>, i: int) -> bool {
    0 <= i < pairs.len() && pairs[i].0 == key
}

/// Some pair of `pairs` has the key `key`.
pub open spec fn has_key(pairs: Seq<(Seq<char>, Value)>, key: Seq<char>) -> bool {
    exists|i: int| key_at(pairs, key, i)
}

/// A position at which `pairs` has the key `key`: the only one where the keys
/// are distinct.
pub open spec fn position_of(pairs: Seq<(Seq<char>, Value)>, key: Seq<char>) -> int {
    choose|i: int| key_at(pairs, key, i)
}

/// No two of `pairs` have the same key.
pub open spec fn distinct_keys(pairs: Seq<(Seq<char>, Value)>) -> bool {
    forall|i: int, j: int|
        0 <= i < pairs.len() && 0 <= j < pairs.len() && i != j ==> pairs[i].0 != pairs[j].0
}

/// `IndexMap::new`: the new map holds nothing.
#[verifier::external_body]
pub(crate) fn map_new() -> (m: IndexMap<String, JsonValue>)
    ensures
        entries(m) == Seq::<(Seq<char>, Value)>::empty(),
{
    IndexMap::new()
}

/// `IndexMap::len`: the number of pairs held.
#[verifier::external_body]
pub(crate) fn map_len(m: &IndexMap<String, JsonValue>) -> (n: usize)
    ensures
        n == entries(*m).len(),
{
    m.len()
}

/// `IndexMap::contains_key`: whether some pair has a key equal to `key`.
#[verifier::external_body]
pub(crate) fn map_contains_key(m: &IndexMap<String, JsonValue>, key: &String) -> (b: bool)
    ensures
        b == has_key(entries(*m), key@),
{
    m.contains_key(key)
}

/// `IndexMap::get`: the value of a pair whose key equals `key`, or `None`
/// where there is no such pair.
#[verifier::external_body]
pub(crate) fn map_get<'a>(m: &'a IndexMap<String, JsonValue>, key: &String) -> (r: Option<
    &'a JsonValue,
>)
    ensures
        match r {
            Some(v) => (exists|i: int| key_at(entries(*m), key@, i) && entries(*m)[i].1 == v@),
            None => !has_key(entries(*m), key@),
        },
{
    m.get(key)
}

/// `IndexMap::get_index`: the pair at position `index`, or `None` where the
/// map holds no more than `index` pairs.
#[verifier::external_body]
pub(crate) fn map_get_index<'a>(m: &'a IndexMap<String, JsonValue>, index: usize) -> (r: Option<
    (&'a String, &'a JsonValue),
>)
    ensures
        match r {
            Some((k, v)) => index < entries(*m).len() && entries(*m)[index as int] == (k@, v@),
            None => index >= entries(*m).len(),
        },
{
    m.get_index(index)
}

/// `IndexMap::shift_remove`: a pair whose key equals `key` leaves the map and
/// its value is returned, the pairs behind it moving up by one; where there
/// is no such pair the map stays as it is and `None` is returned.
#[verifier::external_body]
pub(crate) fn map_shift_remove(m: &mut IndexMap<String, JsonValue>, key: &String) -> (r: Option<
    JsonValue,
>)
    ensures
        match r {
            Some(v) => (exists|i: int|
                key_at(entries(*old(m)), key@, i) && entries(*old(m))[i].1 == v@ && entries(
                    *final(m),
                ) == entries(*old(m)).remove(i)),
            None => entries(*final(m)) == entries(*old(m)) && !has_key(entries(*old(m)), key@),
        },
{
    m.shift_remove(key)
}

/// `IndexMap::insert`: where a pair has a key equal to `key`, that pair keeps
/// its place and its key, takes `value`, and the value it had is returned;
/// where none has, the new pair goes last and `None` is returned.
#[verifier::external_body]
pub(crate) fn map_insert(m: &mut IndexMap<String, JsonValue>, key: String, value: JsonValue) -> (r:
    Option<JsonValue>)
    ensures
        match r {
            Some(v) => (exists|i: int|
                key_at(entries(*old(m)), key@, i) && entries(*old(m))[i].1 == v@ && entries(
                    *final(m),
                ) == entries(*old(m)).update(i, (key@, value@))),
            None => entries(*final(m)) == entries(*old(m)).push((key@, value@)) && !has_key(
                entries(*old(m)),
                key@,
            ),
        },
{
    m.insert(key, value)
}

/// An object: its pairs in insertion order, no key twice.
#[derive(Debug)]
pub struct JsonObject {
    values: IndexMap<String, JsonValue>,
}

impl View for JsonObject {
    type V = Seq<(Seq<char>, Value)>;

    closed spec fn view(&self) -> Seq<(Seq<char>, Value)> {
        entries(self.values)
    }
}

/// Where no key occurs twice, a key is found at one position only.
pub proof fn lemma_position_unique(pairs: Seq<(Seq<char>, Value)>, key: Seq<char>, i: int)
    requires
        distinct_keys(pairs),
        key_at(pairs, key, i),
    ensures
        has_key(pairs, key),
        position_of(pairs, key) == i,
{
}

impl JsonObject {
    /// An object without pairs.
    pub(crate) fn new() -> (o: JsonObject)
        ensures
            o@ == Seq::<(Seq<char>, Value)>::empty(),
    {
        JsonObject { values: map_new() }
    }

    /// The number of pairs.
    pub(crate) fn len(&self) -> (n: usize)
        ensures
            n == self@.len(),
    {
        map_len(&self.values)
    }

    /// Whether a pair has the key `key`.
    pub(crate) fn contains_key(&self, key: &String) -> (b: bool)
        ensures
            b == has_key(self@, key@),
    {
        map_contains_key(&self.values, key)
    }

    /// The value under `key`.
    pub(crate) fn get(&self, key: &String) -> (r: Option<&JsonValue>)
        requires
            distinct_keys(self@),
        ensures
            match r {
                Some(v) => has_key(self@, key@) && v@ == self@[position_of(self@, key@)].1,
                None => !has_key(self@, key@),
            },
    {
        let r = map_get(&self.values, key);
        proof {
            if r is Some {
                let v = r->Some_0;
                let i = choose|i: int| key_at(self@, key@, i) && self@[i].1 == v@;
                lemma_position_unique(self@, key@, i);
            }
        }
        r
    }

    /// The pair at position `i`.
    pub(crate) fn get_index(&self, i: usize) -> (r: Option<(&String, &JsonValue)>)
        ensures
            match r {
                Some((k, v)) => i < self@.len() && self@[i as int] == (k@, v@),
                None => i >= self@.len(),
            },
    {
        map_get_index(&self.values, i)
    }

    /// The values of the pairs, in order.
    pub(crate) fn values(&self) -> (r: Vec<Value>)
        ensures
            r@ == self@.map_values(|p: (Seq<char>, Value)| p.1),
    {
        let ghost all = self@.map_values(|p: (Seq<char>, Value)| p.1);
        let mut r: Vec<Value> = Vec::new();
        let n = self.len();
        let mut i: usize = 0;
        while i < n
            invariant
                i <= n,
                n == self@.len(),
                all == self@.map_values(|p: (Seq<char>, Value)| p.1),
                r@ == all.take(i as int),
            decreases n - i,
        {
            match self.get_index(i) {
                Some((_, v)) => {
                    r.push(v.decode());
                },
                None => {},
            }
            i += 1;
            assert(r@ =~= all.take(i as int));
        }
        assert(all.take(n as int) =~= all);
        r
    }

    /// Takes the pair with the key `key` out and returns its value; the
    /// pairs behind it move up.
    pub(crate) fn remove(&mut self, key: &String) -> (r: Option<JsonValue>)
        requires
            distinct_keys(old(self)@),
        ensures
            distinct_keys(final(self)@),
            match r {
                Some(v) => has_key(old(self)@, key@) && v@ == old(self)@[position_of(
                    old(self)@,
                    key@,
                )].1 && final(self)@ == old(self)@.remove(position_of(old(self)@, key@)),
                None => !has_key(old(self)@, key@) && final(self)@ == old(self)@,
            },
    {
        let r = map_shift_remove(&mut self.values, key);
        proof {
            if r is Some {
                let v = r->Some_0;
                let i = choose|i: int|
                    key_at(old(self)@, key@, i) && old(self)@[i].1 == v@ && self@ == old(
                        self,
                    )@.remove(i);
                lemma_position_unique(old(self)@, key@, i);
                lemma_remove_keeps_distinct(old(self)@, i);
            }
        }
        r
    }

    /// Adds a pair behind the others.
    pub(crate) fn append(&mut self, key: String, value: JsonValue)
        requires
            distinct_keys(old(self)@),
            !has_key(old(self)@, key@),
        ensures
            distinct_keys(final(self)@),
            final(self)@ == old(self)@.push((key@, value@)),
    {
        let ghost pair = (key@, value@);
        let r = map_insert(&mut self.values, key, value);
        proof {
            lemma_push_keeps_distinct(old(self)@, pair);
        }
    }
}

/// Taking a pair out leaves the keys distinct.
pub proof fn lemma_remove_keeps_distinct(pairs: Seq<(Seq<char>, Value)>, i: int)
    requires
        distinct_keys(pairs),
        0 <= i < pairs.len(),
    ensures
        distinct_keys(pairs.remove(i)),
        !has_key(pairs.remove(i), pairs[i].0),
{
    let r = pairs.remove(i);
    assert forall|a: int, b: int| 0 <= a < r.len() && 0 <= b < r.len() && a != b implies r[a].0
        != r[b].0 by {
        let a0 = if a < i { a } else { a + 1 };
        let b0 = if b < i { b } else { b + 1 };
        assert(r[a] == pairs[a0]);
        assert(r[b] == pairs[b0]);
    }
    assert forall|a: int| !key_at(r, pairs[i].0, a) by {
        if 0 <= a < r.len() {
            let a0 = if a < i { a } else { a + 1 };
            assert(r[a] == pairs[a0]);
        }
    }
}

/// Adding a pair with a new key leaves the keys distinct, and the new pair is
/// found under its key.
pub proof fn lemma_push_keeps_distinct(pairs: Seq<(Seq<char>, Value)>, pair: (Seq<char>, Value))
    requires
        distinct_keys(pairs),
        !has_key(pairs, pair.0),
    ensures
        distinct_keys(pairs.push(pair)),
        has_key(pairs.push(pair), pair.0),
        position_of(pairs.push(pair), pair.0) == pairs.len(),
{
    let r = pairs.push(pair);
    assert forall|a: int, b: int| 0 <= a < r.len() && 0 <= b < r.len() && a != b implies r[a].0
        != r[b].0 by {
        if a < pairs.len() {
            assert(r[a] == pairs[a]);
            if !(b < pairs.len()) {
                assert(!key_at(pairs, pair.0, a));
            }
        }
        if b < pairs.len() {
            assert(r[b] == pairs[b]);
            if !(a < pairs.len()) {
                assert(!key_at(pairs, pair.0, b));
            }
        }
    }
    assert(key_at(r, pair.0, pairs.len() as int));
    lemma_position_unique(r, pair.0, pairs.len() as int);
}

} // verus!
