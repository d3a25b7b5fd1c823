//! The mathematical model of a document: three tables keyed by id, the three
//! id counters, and the kind of the root container.
use crate::ordered::{has_key, position_of};
use crate::value::Value;
use vstd::prelude::*;

verus! {

/// The values of `pairs`, in order.
pub open spec fn values_of(pairs: Seq<(Seq<char>, Value)>) -> Seq<Value> {
    pairs.map_values(|p: (Seq<char>, Value)| p.1)
}

/// The id of the root container of every document.
pub open spec fn root_id() -> u64 {
    0
}

/// A document as contracts see it.
pub struct Doc {
    /// The text of each string value, by id.
    pub strings: Map<u64, Seq<char>>,
    /// The pairs of each object, in insertion order, by id.
    pub objects: Map<u64, Seq<(Seq<char>, Value)>>,
    /// The items of each array, by id.
    pub arrays: Map<u64, Seq<Value>>,
    /// The id that the next string gets.
    pub next_string: u64,
    /// The id that the next object gets.
    pub next_object: u64,
    /// The id that the next array gets.
    pub next_array: u64,
    /// Whether the root is the object 0 (else it is the array 0).
    pub root_is_object: bool,
}

impl Doc {
    /// A document that holds its root container and nothing else.
    pub open spec fn empty(root_is_object: bool) -> Doc {
        Doc {
            strings: Map::empty(),
            objects: if root_is_object {
                Map::empty().insert(root_id(), Seq::empty())
            } else {
                Map::empty()
            },
            arrays: if root_is_object {
                Map::empty()
            } else {
                Map::empty().insert(root_id(), Seq::empty())
            },
            next_string: 0,
            next_object: if root_is_object {
                1
            } else {
                0
            },
            next_array: if root_is_object {
                0
            } else {
                1
            },
            root_is_object,
        }
    }

    /// The value that stands for the root container.
    pub open spec fn root(self) -> Value {
        if self.root_is_object {
            Value::Object(root_id())
        } else {
            Value::Array(root_id())
        }
    }

    /// How deep containers may nest for the document to be written out: as
    /// deep as it has containers, which chains without a cycle never exceed.
    pub open spec fn depth_limit(self) -> nat {
        let n = self.objects.len() + self.arrays.len();
        if n < usize::MAX {
            n
        } else {
            (usize::MAX - 1) as nat
        }
    }

    /// The tables are finite.
    pub open spec fn finite(self) -> bool {
        &&& self.strings.dom().finite()
        &&& self.objects.dom().finite()
        &&& self.arrays.dom().finite()
    }

    /// The number of table entries.
    pub open spec fn size(self) -> nat {
        self.strings.len() + self.objects.len() + self.arrays.len()
    }

    /// Well-formedness: the tables are finite, every id in use lies below its
    /// counter, and no object has a key twice.
    pub open spec fn wf(self) -> bool {
        &&& self.finite()
        &&& forall|id: u64| self.strings.contains_key(id) ==> id < self.next_string
        &&& forall|id: u64| self.objects.contains_key(id) ==> id < self.next_object
        &&& forall|id: u64| self.arrays.contains_key(id) ==> id < self.next_array
        &&& forall|id: u64| #[trigger]
            self.objects.contains_key(id) ==> crate::ordered::distinct_keys(self.objects[id])
    }

    /// `v` is a scalar, or its id has an entry in the table of its kind.
    pub open spec fn resolves(self, v: Value) -> bool {
        match v {
            Value::Str(id) => self.strings.contains_key(id),
            Value::Object(id) => self.objects.contains_key(id),
            Value::Array(id) => self.arrays.contains_key(id),
            _ => true,
        }
    }

    /// The values that the entry of `v` holds: the values of an object's
    /// pairs, the items of an array, nothing otherwise.
    pub open spec fn children(self, v: Value) -> Seq<Value> {
        match v {
            Value::Object(id) if self.objects.contains_key(id) => values_of(self.objects[id]),
            Value::Array(id) if self.arrays.contains_key(id) => self.arrays[id],
            _ => Seq::empty(),
        }
    }

    /// The entry of `parent` holds `child`.
    pub open spec fn holds(self, parent: Value, child: Value) -> bool {
        parent.is_composite() && self.resolves(parent) && self.children(parent).contains(child)
    }

    /// `path` leads from its first value down to its last: each value but
    /// the first is held by the entry of the one before it.
    pub open spec fn is_path(self, path: Seq<Value>) -> bool {
        path.len() > 0 && forall|i: int|
            #![trigger path[i]]
            0 <= i < path.len() - 1 ==> self.holds(path[i], path[i + 1])
    }

    /// `owner` owns `v`: `v` is `owner` itself, or a value that the entry of
    /// `owner` holds, or one that the entry of such a value holds, and so on.
    pub open spec fn owns(self, owner: Value, v: Value) -> bool {
        exists|path: Seq<Value>| self.is_path(path) && path[0] == owner && path.last() == v
    }

    /// One of `owners` owns `v`.
    pub open spec fn owned_by_any(self, owners: Seq<Value>, v: Value) -> bool {
        exists|i: int| 0 <= i < owners.len() && self.owns(#[trigger] owners[i], v)
    }

    /// The document without the entry of `v`.
    pub open spec fn without(self, v: Value) -> Doc {
        match v {
            Value::Str(id) => Doc { strings: self.strings.remove(id), ..self },
            Value::Object(id) => Doc { objects: self.objects.remove(id), ..self },
            Value::Array(id) => Doc { arrays: self.arrays.remove(id), ..self },
            _ => self,
        }
    }

    /// Cascading release: the entries of the values in `pending` leave the
    /// tables, and so does every entry that they own, directly or through
    /// other entries. The last of `pending` is taken first; where it has an
    /// entry, the entry is removed and what it held is released after it.
    pub open spec fn release(self, pending: Seq<Value>) -> Doc
        decreases self.size(), pending.len(),
        when self.finite()
    {
        if pending.len() == 0 {
            self
        } else {
            let v = pending.last();
            let rest = pending.drop_last();
            if v.is_composite() && self.resolves(v) {
                self.without(v).release(rest + self.children(v))
            } else {
                self.release(rest)
            }
        }
    }

    /// `other` has the id counters and the kind of root of this document.
    pub open spec fn same_counters(self, other: Doc) -> bool {
        &&& self.next_string == other.next_string
        &&& self.next_object == other.next_object
        &&& self.next_array == other.next_array
        &&& self.root_is_object == other.root_is_object
    }

    /// The document with a new string of text `text`.
    pub open spec fn add_string(self, text: Seq<char>) -> Doc {
        Doc {
            strings: self.strings.insert(self.next_string, text),
            next_string: (self.next_string + 1) as u64,
            ..self
        }
    }

    /// The document with a new object without pairs.
    pub open spec fn add_object(self) -> Doc {
        Doc {
            objects: self.objects.insert(self.next_object, Seq::empty()),
            next_object: (self.next_object + 1) as u64,
            ..self
        }
    }

    /// The document with a new array without items.
    pub open spec fn add_array(self) -> Doc {
        Doc {
            arrays: self.arrays.insert(self.next_array, Seq::empty()),
            next_array: (self.next_array + 1) as u64,
            ..self
        }
    }

    /// The object `id` has a pair with the key `key`.
    pub open spec fn contains(self, id: u64, key: Seq<char>) -> bool {
        self.objects.contains_key(id) && has_key(self.objects[id], key)
    }

    /// The value under `key` in the object `id`.
    pub open spec fn get(self, id: u64, key: Seq<char>) -> Value {
        self.objects[id][position_of(self.objects[id], key)].1
    }

    /// The document with the pair under `key` taken out of the object `id`,
    /// the value of the pair not yet released.
    pub open spec fn without_pair(self, id: u64, key: Seq<char>) -> Doc {
        let pairs = self.objects[id];
        Doc { objects: self.objects.insert(id, pairs.remove(position_of(pairs, key))), ..self }
    }

    /// The document after the pair with the key `key` has left the object
    /// `id` and its value has been released.
    pub open spec fn erase(self, id: u64, key: Seq<char>) -> Doc {
        self.without_pair(id, key).release(seq![self.get(id, key)])
    }

    /// The document after `key` has been set to `v` in the object `id`: a pair
    /// with that key leaves first, its value released, and the new pair goes
    /// last. Where that release takes the object itself, which a well-formed
    /// tree of values never does, nothing is added.
    pub open spec fn set(self, id: u64, key: Seq<char>, v: Value) -> Doc {
        let d = if self.contains(id, key) {
            self.erase(id, key)
        } else {
            self
        };
        if d.objects.contains_key(id) {
            Doc { objects: d.objects.insert(id, d.objects[id].push((key, v))), ..d }
        } else {
            d
        }
    }

    /// The document with the items of the array `id` replaced by `items`.
    pub open spec fn with_items(self, id: u64, items: Seq<Value>) -> Doc {
        Doc { arrays: self.arrays.insert(id, items), ..self }
    }
}

/// `small` has no entry that `big` lacks, and holds what `big` holds there.
pub open spec fn submap<V>(small: Map<u64, V>, big: Map<u64, V>) -> bool {
    forall|id: u64| #[trigger]
        small.contains_key(id) ==> big.contains_key(id) && small[id] == big[id]
}

/// A release takes entries away and changes nothing else: what stays is as
/// it was, the counters and the root's kind are kept, and a well-formed
/// document stays well-formed.
pub proof fn lemma_release_shrinks(d: Doc, pending: Seq<Value>)
    requires
        d.finite(),
    ensures
        d.release(pending).finite(),
        submap(d.release(pending).strings, d.strings),
        submap(d.release(pending).objects, d.objects),
        submap(d.release(pending).arrays, d.arrays),
        d.release(pending).next_string == d.next_string,
        d.release(pending).next_object == d.next_object,
        d.release(pending).next_array == d.next_array,
        d.release(pending).root_is_object == d.root_is_object,
        d.wf() ==> d.release(pending).wf(),
    decreases d.size(), pending.len(),
{
    if pending.len() > 0 {
        let v = pending.last();
        let rest = pending.drop_last();
        if v.is_composite() && d.resolves(v) {
            lemma_release_shrinks(d.without(v), rest + d.children(v));
        } else {
            lemma_release_shrinks(d, rest);
        }
    }
}

} // verus!
