//! The context: the owner of every object, array and string of a document.
use crate::model::{lemma_release_shrinks, root_id, Doc};
use crate::ordered::{position_of, JsonObject};
use crate::value::{JsonValue, Value};
use std::collections::HashMap;
use vstd::prelude::*;

verus! {

/// What a call on a context can fail with.
#[derive(Debug, Clone, Copy, PartialEq, Eq, Structural)]
pub enum JsonError {
    /// The object has no pair with that key.
    KeyNotFound,
    /// The value is not of the kind asked for.
    TypeMismatch,
    /// The index is not below the array's length.
    IndexOutOfRange,
    /// The array has no item.
    EmptyArray,
}

/// What the stored values stand for, in order.
pub open spec fn items_of(stored: Seq<JsonValue>) -> Seq<Value> {
    stored.map_values(|j: JsonValue| j@)
}

/// What the stored values stand for, in order.
pub fn decode_all(stored: &Vec<JsonValue>) -> (r: Vec<Value>)
    ensures
        r@ == items_of(stored@),
{
    let mut r: Vec<Value> = Vec::new();
    let mut i: usize = 0;
    while i < stored.len()
        invariant
            i <= stored.len(),
            r@ == items_of(stored@).take(i as int),
        decreases stored.len() - i,
    {
        r.push(stored[i].decode());
        i += 1;
        assert(r@ =~= items_of(stored@).take(i as int));
    }
    assert(items_of(stored@).take(stored.len() as int) =~= items_of(stored@));
    r
}

/// A document: three tables keyed by ids that are handed out in rising order
/// and never again, and a root container with the id 0.
#[derive(Debug)]
pub struct JsonContext {
    strings: HashMap<u64, String>,
    string_id: u64,
    objects: HashMap<u64, JsonObject>,
    object_id: u64,
    arrays: HashMap<u64, Vec<JsonValue>>,
    array_id: u64,
    initial_obj: bool,
}

impl View for JsonContext {
    type V = Doc;

    closed spec fn view(&self) -> Doc {
        Doc {
            strings: self.strings@.map_values(|s: String| s@),
            objects: self.objects@.map_values(|o: JsonObject| o@),
            arrays: self.arrays@.map_values(|a: Vec<JsonValue>| items_of(a@)),
            next_string: self.string_id,
            next_object: self.object_id,
            next_array: self.array_id,
            root_is_object: self.initial_obj,
        }
    }
}

impl JsonContext {
    /// The invariant of a context: that of its document.
    pub open spec fn wf(&self) -> bool {
        self@.wf()
    }

    /// A context that holds an empty root, an object where `initial_obj` is
    /// set and an array where it is not, together with the root's id.
    pub fn new(initial_obj: bool) -> (r: (Self, u64))
        ensures
            r.0@ == Doc::empty(initial_obj),
            r.0.wf(),
            r.1 == root_id(),
    {
        let mut objs = HashMap::<u64, JsonObject>::new();
        let mut arrs = HashMap::<u64, Vec<JsonValue>>::new();
        let mut obj_id: u64 = 0;
        let mut arr_id: u64 = 0;
        if initial_obj {
            objs.insert(0, JsonObject::new());
            obj_id += 1;
        } else {
            arrs.insert(0, Vec::new());
            arr_id += 1;
        }
        let cxt = Self {
            strings: HashMap::new(),
            string_id: 0,
            objects: objs,
            object_id: obj_id,
            arrays: arrs,
            array_id: arr_id,
            initial_obj,
        };
        proof {
            let d = Doc::empty(initial_obj);
            assert(cxt@.strings =~= d.strings);
            assert(cxt@.objects =~= d.objects);
            if !initial_obj {
                assert(items_of(Seq::<JsonValue>::empty()) =~= Seq::<Value>::empty());
            }
            assert(cxt@.arrays =~= d.arrays);
        }
        (cxt, 0)
    }

    /// The value that stands for the root container.
    pub fn root(&self) -> (v: Value)
        ensures
            v == self@.root(),
    {
        if self.initial_obj {
            Value::Object(0)
        } else {
            Value::Array(0)
        }
    }

    /// How deep containers may nest for the document to be written out.
    pub fn depth_limit(&self) -> (n: usize)
        ensures
            n == self@.depth_limit(),
            n < usize::MAX,
    {
        let objects = self.objects.len();
        let arrays = self.arrays.len();
        proof {
            assert(self@.objects.dom() =~= self.objects@.dom());
            assert(self@.arrays.dom() =~= self.arrays@.dom());
        }
        if objects < usize::MAX - arrays {
            objects + arrays
        } else {
            usize::MAX - 1
        }
    }

    /// Whether the object `id` exists.
    pub fn has_object(&self, id: u64) -> (b: bool)
        ensures
            b == self@.objects.contains_key(id),
    {
        self.objects.contains_key(&id)
    }

    /// Whether the array `id` exists.
    pub fn has_array(&self, id: u64) -> (b: bool)
        ensures
            b == self@.arrays.contains_key(id),
    {
        self.arrays.contains_key(&id)
    }

    /// Whether the string `id` exists.
    pub fn has_string(&self, id: u64) -> (b: bool)
        ensures
            b == self@.strings.contains_key(id),
    {
        self.strings.contains_key(&id)
    }

    /// The object `id`.
    pub(crate) fn object(&self, id: u64) -> (r: Option<&JsonObject>)
        ensures
            match r {
                Some(o) => self@.objects.contains_key(id) && o@ == self@.objects[id],
                None => !self@.objects.contains_key(id),
            },
    {
        self.objects.get(&id)
    }

    /// The array `id`.
    pub(crate) fn array(&self, id: u64) -> (r: Option<&Vec<JsonValue>>)
        ensures
            match r {
                Some(a) => self@.arrays.contains_key(id) && items_of(a@) == self@.arrays[id],
                None => !self@.arrays.contains_key(id),
            },
    {
        self.arrays.get(&id)
    }

    /// The text of the string `id`.
    pub(crate) fn string(&self, id: u64) -> (r: Option<&String>)
        ensures
            match r {
                Some(s) => self@.strings.contains_key(id) && s@ == self@.strings[id],
                None => !self@.strings.contains_key(id),
            },
    {
        self.strings.get(&id)
    }

    /// Takes the string `id` out of its table.
    fn take_string(&mut self, id: u64)
        ensures
            final(self)@ == old(self)@.without(Value::Str(id)),
    {
        self.strings.remove(&id);
        proof {
            assert(self@.strings =~= old(self)@.strings.remove(id));
        }
    }

    /// Takes the object `id` out of its table.
    fn take_object(&mut self, id: u64) -> (r: Option<JsonObject>)
        ensures
            final(self)@ == old(self)@.without(Value::Object(id)),
            match r {
                Some(o) => old(self)@.objects.contains_key(id) && o@ == old(self)@.objects[id],
                None => !old(self)@.objects.contains_key(id),
            },
    {
        let r = self.objects.remove(&id);
        proof {
            assert(self@.objects =~= old(self)@.objects.remove(id));
        }
        r
    }

    /// Takes the array `id` out of its table.
    fn take_array(&mut self, id: u64) -> (r: Option<Vec<JsonValue>>)
        ensures
            final(self)@ == old(self)@.without(Value::Array(id)),
            match r {
                Some(a) => old(self)@.arrays.contains_key(id) && items_of(a@) == old(
                    self,
                )@.arrays[id],
                None => !old(self)@.arrays.contains_key(id),
            },
    {
        let r = self.arrays.remove(&id);
        proof {
            assert(self@.arrays =~= old(self)@.arrays.remove(id));
        }
        r
    }

    /// Puts `obj` into the table of objects under `id`.
    fn put_object(&mut self, id: u64, obj: JsonObject)
        ensures
            final(self)@ == (Doc { objects: old(self)@.objects.insert(id, obj@), ..old(self)@ }),
    {
        let ghost o = obj@;
        self.objects.insert(id, obj);
        proof {
            assert(self@.objects =~= old(self)@.objects.insert(id, o));
        }
    }

    /// Puts `items` into the table of arrays under `id`.
    fn put_array(&mut self, id: u64, items: Vec<JsonValue>)
        ensures
            final(self)@ == old(self)@.with_items(id, items_of(items@)),
    {
        let ghost a = items_of(items@);
        self.arrays.insert(id, items);
        proof {
            assert(self@.arrays =~= old(self)@.arrays.insert(id, a));
        }
    }

    /// Cascading release of `v`: its entry leaves the tables with every entry
    /// that it owns, directly or through other entries.
    pub(crate) fn release(&mut self, v: Value)
        requires
            old(self).wf(),
        ensures
            final(self)@ == old(self)@.release(seq![v]),
            final(self).wf(),
            final(self)@.same_counters(old(self)@),
    {
        let ghost start = self@;
        let mut pending: Vec<Value> = Vec::new();
        pending.push(v);
        assert(pending@ == seq![v]);
        while pending.len() > 0
            invariant
                self@.finite(),
                start.release(seq![v]) == self@.release(pending@),
            decreases self@.size(), pending.len(),
        {
            let ghost before = self@;
            let ghost stack = pending@;
            let top = pending.pop().unwrap();
            assert(top == stack.last() && pending@ == stack.drop_last());
            match top {
                Value::Str(id) => {
                    self.take_string(id);
                    proof {
                        if !before.strings.contains_key(id) {
                            assert(self@.strings =~= before.strings);
                        } else {
                            assert(pending@ + before.children(top) =~= pending@);
                        }
                    }
                },
                Value::Object(id) => {
                    match self.take_object(id) {
                        Some(obj) => {
                            let n = obj.len();
                            let mut i: usize = 0;
                            while i < n
                                invariant
                                    i <= n,
                                    n == obj@.len(),
                                    pending@ == stack.drop_last() + crate::model::values_of(
                                        obj@,
                                    ).take(i as int),
                                decreases n - i,
                            {
                                match obj.get_index(i) {
                                    Some((_, child)) => {
                                        pending.push(child.decode());
                                    },
                                    None => {},
                                }
                                i += 1;
                                assert(pending@ =~= stack.drop_last() + crate::model::values_of(
                                    obj@,
                                ).take(i as int));
                            }
                            assert(crate::model::values_of(obj@).take(n as int)
                                =~= crate::model::values_of(obj@));
                        },
                        None => {
                            assert(self@.objects =~= before.objects);
                        },
                    }
                },
                Value::Array(id) => {
                    match self.take_array(id) {
                        Some(items) => {
                            let n = items.len();
                            let mut i: usize = 0;
                            while i < n
                                invariant
                                    i <= n,
                                    n == items@.len(),
                                    pending@ == stack.drop_last() + items_of(items@).take(
                                        i as int,
                                    ),
                                decreases n - i,
                            {
                                pending.push(items[i].decode());
                                i += 1;
                                assert(pending@ =~= stack.drop_last() + items_of(items@).take(
                                    i as int,
                                ));
                            }
                            assert(items_of(items@).take(n as int) =~= items_of(items@));
                        },
                        None => {
                            assert(self@.arrays =~= before.arrays);
                        },
                    }
                },
                _ => {},
            }
        }
        proof {
            lemma_release_shrinks(start, seq![v]);
        }
    }

    /// Whether the object `obj_id` has a pair with the key `key`.
    pub fn contains(&self, obj_id: u64, key: &String) -> (b: bool)
        requires
            self@.objects.contains_key(obj_id),
        ensures
            b == self@.contains(obj_id, key@),
    {
        match self.object(obj_id) {
            Some(obj) => obj.contains_key(key),
            None => false,
        }
    }

    /// Whether the object `obj_id` has a pair with the key `key`.
    pub fn contains_str(&self, obj_id: u64, key: &str) -> (b: bool)
        requires
            self@.objects.contains_key(obj_id),
        ensures
            b == self@.contains(obj_id, key@),
    {
        let owned = key.to_owned();
        self.contains(obj_id, &owned)
    }

    /// An integer value.
    pub fn val_int(&self, val: i64) -> (r: JsonValue)
        ensures
            r@ == Value::Int(val),
    {
        JsonValue::encode(Value::Int(val))
    }

    /// A floating-point value, from its IEEE-754 binary64 bit pattern.
    pub fn val_float(&self, bits: u64) -> (r: JsonValue)
        ensures
            r@ == Value::Float(bits),
    {
        JsonValue::encode(Value::Float(bits))
    }

    /// A boolean value.
    pub fn val_bool(&self, val: bool) -> (r: JsonValue)
        ensures
            r@ == Value::Bool(val),
    {
        JsonValue::encode(Value::Bool(val))
    }

    /// The null value.
    pub fn val_null(&self) -> (r: JsonValue)
        ensures
            r@ == Value::Null,
    {
        JsonValue::encode(Value::Null)
    }

    /// A new string value: its text is kept under the next string id.
    pub fn val_string(&mut self, val: String) -> (r: JsonValue)
        requires
            old(self).wf(),
            old(self)@.next_string < u64::MAX,
        ensures
            r@ == Value::Str(old(self)@.next_string),
            final(self)@ == old(self)@.add_string(val@),
            final(self).wf(),
    {
        let id = self.string_id;
        let ghost text = val@;
        self.strings.insert(id, val);
        self.string_id = id + 1;
        proof {
            assert(self@.strings =~= old(self)@.strings.insert(id, text));
        }
        JsonValue::encode(Value::Str(id))
    }

    /// A new, empty object under the next object id, with that id.
    pub fn val_obj(&mut self) -> (r: (JsonValue, u64))
        requires
            old(self).wf(),
            old(self)@.next_object < u64::MAX,
        ensures
            r.0@ == Value::Object(old(self)@.next_object),
            r.1 == old(self)@.next_object,
            final(self)@ == old(self)@.add_object(),
            final(self).wf(),
    {
        let id = self.object_id;
        self.objects.insert(id, JsonObject::new());
        self.object_id = id + 1;
        proof {
            assert(self@.objects =~= old(self)@.objects.insert(id, Seq::empty()));
        }
        (JsonValue::encode(Value::Object(id)), id)
    }

    /// A new, empty array under the next array id, with that id.
    pub fn val_array(&mut self) -> (r: (JsonValue, u64))
        requires
            old(self).wf(),
            old(self)@.next_array < u64::MAX,
        ensures
            r.0@ == Value::Array(old(self)@.next_array),
            r.1 == old(self)@.next_array,
            final(self)@ == old(self)@.add_array(),
            final(self).wf(),
    {
        let id = self.array_id;
        self.arrays.insert(id, Vec::new());
        self.array_id = id + 1;
        proof {
            assert(items_of(Seq::<JsonValue>::empty()) =~= Seq::<Value>::empty());
            assert(self@.arrays =~= old(self)@.arrays.insert(id, Seq::empty()));
        }
        (JsonValue::encode(Value::Array(id)), id)
    }

    /// Takes the pair with the key `key` out of the object `obj_id` and
    /// releases its value; `false` where there is no such pair.
    fn erase_pair(&mut self, obj_id: u64, key: &String) -> (found: bool)
        requires
            old(self).wf(),
            old(self)@.objects.contains_key(obj_id),
        ensures
            final(self).wf(),
            final(self)@.same_counters(old(self)@),
            found == old(self)@.contains(obj_id, key@),
            found ==> final(self)@ == old(self)@.erase(obj_id, key@),
            !found ==> final(self)@ == old(self)@,
    {
        let removed = match self.take_object(obj_id) {
            Some(mut obj) => {
                let r = obj.remove(key);
                self.put_object(obj_id, obj);
                r
            },
            None => None,
        };
        match removed {
            Some(v) => {
                proof {
                    let pairs = old(self)@.objects[obj_id];
                    let i = position_of(pairs, key@);
                    assert(self@.objects =~= old(self)@.objects.insert(obj_id, pairs.remove(i)));
                }
                self.release(v.decode());
                true
            },
            None => {
                proof {
                    assert(self@.objects =~= old(self)@.objects);
                }
                false
            },
        }
    }

    /// Sets `key` to `val` in the object `obj_id`. A pair with that key
    /// leaves first and its value is released; the new pair goes last.
    pub fn set_val(&mut self, obj_id: u64, key: String, val: JsonValue)
        requires
            old(self).wf(),
            old(self)@.objects.contains_key(obj_id),
        ensures
            final(self)@ == old(self)@.set(obj_id, key@, val@),
            final(self).wf(),
            final(self)@.same_counters(old(self)@),
    {
        let found = self.erase_pair(obj_id, &key);
        let ghost d = self@;
        proof {
            if found {
                let pairs = old(self)@.objects[obj_id];
                let i = position_of(pairs, key@);
                let cut = old(self)@.without_pair(obj_id, key@);
                lemma_release_shrinks(cut, seq![pairs[i].1]);
                crate::ordered::lemma_remove_keeps_distinct(pairs, i);
            }
        }
        match self.take_object(obj_id) {
            Some(mut obj) => {
                obj.append(key, val);
                self.put_object(obj_id, obj);
                proof {
                    assert(self@.objects =~= d.objects.insert(
                        obj_id,
                        d.objects[obj_id].push((key@, val@)),
                    ));
                }
            },
            None => {
                proof {
                    assert(self@.objects =~= d.objects);
                }
            },
        }
    }

    /// The integer that `val` holds.
    pub fn get_int(&self, val: &JsonValue) -> (r: Result<i64, JsonError>)
        ensures
            match r {
                Ok(i) => val@ == Value::Int(i),
                Err(e) => e == JsonError::TypeMismatch && !(val@ is Int),
            },
    {
        match val.decode() {
            Value::Int(i) => Ok(i),
            _ => Err(JsonError::TypeMismatch),
        }
    }

    /// The floating-point number that `val` holds, as its bit pattern.
    pub fn get_float(&self, val: &JsonValue) -> (r: Result<u64, JsonError>)
        ensures
            match r {
                Ok(bits) => val@ == Value::Float(bits),
                Err(e) => e == JsonError::TypeMismatch && !(val@ is Float),
            },
    {
        match val.decode() {
            Value::Float(bits) => Ok(bits),
            _ => Err(JsonError::TypeMismatch),
        }
    }

    /// The boolean that `val` holds.
    pub fn get_bool(&self, val: &JsonValue) -> (r: Result<bool, JsonError>)
        ensures
            match r {
                Ok(b) => val@ == Value::Bool(b),
                Err(e) => e == JsonError::TypeMismatch && !(val@ is Bool),
            },
    {
        match val.decode() {
            Value::Bool(b) => Ok(b),
            _ => Err(JsonError::TypeMismatch),
        }
    }

    /// The text of the string that `val` refers to.
    pub fn get_string(&self, val: &JsonValue) -> (r: Result<&String, JsonError>)
        requires
            self@.resolves(val@),
        ensures
            match r {
                Ok(s) => val@ is Str && s@ == self@.strings[val@->Str_0],
                Err(e) => e == JsonError::TypeMismatch && !(val@ is Str),
            },
    {
        match val.decode() {
            Value::Str(id) => {
                match self.string(id) {
                    Some(s) => Ok(s),
                    None => Err(JsonError::TypeMismatch),
                }
            },
            _ => Err(JsonError::TypeMismatch),
        }
    }

    /// The object that `val` refers to.
    pub fn get_obj(&self, val: &JsonValue) -> (r: Result<&JsonObject, JsonError>)
        requires
            self@.resolves(val@),
        ensures
            match r {
                Ok(o) => val@ is Object && o@ == self@.objects[val@->Object_0],
                Err(e) => e == JsonError::TypeMismatch && !(val@ is Object),
            },
    {
        match val.decode() {
            Value::Object(id) => {
                match self.object(id) {
                    Some(o) => Ok(o),
                    None => Err(JsonError::TypeMismatch),
                }
            },
            _ => Err(JsonError::TypeMismatch),
        }
    }

    /// The value under `key` in the object `obj_id`.
    pub fn get_val(&self, obj_id: u64, key: &String) -> (r: Result<&JsonValue, JsonError>)
        requires
            self.wf(),
            self@.objects.contains_key(obj_id),
        ensures
            match r {
                Ok(v) => self@.contains(obj_id, key@) && v@ == self@.get(obj_id, key@),
                Err(e) => e == JsonError::KeyNotFound && !self@.contains(obj_id, key@),
            },
    {
        match self.object(obj_id) {
            Some(obj) => {
                match obj.get(key) {
                    Some(v) => Ok(v),
                    None => Err(JsonError::KeyNotFound),
                }
            },
            None => Err(JsonError::KeyNotFound),
        }
    }

    /// Adds `val` behind the items of the array `arr_id`.
    pub fn array_push(&mut self, arr_id: u64, val: JsonValue)
        requires
            old(self).wf(),
            old(self)@.arrays.contains_key(arr_id),
        ensures
            final(self)@ == old(self)@.with_items(arr_id, old(self)@.arrays[arr_id].push(val@)),
            final(self).wf(),
    {
        let ghost v = val@;
        match self.take_array(arr_id) {
            Some(mut items) => {
                let ghost before = items@;
                items.push(val);
                assert(items_of(items@) =~= items_of(before).push(v));
                self.put_array(arr_id, items);
            },
            None => {},
        }
        proof {
            assert(self@.arrays =~= old(self)@.arrays.insert(
                arr_id,
                old(self)@.arrays[arr_id].push(v),
            ));
        }
    }

    /// Puts `val` before the item at `idx` of the array `arr_id`.
    pub fn array_insert(&mut self, arr_id: u64, idx: usize, val: JsonValue) -> (r: Result<
        (),
        JsonError,
    >)
        requires
            old(self).wf(),
            old(self)@.arrays.contains_key(arr_id),
        ensures
            final(self).wf(),
            match r {
                Ok(_) => idx < old(self)@.arrays[arr_id].len() && final(self)@ == old(
                    self,
                )@.with_items(arr_id, old(self)@.arrays[arr_id].insert(idx as int, val@)),
                Err(e) => e == JsonError::IndexOutOfRange && idx >= old(self)@.arrays[arr_id].len()
                    && final(self)@ == old(self)@,
            },
    {
        let ghost v = val@;
        let mut r = Err(JsonError::IndexOutOfRange);
        match self.take_array(arr_id) {
            Some(mut items) => {
                let ghost before = items@;
                if idx < items.len() {
                    items.insert(idx, val);
                    assert(items_of(items@) =~= items_of(before).insert(idx as int, v));
                    r = Ok(());
                }
                self.put_array(arr_id, items);
            },
            None => {},
        }
        proof {
            if r is Ok {
                assert(self@.arrays =~= old(self)@.arrays.insert(
                    arr_id,
                    old(self)@.arrays[arr_id].insert(idx as int, v),
                ));
            } else {
                assert(self@.arrays =~= old(self)@.arrays);
            }
        }
        r
    }

    /// Takes the last item of the array `arr_id` out and returns it. What it
    /// owns stays in the tables: the caller holds the value now.
    pub fn array_pop(&mut self, arr_id: u64) -> (r: Result<JsonValue, JsonError>)
        requires
            old(self).wf(),
            old(self)@.arrays.contains_key(arr_id),
        ensures
            final(self).wf(),
            match r {
                Ok(v) => old(self)@.arrays[arr_id].len() > 0 && v@ == old(
                    self,
                )@.arrays[arr_id].last() && final(self)@ == old(self)@.with_items(
                    arr_id,
                    old(self)@.arrays[arr_id].drop_last(),
                ),
                Err(e) => e == JsonError::EmptyArray && old(self)@.arrays[arr_id].len() == 0
                    && final(self)@ == old(self)@,
            },
    {
        let mut r = Err(JsonError::EmptyArray);
        match self.take_array(arr_id) {
            Some(mut items) => {
                let ghost before = items@;
                match items.pop() {
                    Some(v) => {
                        assert(items_of(items@) =~= items_of(before).drop_last());
                        r = Ok(v);
                    },
                    None => {},
                }
                self.put_array(arr_id, items);
            },
            None => {},
        }
        proof {
            if r is Ok {
                assert(self@.arrays =~= old(self)@.arrays.insert(
                    arr_id,
                    old(self)@.arrays[arr_id].drop_last(),
                ));
            } else {
                assert(self@.arrays =~= old(self)@.arrays);
            }
        }
        r
    }

    /// Takes the item at `idx` of the array `arr_id` out and returns it; the
    /// items behind it move up. What it owns stays in the tables: the caller
    /// holds the value now.
    pub fn array_remove(&mut self, arr_id: u64, idx: usize) -> (r: Result<JsonValue, JsonError>)
        requires
            old(self).wf(),
            old(self)@.arrays.contains_key(arr_id),
        ensures
            final(self).wf(),
            match r {
                Ok(v) => idx < old(self)@.arrays[arr_id].len() && v@ == old(
                    self,
                )@.arrays[arr_id][idx as int] && final(self)@ == old(self)@.with_items(
                    arr_id,
                    old(self)@.arrays[arr_id].remove(idx as int),
                ),
                Err(e) => e == JsonError::IndexOutOfRange && idx >= old(self)@.arrays[arr_id].len()
                    && final(self)@ == old(self)@,
            },
    {
        let mut r = Err(JsonError::IndexOutOfRange);
        match self.take_array(arr_id) {
            Some(mut items) => {
                let ghost before = items@;
                if idx < items.len() {
                    let v = items.remove(idx);
                    assert(items_of(items@) =~= items_of(before).remove(idx as int));
                    r = Ok(v);
                }
                self.put_array(arr_id, items);
            },
            None => {},
        }
        proof {
            if r is Ok {
                assert(self@.arrays =~= old(self)@.arrays.insert(
                    arr_id,
                    old(self)@.arrays[arr_id].remove(idx as int),
                ));
            } else {
                assert(self@.arrays =~= old(self)@.arrays);
            }
        }
        r
    }

    /// The last item of the array `arr_id`.
    pub fn array_top(&self, arr_id: u64) -> (r: Result<&JsonValue, JsonError>)
        requires
            self@.arrays.contains_key(arr_id),
        ensures
            match r {
                Ok(v) => self@.arrays[arr_id].len() > 0 && v@ == self@.arrays[arr_id].last(),
                Err(e) => e == JsonError::EmptyArray && self@.arrays[arr_id].len() == 0,
            },
    {
        match self.array(arr_id) {
            Some(items) => {
                if items.len() == 0 {
                    Err(JsonError::EmptyArray)
                } else {
                    Ok(&items[items.len() - 1])
                }
            },
            None => Err(JsonError::EmptyArray),
        }
    }

    /// The item at `idx` of the array `arr_id`.
    pub fn array_at(&self, arr_id: u64, idx: usize) -> (r: Result<&JsonValue, JsonError>)
        requires
            self@.arrays.contains_key(arr_id),
        ensures
            match r {
                Ok(v) => idx < self@.arrays[arr_id].len() && v@ == self@.arrays[arr_id][idx as int],
                Err(e) => e == JsonError::IndexOutOfRange && idx >= self@.arrays[arr_id].len(),
            },
    {
        match self.array(arr_id) {
            Some(items) => {
                if idx >= items.len() {
                    Err(JsonError::IndexOutOfRange)
                } else {
                    Ok(&items[idx])
                }
            },
            None => Err(JsonError::IndexOutOfRange),
        }
    }

    /// Whether the value under `key` in the object `obj_id` is null.
    pub fn is_null(&self, obj_id: u64, key: String) -> (r: Result<bool, JsonError>)
        requires
            self.wf(),
            self@.objects.contains_key(obj_id),
        ensures
            match r {
                Ok(b) => self@.contains(obj_id, key@) && b == (self@.get(obj_id, key@) is Null),
                Err(e) => e == JsonError::KeyNotFound && !self@.contains(obj_id, key@),
            },
    {
        match self.get_val(obj_id, &key) {
            Ok(v) => {
                match v.decode() {
                    Value::Null => Ok(true),
                    _ => Ok(false),
                }
            },
            Err(e) => Err(e),
        }
    }

    /// Takes the pair with the key `key` out of the object `obj_id` and
    /// releases its value with everything that value owns.
    pub fn erase(&mut self, obj_id: u64, key: String) -> (r: Result<(), JsonError>)
        requires
            old(self).wf(),
            old(self)@.objects.contains_key(obj_id),
        ensures
            final(self).wf(),
            final(self)@.same_counters(old(self)@),
            match r {
                Ok(_) => old(self)@.contains(obj_id, key@) && final(self)@ == old(self)@.erase(
                    obj_id,
                    key@,
                ),
                Err(e) => e == JsonError::KeyNotFound && !old(self)@.contains(obj_id, key@)
                    && final(self)@ == old(self)@,
            },
    {
        if self.erase_pair(obj_id, &key) {
            Ok(())
        } else {
            Err(JsonError::KeyNotFound)
        }
    }
}

} // verus!
