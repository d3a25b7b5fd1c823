//! Values: the tagged handles that containers hold.
use vstd::prelude::*;

verus! {

/// The tag of a value.
#[derive(Debug, Clone, Copy, PartialEq, Eq, Structural)]
pub enum JsonType {
    Int,
    Float,
    Boolean,
    String,
    Object,
    Array,
    Null,
}

/// What a value is: scalars carry their data, composites carry the id under
/// which the owning context keeps their content. A float is its IEEE-754
/// binary64 bit pattern.
#[derive(Debug, Clone, Copy, PartialEq, Eq, Structural)]
pub enum Value {
    Int(i64),
    Float(u64),
    Bool(bool),
    Null,
    Str(u64),
    Object(u64),
    Array(u64),
}

impl Value {
    /// The tag of this value.
    pub open spec fn kind(self) -> JsonType {
        match self {
            Value::Int(_) => JsonType::Int,
            Value::Float(_) => JsonType::Float,
            Value::Bool(_) => JsonType::Boolean,
            Value::Null => JsonType::Null,
            Value::Str(_) => JsonType::String,
            Value::Object(_) => JsonType::Object,
            Value::Array(_) => JsonType::Array,
        }
    }

    /// True for the values that refer to an entry of a context's tables.
    pub open spec fn is_composite(self) -> bool {
        self is Str || self is Object || self is Array
    }
}

/// A value as containers store it and callers hand it over. It cannot be
/// copied, so a composite handed to a container is no longer held by the
/// caller.
#[derive(Debug)]
pub struct JsonValue {
    val: u64,
    typ: JsonType,
}

impl View for JsonValue {
    type V = Value;

    closed spec fn view(&self) -> Value {
        match self.typ {
            JsonType::Int => Value::Int(self.val as i64),
            JsonType::Float => Value::Float(self.val),
            JsonType::Boolean => Value::Bool(self.val != 0),
            JsonType::Null => Value::Null,
            JsonType::String => Value::Str(self.val),
            JsonType::Object => Value::Object(self.val),
            JsonType::Array => Value::Array(self.val),
        }
    }
}

impl JsonValue {
    /// The tag of this value.
    pub fn get_type(&self) -> (t: &JsonType)
        ensures
            *t == self@.kind(),
    {
        &self.typ
    }

    /// Packs a value.
    pub(crate) fn encode(v: Value) -> (r: JsonValue)
        ensures
            r@ == v,
    {
        match v {
            Value::Int(i) => {
                assert((i as u64) as i64 == i) by (bit_vector);
                JsonValue { val: i as u64, typ: JsonType::Int }
            },
            Value::Float(bits) => JsonValue { val: bits, typ: JsonType::Float },
            Value::Bool(b) => JsonValue { val: if b { 1 } else { 0 }, typ: JsonType::Boolean },
            Value::Null => JsonValue { val: 0, typ: JsonType::Null },
            Value::Str(id) => JsonValue { val: id, typ: JsonType::String },
            Value::Object(id) => JsonValue { val: id, typ: JsonType::Object },
            Value::Array(id) => JsonValue { val: id, typ: JsonType::Array },
        }
    }

    /// Unpacks a value.
    pub fn decode(&self) -> (v: Value)
        ensures
            v == self@,
    {
        match self.typ {
            JsonType::Int => Value::Int(self.val as i64),
            JsonType::Float => Value::Float(self.val),
            JsonType::Boolean => Value::Bool(self.val != 0),
            JsonType::Null => Value::Null,
            JsonType::String => Value::Str(self.val),
            JsonType::Object => Value::Object(self.val),
            JsonType::Array => Value::Array(self.val),
        }
    }
}

} // verus!
