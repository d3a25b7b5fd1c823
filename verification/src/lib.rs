//! An in-memory JSON document held in id-indexed tables, with a parser for a
//! JSON superset (comments, radix-prefixed integers, suffixed floats) and a
//! serializer producing compact or indented strict JSON.
//!
//! Floating-point numbers are carried as their 64-bit IEEE patterns: the
//! library stores and compares them, and leaves arithmetic on them and their
//! decimal rendering to the host.
//!
//! `value`, `ordered`, `model` and `context` hold the document; `lexer`,
//! `number` and `parser` read text; `text` and `serializer` write it. `tree`,
//! `reading` and `rebuilding` carry the proofs about reading what was
//! written, and `laws` states what holds of the whole.
pub mod context;
pub mod error;
pub mod laws;
pub mod lexer;
pub mod model;
pub mod number;
pub mod ordered;
pub mod parser;
pub mod reading;
pub mod rebuilding;
pub mod serializer;
pub mod text;
pub mod tree;
pub mod value;

pub use context::{JsonContext, JsonError};
pub use model::Doc;
pub use ordered::JsonObject;
pub use value::{JsonType, JsonValue, Value};
