//! JSON log formatting with typed error source chains: each event becomes one
//! line holding a JSON object with its time, level, target, fields and spans, and
//! a typed error field carries the messages of its sources.
pub mod event;
pub mod fields;
pub mod json;
pub mod read;
pub mod setup;
pub mod text;

pub use event::{ErrorJsonFormat, EventRecord, SpanRecord};
pub use fields::{ErrorJsonFields, ErrorJsonVisitor, FieldRecord, FormatError};
pub use json::{JsonObject, JsonValue};
