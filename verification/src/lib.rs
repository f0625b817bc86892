//! Jsync message consumer and producer.

pub mod apply;
pub mod cbor;
pub mod consumer;
pub mod error;
pub mod json;
pub mod laws;
pub mod message;
pub mod patch;
pub mod producer;
pub mod string_map;
pub mod text;

pub use consumer::Consumer;
pub use error::{JsyncError, JsyncErrorKind};
pub use json::{JsonValue, Number};
pub use message::{
    Action, ArrayPatchEdit, ConsumerPathSegmentPool, ConsumerPathSegmentPoolTransaction, Message,
    PathSegment, ProducerPathSegmentPool, ProducerPathSegmentPoolTransaction, StringPatchEdit,
};
pub use producer::Producer;
