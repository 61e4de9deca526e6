//! A human-writable data-interchange notation with a richer type set than
//! the usual ones — including an executable-function literal — and a
//! bidirectional bridge into an embedded Lua engine, so that stored
//! functions can be compiled and invoked against the live data tree.
//!
//! The parsing pipeline (lexer, grouper, value classifier, record reader),
//! the data model with its exact serializer, and the bridge's path
//! resolution and resynchronization logic are verified against the spec
//! functions in these modules; only the engine calls themselves and two
//! small string primitives are trusted.

pub mod bridge;
pub mod engine;
pub mod errors;
pub mod floats;
pub mod laws;
pub mod lexer;
pub mod model;
pub mod parse;
pub mod serial;
pub mod text;
pub mod value;

pub use errors::BluefoxError;
pub use serial::{BluefoxDeserialize, BluefoxSerialize};
pub use value::{BluefoxData, BluefoxDataType, CBluefoxDataTypes, ValueModel};
