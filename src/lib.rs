//! A JSON decoder: a recursive-descent parser over a character cursor,
//! proved to decode exactly what the grammar in `grammar` describes, and a
//! renderer back to JSON text.
pub mod error;
pub mod grammar;
pub mod laws;
pub mod parser;
pub mod render;
pub mod roundtrip;
pub mod value;

pub use error::{ErrorKind, ParseError};
pub use parser::{parse, Parser, DEFAULT_MAX_DEPTH};
pub use value::Value;
