//! A streaming parser for a small structured data format: JSON-like values
//! with calendar dates and RFC 3339 date-times, quoted, literal and dedent
//! strings, comments, and doc comments attached to the values below them.
//!
//! Bytes go through a UTF-8 decoder into a lexer, a state machine that
//! yields one token per step and can be fed its input in pieces; a builder
//! turns the tokens into a document tree.
use vstd::prelude::*;

pub mod datetime;
pub mod document;
pub mod encoding;
pub mod error;
pub mod number;
pub mod parser;
pub mod peek;
pub mod scan;
pub mod roundtrip;
pub mod schema;
pub mod streaming;
pub mod value;

pub use datetime::{Date, DateTime};
pub use document::parse_document;
pub use encoding::Utf8Decoder;
pub use error::{located_err, Error, Located};
pub use number::{Fixed, Number};
pub use parser::{ComplexKind, Expect, Lexed, Lexer, SimpleValue, Token};
pub use peek::Peek;
pub use schema::ValueType;
pub use value::{Builder, Document, DocumentedProperty, MaybeLiteralString, Value, ValueString};

verus! {

} // verus!
