//! A single-pass parser for a restricted, flat JSON dialect.
//!
//! The parser reads a document one character at a time and folds each
//! character directly into an in-progress key/value accumulator; no token
//! list or syntax tree is ever built.  The top-level document is one flat
//! object whose values are strings, booleans, unsigned/signed/floating
//! numbers, and arrays of such scalars.
//!
//! The behaviour of every transition is pinned down by the mathematical
//! model in [`model`], and [`laws`] proves the round-trip results: what a
//! parsed document looks like, and that rendering and re-parsing an object
//! reproduces its entries.

pub mod args;
pub mod error;
pub mod laws;
pub mod machine;
pub mod model;
pub mod object;
pub mod render;
pub mod value;

pub use args::is_json_path;
pub use args::parse_args;
pub use error::ParseError;
pub use machine::parse_character;
pub use machine::parse_json;
pub use machine::Array;
pub use machine::JSONPair;
pub use object::Entry;
pub use object::ObjectMap;
pub use object::JSON;
pub use value::Booler;
pub use value::Float;
pub use value::Member;
pub use value::Num;
pub use value::Number;
