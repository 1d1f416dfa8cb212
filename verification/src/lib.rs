//! Schema-driven tagging of image files and a deterministic, invertible
//! filename codec.
//!
//! A schema describes categories of tags with cardinality requirements.
//! It can be written in a small configuration language (parsed and type
//! checked here) or assembled from a plain declarative form; either way it
//! is validated before use. A tag selection is serialized into a filename
//! and a filename is parsed back into the selection.

pub mod config;
pub mod error;
pub mod expr;
pub mod filename;
pub mod parse;
pub mod roundtrip;
pub mod salt;
pub mod schema;
pub mod state;
pub mod text;
pub mod typecheck;
pub mod util;
