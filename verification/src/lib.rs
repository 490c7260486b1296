//! Typed form data from multipart submissions.
//!
//! A submission is a sequence of named fields.  Each field's bracket-notation
//! name is parsed into a path, the path is matched against a declared `Form`,
//! the field's bytes are checked against the form's limits and turned into a
//! typed content, and the contents of all fields are merged into one nested
//! `Value`.

pub mod buffer;
pub mod consolidate;
pub mod content;
pub mod error;
pub mod name;
pub mod schema;
pub mod shape;
pub mod types;
pub mod upload;
pub mod writer;
