//! Typed HTTP header engine: a case-insensitive, insertion-ordered header
//! collection, raw multi-line header values, a shared contract for typed
//! header types, preference-weight (quality) values, and conversion to and
//! from the byte-oriented `http::HeaderMap`.

use vstd::prelude::*;

pub mod bytestr;
pub mod common;
pub mod compat;
pub mod header;
pub mod headers;
pub mod language;
pub mod laws;
pub mod quality;
pub mod raw;
pub mod wire;

verus! {

/// Errors produced when parsing or serializing header values.
#[derive(Debug, Clone, Copy, PartialEq, Eq, Structural)]
pub enum HeaderError {
    /// A single-valued header had zero or more than one raw line.
    Cardinality,
    /// A raw line's bytes do not match the header's grammar.
    Grammar,
    /// A typed value cannot be formatted into legal wire bytes.
    Encoding,
}

} // verus!
