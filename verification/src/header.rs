//! The contract every typed header implements: a canonical case-insensitive
//! name, a parse routine from raw wire lines, and a deterministic format
//! routine back to wire lines.

use vstd::prelude::*;
use vstd::string::StringSliceAdditionalSpecFns;

use crate::raw::Raw;
use crate::HeaderError;

verus! {

/// A typed header.
///
/// Each implementation fixes, at the specification level, its canonical name
/// (`spec_name`), the mathematical value its raw lines parse to
/// (`spec_parse`, over the type's view), and the wire lines a value formats
/// to (`spec_format`). The executable `parse_header` and `fmt_header` are
/// proved to agree with those functions, so formatting is deterministic by
/// construction: values with the same view always format to the same bytes.
///
/// Single-valued headers parse successfully only from exactly one raw line;
/// list-valued headers accept zero lines as an empty list. A list-valued
/// header with zero elements formats to zero lines, not to an empty line.
pub trait Header: View + Sized {
    /// The canonical header name, as bytes, in its canonical case.
    spec fn spec_name() -> Seq<u8>;

    /// The view of the typed value that the given raw lines parse to, or
    /// `None` when the lines do not match this header's grammar.
    spec fn spec_parse(lines: Seq<Seq<u8>>) -> Option<Self::V>;

    /// The raw wire lines a value with view `v` formats to.
    spec fn spec_format(v: Self::V) -> Seq<Seq<u8>>;

    /// The canonical header name.
    fn header_name() -> (r: &'static str)
        ensures
            r.spec_bytes() == Self::spec_name(),
    ;

    /// Parses a typed value from the raw lines under this header's name.
    fn parse_header(raw: &Raw) -> (r: Result<Self, HeaderError>)
        ensures
            match r {
                Ok(v) => Self::spec_parse(raw@) == Some(v@),
                Err(_) => Self::spec_parse(raw@) is None,
            },
    ;

    /// Formats this value to its raw wire lines.
    fn fmt_header(&self) -> (r: Raw)
        ensures
            r@ == Self::spec_format(self@),
    ;
}

} // verus!
