//! Parsers for Internet Message Format (RFC 5322) structured header
//! fields and MIME parameter lists (RFC 2045 / RFC 2231), hardened
//! against hostile input.
//!
//! Every parser is a pure function of its input slice: raw bytes go in,
//! typed and decoded values come out together with the unconsumed
//! remainder of the input.

use vstd::prelude::*;

pub mod charset;
pub mod rfc2047;
pub mod rfc2231;
pub mod rfc3461;
pub mod rfc5322;
pub mod strings;

verus! {

/// Why a parse attempt did not produce a value.
#[derive(Clone, Copy, Debug, PartialEq, Eq, Structural)]
pub enum ParseError {
    /// The input does not match the grammar at the point of failure.
    Malformed,
    /// Comment nesting went past the fixed recursion bound.
    TooDeep,
}

} // verus!
