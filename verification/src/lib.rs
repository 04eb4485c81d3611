//! A DER (Distinguished Encoding Rules) decoder for the X.509 certificate
//! fields that a certificate validator needs: booleans, integers, bit
//! strings, times, object identifiers, directory strings, distinguished
//! names and subject-alternative-name lists.
//!
//! Every decoder consumes bytes through a bounds-checked [`reader::Reader`]
//! and either returns a validated value or one of the two error kinds in
//! [`Error`]; none of them panics or reads past the end of its input.

use vstd::prelude::*;

pub mod calendar;
pub mod der;
pub mod name;
pub mod oid;
pub mod reader;
pub mod time;

verus! {

/// The two ways a DER decode can fail.
#[derive(Clone, Copy, Debug, PartialEq, Eq, Structural)]
pub enum Error {
    /// A structural violation of the DER grammar: a wrong tag, a bad or
    /// non-minimal length, trailing or missing bytes, an invalid character,
    /// or a malformed object-identifier encoding.
    BadDER,
    /// A violation specific to the time grammar: a byte outside `'0'..='9'`
    /// in a digit slot, an out-of-range or calendar-impossible field, or a
    /// missing `'Z'` suffix.
    BadDERTime,
}

} // verus!
