//! Why a decode stopped.

use vstd::prelude::*;

verus! {

/// The failure of a decode. A decode that fails returns no partial value.
#[derive(Clone, Copy, Debug, PartialEq, Eq, Structural)]
pub enum ReaderError {
    /// Fewer bytes remain than the next field needs.
    Truncated,
    /// A tag, a count or a bound lies outside its legal range.
    InvalidValue,
    /// An embedded payload is longer than its ceiling allows.
    InvalidSize,
    /// A text is not an even number of hexadecimal digits.
    InvalidHex,
    /// The bytes are well formed but no value of the target type.
    ErrorTryInto,
}

} // verus!
