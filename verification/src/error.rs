use vstd::prelude::*;

verus! {

/// The error values returned by the fallible operations of this crate.
#[derive(Clone, Copy, Debug, PartialEq, Eq, Structural)]
pub enum Error {
    /// Base32 decoding met a character that is neither an alphabet symbol,
    /// one of the accepted aliases, nor the padding marker `=`.
    /// `at_position` is the 0-based index of that character.
    InvalidBase32Character { at_position: usize },
    /// A bounded string was built from more bytes than it may hold.
    ExceedsMaximumLength { requested_length: usize, allowed_length: usize },
    /// A value could not be coerced into a fixed-size hash.
    InvalidHashLength { found: usize },
}

} // verus!
