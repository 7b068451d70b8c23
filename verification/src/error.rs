use vstd::prelude::*;

verus! {

/// The ways in which decoding a SAF dataset can fail.
///
/// A clean end of data is not an error: readers signal it separately.
#[derive(Clone, Copy, Debug, PartialEq, Eq, Structural)]
pub enum SafError {
    /// The leading 8 bytes of a stream differ from the fixed magic tag.
    InvalidMagic,
    /// An index entry name is not valid UTF-8.
    InvalidName,
    /// End of input inside a fixed-size record.
    Truncated,
    /// The three streams of one dataset decode to different header tags.
    MismatchedHeaders,
    /// The name, position and value streams of one dataset disagree in length.
    IncompatibleLengths,
    /// A compressed stream could not be inflated, or could not be emitted.
    BadCompression,
    /// A stored count does not fit the platform's `usize`.
    CountOverflow,
}

} // verus!
