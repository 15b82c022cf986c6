use vstd::prelude::*;

verus! {

/// The error taxonomy of the codec. Every encode or decode failure is
/// terminal for the call in which it occurs: no retry, no partial value.
#[derive(Debug, Clone, Copy, PartialEq, Eq, Structural)]
pub enum TsonError {
    /// Wrong leading tag, wrong version token, unrecognized tag byte,
    /// malformed map key tag, or a string-vector byte count that does not
    /// partition exactly into NUL-terminated strings.
    FormatError,
    /// The byte source was exhausted in the middle of a field.
    TruncatedInput,
    /// An element count (or string-vector byte budget) exceeds
    /// `MAX_LIST_LENGTH`, or the encoded stream would not fit in memory.
    TooLarge,
    /// Reserved for adapter-layer misuse; the codec itself never produces it
    /// for values of the closed `Value` union.
    UnsupportedValue,
    /// A string holds an embedded NUL byte, which the NUL-terminated wire
    /// encoding cannot represent, or a byte run is not valid UTF-8.
    InvalidString,
}

impl TsonError {
    /// A short description of the error, in words.
    pub fn message(&self) -> (r: &'static str)
        ensures
            self is FormatError ==> r@ == "wrong format"@,
            self is TruncatedInput ==> r@ == "truncated input"@,
            self is TooLarge ==> r@ == "list too large"@,
            self is UnsupportedValue ==> r@ == "unsupported value"@,
            self is InvalidString ==> r@ == "bad string"@,
    {
        match self {
            TsonError::FormatError => "wrong format",
            TsonError::TruncatedInput => "truncated input",
            TsonError::TooLarge => "list too large",
            TsonError::UnsupportedValue => "unsupported value",
            TsonError::InvalidString => "bad string",
        }
    }
}

} // verus!
