//! The errors of the FF1 encryption.
use vstd::prelude::*;

verus! {

/// Why an encryption was refused or could not be completed.
#[derive(Debug, PartialEq, Eq, Structural)]
pub enum FF1Error {
    /// The block cipher failed.
    Crypto(),
    /// The input length `n` is outside `minlen..=maxlen`.
    InvalidLength { n: usize },
    /// The radix is outside `2..=65536`.
    InvalidRadix { radix: u32 },
    /// The tweak length `t` exceeds `max_tlen`.
    InvalidTweakLength { t: usize },
    /// `radix^minlen` is below 100.
    ConstraintViolation { radix: u32, minlen: usize },
    /// A number could not be turned into a big integer, or back.
    BigUintConversion,
    /// A number does not fit in the requested count of bytes.
    NumToBytesConversion,
    /// A byte string could not be read as a number.
    BytesToNumConversion,
    /// A number does not fit in the requested count of digits.
    StrLenMismatch,
    /// The block cipher returned fewer than 16 bytes.
    CipherLengthError,
    /// A digit (first field) is not below the radix (second field).
    InvalidDigit(u32, u32),
    /// A character (first field) is not a digit in the radix (second field).
    InvalidCharDigit(char, u32),
}

} // verus!
