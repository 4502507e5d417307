//! The failure taxonomy of canonicalization. Every error is fatal for the
//! in-flight call: nothing is retried and no partial output is valid.

use vstd::prelude::*;
use vstd::string::StringExecFns;

verus! {

/// The integer widths whose values can leave the safe-integer envelope.
#[derive(Clone, Copy, Debug, PartialEq, Eq, Structural)]
pub enum NumberWidth {
    U64,
    U128,
    I64,
    I128,
}

/// Why a canonicalization call failed.
#[derive(Clone, Copy, Debug, PartialEq, Eq, Structural)]
pub enum Error {
    /// A NaN or an infinity was written: canonical JSON has no
    /// representation for either.
    NonFiniteNumber { infinite: bool },
    /// An integer JSON value whose magnitude exceeds 2^53 - 1; such a value
    /// cannot round-trip through an IEEE-754 double. Integers used as map
    /// keys are exempt.
    IntegerOutOfSafeRange { width: NumberWidth },
    /// A map key that is not string-like or integer-like.
    UnsupportedKeyType,
    /// Key text that is not valid Unicode or contains an unpaired
    /// surrogate, so its UTF-16 comparison form is undefined.
    MalformedKeyText,
    /// The output destination refused bytes.
    UnderlyingSink,
}

impl Error {
    /// The human-readable description of this failure.
    pub fn message(&self) -> (r: String)
        ensures
            (match *self {
                Error::NonFiniteNumber { infinite } => if infinite {
                    r@ == "Infinity is not allowed."@
                } else {
                    r@ == "NaN is not allowed."@
                },
                Error::IntegerOutOfSafeRange { width } => (match width {
                    NumberWidth::U64 => r@ == "u64 must be less than JSON max safe integer"@,
                    NumberWidth::U128 => r@ == "u128 must be less than JSON max safe integer"@,
                    NumberWidth::I64 => r@ == "i64.abs() must be less than JSON max safe integer"@,
                    NumberWidth::I128 => r@
                        == "i128.abs() must be less than JSON max safe integer"@,
                }),
                Error::UnsupportedKeyType => r@ == "key must be a string"@,
                Error::MalformedKeyText => r@
                    == "key must be valid Unicode without unpaired surrogates"@,
                Error::UnderlyingSink => r@ == "the output sink failed to accept bytes"@,
            }),
    {
        match *self {
            Error::NonFiniteNumber { infinite } => {
                if infinite {
                    String::from_str("Infinity is not allowed.")
                } else {
                    String::from_str("NaN is not allowed.")
                }
            },
            Error::IntegerOutOfSafeRange { width } => {
                match width {
                    NumberWidth::U64 => String::from_str(
                        "u64 must be less than JSON max safe integer",
                    ),
                    NumberWidth::U128 => String::from_str(
                        "u128 must be less than JSON max safe integer",
                    ),
                    NumberWidth::I64 => String::from_str(
                        "i64.abs() must be less than JSON max safe integer",
                    ),
                    NumberWidth::I128 => String::from_str(
                        "i128.abs() must be less than JSON max safe integer",
                    ),
                }
            },
            Error::UnsupportedKeyType => String::from_str("key must be a string"),
            Error::MalformedKeyText => String::from_str(
                "key must be valid Unicode without unpaired surrogates",
            ),
            Error::UnderlyingSink => String::from_str("the output sink failed to accept bytes"),
        }
    }
}

} // verus!
