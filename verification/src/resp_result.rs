//! Errors of the wire codec.
use crate::decimal::{
    decimal_digits, lemma_signed_digits_ascii, signed_digits, write_decimal, write_signed,
};
use crate::resp::ascii_text;
use vstd::prelude::*;
use vstd::string::StringExecFns;
use vstd::utf8::decode_utf8;

verus! {

/// The integer type of a length or count field on the wire.
pub type RESPLength = i32;

/// Why a decode attempt stopped.
#[derive(Debug, PartialEq, Eq, Structural)]
pub enum RESPError {
    /// A line or a body is not valid UTF-8.
    FromUtf8,
    /// The buffer ended early; carries the offset that was reached.
    OutOfBounds(usize),
    /// A length field holds a negative number that has no meaning.
    IncorrectLength(RESPLength),
    /// A length field is not a decimal integer.
    ParseInt,
    /// The byte under the cursor is not the tag that was asked for.
    WrongType,
    /// The byte under the cursor is no known tag.
    Unknown,
}

impl RESPError {
    /// The error in words.
    pub open spec fn message_text(self) -> Seq<char> {
        match self {
            RESPError::FromUtf8 => "Cannot convert from UTF-8"@,
            RESPError::OutOfBounds(index) => "Index out of bounds at index "@ + decode_utf8(
                decimal_digits(index as nat),
            ),
            RESPError::IncorrectLength(length) => "Incorrect Length: "@ + decode_utf8(
                signed_digits(length as int),
            ),
            RESPError::ParseInt => "Cannot parse string into integer"@,
            RESPError::WrongType => "Wrong Prefix for RESP type"@,
            RESPError::Unknown => "Unknown Format for RESP String"@,
        }
    }

    /// Puts the error in words.
    pub fn message(&self) -> (r: String)
        ensures
            r@ == self.message_text(),
    {
        match self {
            RESPError::FromUtf8 => "Cannot convert from UTF-8".to_string(),
            RESPError::OutOfBounds(index) => {
                let mut digits: Vec<u8> = Vec::new();
                write_decimal(&mut digits, *index);
                proof {
                    lemma_signed_digits_ascii(*index as int);
                    assert(digits@ =~= signed_digits(*index as int));
                }
                "Index out of bounds at index ".to_string().concat(ascii_text(digits).as_str())
            },
            RESPError::IncorrectLength(length) => {
                let mut digits: Vec<u8> = Vec::new();
                write_signed(&mut digits, *length);
                proof {
                    lemma_signed_digits_ascii(*length as int);
                    assert(digits@ =~= signed_digits(*length as int));
                }
                "Incorrect Length: ".to_string().concat(ascii_text(digits).as_str())
            },
            RESPError::ParseInt => "Cannot parse string into integer".to_string(),
            RESPError::WrongType => "Wrong Prefix for RESP type".to_string(),
            RESPError::Unknown => "Unknown Format for RESP String".to_string(),
        }
    }
}

pub type RESPResult<T> = Result<T, RESPError>;

} // verus!
