//! The options of `SET`, read from the tokens that follow the key and the
//! value.
use crate::decimal::{read_unsigned, unsigned_value};
use crate::storage_result::{StorageError, StorageErrorView, StorageResult};
use crate::text::{eq_ignore_case, join_words, joined, same_ignoring_case, texts};
use vstd::prelude::*;
use vstd::utf8::encode_utf8;

verus! {

/// A time to live, counted from the moment of the `SET`.
#[derive(Debug, PartialEq, Eq, Structural, Clone, Copy)]
pub enum KeyExpiry {
    /// Seconds.
    EX(u64),
    /// Milliseconds.
    PX(u64),
}

/// A condition on the key's presence. No command reads it yet.
#[derive(Debug, PartialEq, Eq, Structural, Clone, Copy)]
pub enum KeyExistence {
    NX,
    XX,
}

/// The options of one `SET`.
#[derive(Debug, PartialEq, Eq, Structural, Clone, Copy)]
pub struct SetArgs {
    pub expiry: Option<KeyExpiry>,
    /// Reserved; always `None` in what [`parse_set_arguments`] returns.
    pub existence: Option<KeyExistence>,
    /// Reserved; always `false` in what [`parse_set_arguments`] returns.
    pub get: bool,
}

impl SetArgs {
    /// The options of a plain `SET`: no expiry.
    pub fn new() -> (r: Self)
        ensures
            r == SetArgs::plain(),
    {
        SetArgs { expiry: None, existence: None, get: false }
    }

    /// The options of a plain `SET`.
    pub open spec fn plain() -> SetArgs {
        SetArgs { expiry: None, existence: None, get: false }
    }

    /// The options that carry nothing but the expiry `expiry`.
    pub open spec fn expiring(expiry: KeyExpiry) -> SetArgs {
        SetArgs { expiry: Some(expiry), existence: None, get: false }
    }
}

/// What the tokens `arguments` ask for: nothing, or one expiry directive,
/// which is `EX` or `PX` in either case followed by an unsigned 64-bit
/// decimal. Any other run of tokens asks for nothing that is understood.
pub open spec fn set_options(arguments: Seq<Seq<char>>) -> Option<SetArgs> {
    if arguments.len() == 0 {
        Some(SetArgs::plain())
    } else if arguments.len() == 2 && same_ignoring_case(arguments[0], "ex"@) {
        match unsigned_value(encode_utf8(arguments[1])) {
            Some(seconds) => Some(SetArgs::expiring(KeyExpiry::EX(seconds as u64))),
            None => None,
        }
    } else if arguments.len() == 2 && same_ignoring_case(arguments[0], "px"@) {
        match unsigned_value(encode_utf8(arguments[1])) {
            Some(millis) => Some(SetArgs::expiring(KeyExpiry::PX(millis as u64))),
            None => None,
        }
    } else {
        None
    }
}

/// Reads the options of a `SET` from the tokens behind its key and value.
/// Tokens that are not understood are a syntax error that carries them all,
/// joined by spaces.
pub fn parse_set_arguments(arguments: &Vec<String>) -> (r: StorageResult<SetArgs>)
    ensures
        match r {
            Ok(args) => set_options(texts(arguments@)) == Some(args),
            Err(e) => set_options(texts(arguments@)) is None && e@
                == StorageErrorView::CommandSyntaxError(joined(texts(arguments@))),
        },
{
    if arguments.len() == 0 {
        return Ok(SetArgs::new());
    }
    if arguments.len() == 2 {
        let seconds = eq_ignore_case(arguments[0].as_str(), "ex");
        let millis = eq_ignore_case(arguments[0].as_str(), "px");
        if seconds || millis {
            match read_unsigned(arguments[1].as_str().as_bytes()) {
                Some(amount) => {
                    let expiry = if seconds {
                        KeyExpiry::EX(amount)
                    } else {
                        KeyExpiry::PX(amount)
                    };
                    return Ok(SetArgs { expiry: Some(expiry), existence: None, get: false });
                },
                None => {},
            }
        }
    }
    Err(StorageError::CommandSyntaxError(join_words(arguments)))
}

} // verus!
