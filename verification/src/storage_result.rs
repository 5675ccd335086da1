//! Errors of the storage engine and of the command dispatcher.
use vstd::prelude::*;
use vstd::string::StringExecFns;

verus! {

/// Why a request was not carried out.
#[derive(Debug, PartialEq)]
pub enum StorageError {
    /// The request is not an array of bulk strings that starts with a command
    /// name.
    IncorrectRequest,
    /// Exclusive access to the storage could not be had.
    StorageUnavailable,
    /// The engine has no command of this name.
    CommandNotAvailable(String),
    /// The command has the wrong number of arguments or an argument that
    /// cannot be read; carries the tokens at fault, joined by spaces.
    CommandSyntaxError(String),
}

/// The mathematical content of a [`StorageError`].
pub enum StorageErrorView {
    IncorrectRequest,
    StorageUnavailable,
    CommandNotAvailable(Seq<char>),
    CommandSyntaxError(Seq<char>),
}

impl View for StorageError {
    type V = StorageErrorView;

    open spec fn view(&self) -> StorageErrorView {
        match self {
            StorageError::IncorrectRequest => StorageErrorView::IncorrectRequest,
            StorageError::StorageUnavailable => StorageErrorView::StorageUnavailable,
            StorageError::CommandNotAvailable(name) => StorageErrorView::CommandNotAvailable(
                name@,
            ),
            StorageError::CommandSyntaxError(input) => StorageErrorView::CommandSyntaxError(
                input@,
            ),
        }
    }
}

impl StorageError {
    /// The error in words.
    pub open spec fn message_text(self) -> Seq<char> {
        match self@ {
            StorageErrorView::IncorrectRequest => "The client sent an incorrect request!"@,
            StorageErrorView::StorageUnavailable => "The storage is currently unavailable!"@,
            StorageErrorView::CommandNotAvailable(name) => "The requested command `"@ + name
                + "` is not available!"@,
            StorageErrorView::CommandSyntaxError(input) => "Syntax error while processing `"@
                + input + "`!"@,
        }
    }

    /// Puts the error in words.
    pub fn message(&self) -> (r: String)
        ensures
            r@ == self.message_text(),
    {
        match self {
            StorageError::IncorrectRequest => "The client sent an incorrect request!".to_string(),
            StorageError::StorageUnavailable => "The storage is currently unavailable!".to_string(),
            StorageError::CommandNotAvailable(name) => "The requested command `".to_string().concat(
                name.as_str(),
            ).concat("` is not available!"),
            StorageError::CommandSyntaxError(input) => "Syntax error while processing `".to_string(
            ).concat(input.as_str()).concat("`!"),
        }
    }
}

pub type StorageResult<T> = Result<T, StorageError>;

} // verus!
