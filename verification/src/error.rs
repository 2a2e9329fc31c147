//! What can go wrong.
use vstd::prelude::*;

verus! {

/// The errors of the database.
#[derive(Debug, PartialEq, Eq)]
pub enum KvdbError {
    // Storage errors
    DiskFull,
    CorruptedData,
    InvalidPageId(u64),
    PageNotFound(u64),
    PageOverflow,
    // Transaction errors
    TransactionAlreadyActive,
    NoActiveTransaction,
    TransactionConflict,
    // B-tree errors
    KeyNotFound,
    KeyAlreadyExists,
    NodeFull,
    NodeEmpty,
    // WAL errors
    WalCorrupted,
    WalReplayFailed,
    // I/O errors
    IoError(String),
    // Other
    InvalidArgument(String),
    DatabaseClosed,
}

impl KvdbError {
    /// The error is the rejection of an argument, with this text.
    pub open spec fn is_invalid_argument(self, text: Seq<char>) -> bool {
        self matches KvdbError::InvalidArgument(s) && s@ == text
    }

    /// The error is a failed read or write, with this text.
    pub open spec fn is_io_error(self, text: Seq<char>) -> bool {
        self matches KvdbError::IoError(s) && s@ == text
    }
}

/// The rejection of an argument.
pub fn invalid_argument(text: &str) -> (e: KvdbError)
    ensures
        e.is_invalid_argument(text@),
{
    KvdbError::InvalidArgument(text.to_owned())
}

/// A failed read or write.
pub fn io_error(text: &str) -> (e: KvdbError)
    ensures
        e.is_io_error(text@),
{
    KvdbError::IoError(text.to_owned())
}

pub type Result<T> = std::result::Result<T, KvdbError>;

} // verus!
