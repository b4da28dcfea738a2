//! The errors that the engine reports.
use vstd::prelude::*;

verus! {

/// Errors of the storage engine.
#[derive(Debug, Clone)]
pub enum Error {
    /// An I/O failure, with the system's description of it.
    Io(String),
    /// Stored data failed a consistency check.
    Corruption(String),
    KeyNotFound,
    /// The write-ahead log could not be replayed.
    WalReplayError(String),
    /// A transactional call was made with no transaction open.
    NoActiveTransaction,
    /// The transaction was already committed.
    TransactionAlreadyCommitted,
}

/// The description std gives an unexpected end of input.
pub open spec fn spec_eof_message() -> Seq<char> {
    "failed to fill whole buffer"@
}

/// The I/O error of reading past the end of the input.
pub fn eof_error() -> (e: Error)
    ensures
        e matches Error::Io(m) && m@ == spec_eof_message(),
{
    Error::Io("failed to fill whole buffer".to_owned())
}

impl Error {
    /// The human-readable description of the error.
    pub fn message(&self) -> (r: String)
        ensures
            r@ == match self {
                Error::Io(m) => "IO error: "@ + m@,
                Error::Corruption(m) => "Data corruption: "@ + m@,
                Error::KeyNotFound => "Key not found"@,
                Error::WalReplayError(m) => "WAL replay error: "@ + m@,
                Error::NoActiveTransaction => "No active transaction"@,
                Error::TransactionAlreadyCommitted => "Transaction already committed"@,
            },
    {
        match self {
            Error::Io(m) => {
                let mut r = "IO error: ".to_owned();
                r.append(m.as_str());
                r
            },
            Error::Corruption(m) => {
                let mut r = "Data corruption: ".to_owned();
                r.append(m.as_str());
                r
            },
            Error::KeyNotFound => "Key not found".to_owned(),
            Error::WalReplayError(m) => {
                let mut r = "WAL replay error: ".to_owned();
                r.append(m.as_str());
                r
            },
            Error::NoActiveTransaction => "No active transaction".to_owned(),
            Error::TransactionAlreadyCommitted => "Transaction already committed".to_owned(),
        }
    }
}

} // verus!
