//! The error taxonomy shared by the engine, the server and the client.

use vstd::prelude::*;
use vstd::string::*;

verus! {

/// `Result` with the store's error type.
pub type Result<T> = std::result::Result<T, KvsError>;

/// Everything that can go wrong in the store and around it.
#[derive(Debug, Clone)]
pub enum KvsError {
    /// The store's directory does not exist.
    KvPathNotFoundError,
    /// `remove` was asked to delete a key that holds no value.
    KeyNotFoundError,
    /// A file or a socket failed.
    IoError,
    /// A record or a message could not be encoded or decoded.
    SerdeError,
    /// An error text that a server sent to its client.
    StringError(String),
    /// The text of an error of the wrapped embedded database.
    Sled(String),
    /// The text of an error about bytes that are not UTF-8.
    Utf8(String),
}

/// The text that a server sends when `remove` finds no key.
pub open spec fn key_not_found_text() -> Seq<char> {
    "Key not found"@
}

impl KvsError {
    /// The human-readable text of an error.
    pub open spec fn spec_message(self) -> Seq<char> {
        match self {
            KvsError::KvPathNotFoundError => "Path not found"@,
            KvsError::KeyNotFoundError => key_not_found_text(),
            KvsError::IoError => "IO error"@,
            KvsError::SerdeError => "Serde json error"@,
            KvsError::StringError(s) => s@,
            KvsError::Sled(e) => "sled error: "@ + e@,
            KvsError::Utf8(e) => "UTF-8 error: "@ + e@,
        }
    }

    /// Renders the error as text.
    pub fn message(&self) -> (text: String)
        ensures
            text@ == self.spec_message(),
    {
        match self {
            KvsError::KvPathNotFoundError => String::from_str("Path not found"),
            KvsError::KeyNotFoundError => String::from_str("Key not found"),
            KvsError::IoError => String::from_str("IO error"),
            KvsError::SerdeError => String::from_str("Serde json error"),
            KvsError::StringError(s) => s.clone(),
            KvsError::Sled(e) => String::from_str("sled error: ").concat(e.as_str()),
            KvsError::Utf8(e) => String::from_str("UTF-8 error: ").concat(e.as_str()),
        }
    }
}

} // verus!
