//! The error type shared by the engine, the server and the client.

use vstd::prelude::*;
use vstd::std_specs::convert::FromSpecImpl;
use vstd::string::StringExecFns;

verus! {

/// Everything that can go wrong in the store. Failures of the file system, of
/// the JSON reader and of text decoding are carried as their messages.
#[derive(Debug, Clone, PartialEq, Eq)]
pub enum KvsError {
    /// A segment could not be opened, read or extended.
    Io(String),
    /// A record or a message could not be parsed.
    Serde(String),
    /// The key to remove is not in the store.
    KeyNotFound,
    /// The index points at a record that stores no value.
    UnexceptedCommandType,
    /// An error reported by the server, as text.
    StringError(String),
    /// A key or value was not valid UTF-8.
    Utf8(String),
    /// An error of the alternative storage engine.
    Sled(String),
}

impl From<serde_json::Error> for KvsError {
    /// A failure of the JSON reader becomes `Serde`, carrying the reader's
    /// message.
    fn from(value: serde_json::Error) -> (r: Self)
        ensures
            r is Serde,
    {
        KvsError::Serde(value.to_string())
    }
}

impl FromSpecImpl<serde_json::Error> for KvsError {
    /// The message is whatever the reader prints, so the conversion is pinned
    /// down by the `ensures` of `from` and not by a spec function.
    open spec fn obeys_from_spec() -> bool {
        false
    }

    open spec fn from_spec(v: serde_json::Error) -> Self {
        KvsError::Serde(arbitrary())
    }
}

/// `std::io::Error`, carried through as it is.
#[verifier::external_type_specification]
#[verifier::external_body]
pub struct ExIoError(std::io::Error);

/// `std::string::FromUtf8Error`, carried through as it is.
#[verifier::external_type_specification]
#[verifier::external_body]
pub struct ExFromUtf8Error(std::string::FromUtf8Error);

impl From<std::io::Error> for KvsError {
    /// A failure of a file or a socket becomes `Io`, carrying its message.
    fn from(value: std::io::Error) -> (r: Self)
        ensures
            r is Io,
    {
        KvsError::Io(value.to_string())
    }
}

impl FromSpecImpl<std::io::Error> for KvsError {
    /// The message is whatever the system prints, so the conversion is pinned
    /// down by the `ensures` of `from` and not by a spec function.
    open spec fn obeys_from_spec() -> bool {
        false
    }

    open spec fn from_spec(v: std::io::Error) -> Self {
        KvsError::Io(arbitrary())
    }
}

impl From<std::string::FromUtf8Error> for KvsError {
    /// Bytes that are no UTF-8 become `Utf8`, carrying the decoder's message.
    fn from(value: std::string::FromUtf8Error) -> (r: Self)
        ensures
            r is Utf8,
    {
        KvsError::Utf8(value.to_string())
    }
}

impl FromSpecImpl<std::string::FromUtf8Error> for KvsError {
    /// The message is whatever the decoder prints, so the conversion is
    /// pinned down by the `ensures` of `from` and not by a spec function.
    open spec fn obeys_from_spec() -> bool {
        false
    }

    open spec fn from_spec(v: std::string::FromUtf8Error) -> Self {
        KvsError::Utf8(arbitrary())
    }
}

/// The text of an error, as it is shown to a user and sent to a client.
pub open spec fn message_of(e: KvsError) -> Seq<char> {
    match e {
        KvsError::Io(m) => m@,
        KvsError::Serde(m) => m@,
        KvsError::KeyNotFound => "Key not found"@,
        KvsError::UnexceptedCommandType => "Unexcepted command type"@,
        KvsError::StringError(m) => m@,
        KvsError::Utf8(m) => "UTF-8 error: "@ + m@,
        KvsError::Sled(m) => "sled error: "@ + m@,
    }
}

impl KvsError {
    /// The text of the error.
    pub fn message(&self) -> (text: String)
        ensures
            text@ == message_of(*self),
    {
        match self {
            KvsError::Io(m) => m.clone(),
            KvsError::Serde(m) => m.clone(),
            KvsError::KeyNotFound => "Key not found".to_string(),
            KvsError::UnexceptedCommandType => "Unexcepted command type".to_string(),
            KvsError::StringError(m) => m.clone(),
            KvsError::Utf8(m) => "UTF-8 error: ".to_string().concat(m.as_str()),
            KvsError::Sled(m) => "sled error: ".to_string().concat(m.as_str()),
        }
    }
}

} // verus!
