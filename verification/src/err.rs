//! The error taxonomy of the store: key-not-found conditions, file and
//! serialization failures, and free-form failures raised by front ends.

use vstd::prelude::*;

verus! {

/// Everything that can go wrong inside the store or its front ends.
///
/// `KeyNotFound` is the only variant with protocol-level meaning: the
/// front ends render it as a non-fatal "not found" outcome. The `File*`
/// variants report I/O failures of the backing log, and the `Command*`
/// variants report records that could not be encoded or decoded.
#[derive(Debug, Clone)]
pub enum Error {
    /// A key was asked for or removed that the store does not hold.
    KeyNotFound { key: String },
    /// The backing file could not be created.
    FileInit { path: String },
    /// The backing file could not be opened.
    FileOpen { path: String },
    /// The backing file could not be read.
    FileRead { path: String },
    /// The backing file could not be written.
    FileWrite { path: String },
    /// A record could not be written as a new log line.
    CommandWriteLine { line: String },
    /// A command could not be serialized (a `Get` was handed to the codec).
    CommandSerialize { command: String },
    /// A log line could not be decoded into a command.
    CommandDeserialize { line: String },
    /// A failure with no more precise classification.
    Whatever { message: String },
}

impl Error {
    /// A human-readable description; the `Whatever` variant carries its
    /// message verbatim.
    pub fn message(&self) -> (r: String)
        ensures
            self matches Error::Whatever { message } ==> r@ == message@,
            self matches Error::KeyNotFound { key } ==> r@ == "Key not found: "@ + key@,
    {
        match self {
            Error::KeyNotFound { key } => String::from_str("Key not found: ").concat(
                key.as_str(),
            ),
            Error::FileInit { path } => String::from_str("Couldn't initialize file ").concat(
                path.as_str(),
            ),
            Error::FileOpen { path } => String::from_str("Couldn't open file ").concat(
                path.as_str(),
            ),
            Error::FileRead { path } => String::from_str(
                "Couldn't read content of file at ",
            ).concat(path.as_str()),
            Error::FileWrite { path } => String::from_str("Couldn't write to file at ").concat(
                path.as_str(),
            ),
            Error::CommandWriteLine { line } => String::from_str(
                "Couldn't write command as new line: ",
            ).concat(line.as_str()),
            Error::CommandSerialize { command } => String::from_str(
                "Couldn't serialize command ",
            ).concat(command.as_str()),
            Error::CommandDeserialize { line } => String::from_str(
                "Couldn't deserialize command ",
            ).concat(line.as_str()),
            Error::Whatever { message } => message.clone(),
        }
    }
}

} // verus!
