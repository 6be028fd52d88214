//! The failure kinds shared by every layer of the store.

use vstd::prelude::*;
use vstd::string::StringExecFns;

verus! {

/// `serde_json::Error`, carried through as an opaque value.
#[verifier::external_type_specification]
#[verifier::external_body]
pub struct ExJsonError(serde_json::Error);

/// Everything that can go wrong in the engine, the service or the client.
#[derive(Debug)]
pub enum KvsError {
    /// An input/output failure, with the operating system's description.
    IOError(String),
    /// `remove` was asked for a key that is not bound.
    KeyNotFound(String),
    /// The log and its metadata disagree, or a record is cut short.
    RecordError(),
    /// A record could not be encoded or decoded.
    SerdeError(serde_json::Error),
    /// The server answered a request with a failure; the text is the server's.
    ServerRespError(String),
    /// A failure inside the alternative embedded engine.
    SledError(String),
    /// The worker pool could not be built; the text says why.
    RayonBuilderError(String),
    /// An indexed position held something other than a `Set` record.
    Unknown,
}

/// The text form of a `serde_json::Error`, as its `Display` impl writes it.
/// Nothing is claimed about the text.
#[verifier::external_body]
fn json_error_text(e: &serde_json::Error) -> (text: String) {
    e.to_string()
}

impl KvsError {
    /// The text of the error, where the store decides it. The text of an
    /// error that wraps another library's error is that library's.
    pub open spec fn text(self) -> Option<Seq<char>> {
        match self {
            KvsError::IOError(s) => Some(s@),
            KvsError::KeyNotFound(key) => Some("the key `"@ + key@ + "` is not exist"@),
            KvsError::RecordError() => Some("record have error"@),
            KvsError::SerdeError(_) => None,
            KvsError::ServerRespError(s) => Some(
                "failed to exec command, server return error: `"@ + s@ + "`"@,
            ),
            KvsError::SledError(s) => Some(s@),
            KvsError::RayonBuilderError(s) => Some(s@),
            KvsError::Unknown => Some("unknown error"@),
        }
    }

    /// The human-readable form of the error, as sent to clients.
    pub fn message(&self) -> (out: String)
        ensures
            self.text() matches Some(text) ==> out@ == text,
    {
        match self {
            KvsError::IOError(s) => s.clone(),
            KvsError::KeyNotFound(key) => {
                let mut out = String::from_str("the key `");
                out.append(key.as_str());
                out.append("` is not exist");
                out
            },
            KvsError::RecordError() => String::from_str("record have error"),
            KvsError::SerdeError(e) => json_error_text(e),
            KvsError::ServerRespError(s) => {
                let mut out = String::from_str("failed to exec command, server return error: `");
                out.append(s.as_str());
                out.append("`");
                out
            },
            KvsError::SledError(s) => s.clone(),
            KvsError::RayonBuilderError(s) => s.clone(),
            KvsError::Unknown => String::from_str("unknown error"),
        }
    }
}

} // verus!
