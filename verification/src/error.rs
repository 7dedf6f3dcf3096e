use vstd::prelude::*;
use vstd::string::StringExecFns;

verus! {

/// What can go wrong while serving a request.
#[derive(Debug, PartialEq)]
pub enum KvError {
    /// A key that was asked for is not stored.
    NotFound(String),
    /// A frame would be longer than the wire format allows.
    FrameError,
    /// A request that cannot be carried out.
    InvalidCommand(String),
    /// Bytes that do not hold what they should.
    ConvertError(String),
    /// The storage backend failed.
    StorageError(String),
    /// A message could not be encoded.
    EncodeError(String),
    /// A message could not be decoded.
    DecodeError(String),
    /// Reading or writing bytes failed.
    IoError(String),
    /// Anything else.
    Internal(String),
}

impl KvError {
    /// The status code that a response carrying this error has.
    pub open spec fn code(self) -> u32 {
        match self {
            KvError::NotFound(_) => 404,
            KvError::InvalidCommand(_) => 400,
            _ => 500,
        }
    }

    /// The human-readable text of this error.
    pub open spec fn text(self) -> Seq<char> {
        match self {
            KvError::NotFound(s) => "Not found: "@ + s@,
            KvError::FrameError => "Frame is larger than max size"@,
            KvError::InvalidCommand(s) => "Command is invalid: `"@ + s@ + "`"@,
            KvError::ConvertError(s) => "Cannot convert value: "@ + s@,
            KvError::StorageError(s) => "Storage error: "@ + s@,
            KvError::EncodeError(s) => "Failed to encode protobuf message: "@ + s@,
            KvError::DecodeError(s) => "Failed to decode protobuf message: "@ + s@,
            KvError::IoError(s) => "I/O error: "@ + s@,
            KvError::Internal(s) => "Internal error: "@ + s@,
        }
    }

    /// The status code of a response that carries this error.
    pub fn status(&self) -> (r: u32)
        ensures
            r == self.code(),
    {
        match self {
            KvError::NotFound(_) => 404,
            KvError::InvalidCommand(_) => 400,
            _ => 500,
        }
    }

    /// The human-readable text of this error.
    pub fn message(&self) -> (r: String)
        ensures
            r@ == self.text(),
    {
        match self {
            KvError::NotFound(s) => prefixed("Not found: ", s),
            KvError::FrameError => String::from_str("Frame is larger than max size"),
            KvError::InvalidCommand(s) => {
                let mut r = prefixed("Command is invalid: `", s);
                r.append("`");
                r
            },
            KvError::ConvertError(s) => prefixed("Cannot convert value: ", s),
            KvError::StorageError(s) => prefixed("Storage error: ", s),
            KvError::EncodeError(s) => prefixed("Failed to encode protobuf message: ", s),
            KvError::DecodeError(s) => prefixed("Failed to decode protobuf message: ", s),
            KvError::IoError(s) => prefixed("I/O error: ", s),
            KvError::Internal(s) => prefixed("Internal error: ", s),
        }
    }
}

/// `head` followed by `tail`.
fn prefixed(head: &str, tail: &String) -> (r: String)
    ensures
        r@ == head@ + tail@,
{
    let mut r = String::from_str(head);
    r.append(tail.as_str());
    r
}

} // verus!
