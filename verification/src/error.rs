//! The engine's error: a status code and a message.

use vstd::prelude::*;

verus! {

/// The class of an engine failure.
#[derive(Debug, Clone, Copy, PartialEq, Eq, Structural)]
pub enum Code {
    InvalidArgument,
    CorruptObject,
    Unsupported,
    Internal,
}

/// An engine failure: its class and a human-readable message.
#[derive(Debug)]
pub struct LoomError {
    pub code: Code,
    pub message: String,
}

impl LoomError {
    /// A failure of class `code` with message `message`.
    pub fn new(code: Code, message: String) -> (r: LoomError)
        ensures
            r.code == code,
            r.message@ == message@,
    {
        LoomError { code, message }
    }

    /// An `InvalidArgument` failure with the given message.
    pub fn invalid(message: &str) -> (r: LoomError)
        ensures
            r.code == Code::InvalidArgument,
            r.message@ == message@,
    {
        LoomError { code: Code::InvalidArgument, message: String::from_str(message) }
    }

    /// A `CorruptObject` failure with the given message.
    pub fn corrupt(message: &str) -> (r: LoomError)
        ensures
            r.code == Code::CorruptObject,
            r.message@ == message@,
    {
        LoomError { code: Code::CorruptObject, message: String::from_str(message) }
    }
}

} // verus!
