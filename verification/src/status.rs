//! How requests are refused.
use vstd::prelude::*;
use vstd::string::StringExecFns;

verus! {

/// Why a request is refused, in the terms of the protocol.
#[derive(Debug, Clone, Copy, PartialEq, Eq, Structural)]
pub enum StatusCode {
    Unknown,
    InvalidArgument,
    ResourceExhausted,
    OutOfRange,
    Unimplemented,
    Internal,
    Unavailable,
    Unauthenticated,
}

/// A refusal.
#[derive(Debug)]
pub struct Status {
    pub code: StatusCode,
    pub message: String,
}

impl Status {
    /// The refusal has this code and this text.
    pub open spec fn says(self, code: StatusCode, text: Seq<char>) -> bool {
        self.code == code && self.message@ == text
    }

    /// A refusal with a fixed text.
    pub fn new(code: StatusCode, text: &str) -> (status: Self)
        ensures
            status.says(code, text@),
    {
        Status { code, message: String::from_str(text) }
    }
}

} // verus!
