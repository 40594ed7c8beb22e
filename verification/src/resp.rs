//! The error taxonomy shared by the codec: a closed set of parse-failure
//! kinds, each wrapping a human-readable message.
use vstd::prelude::*;

pub mod buffer;
pub mod laws;
pub mod types;

verus! {

/// A parse failure. Each variant carries a descriptive message; the message
/// is the sole diagnostic (no codes, no chaining).
#[derive(Debug)]
pub enum RespError {
    InvalidBulkString(String),
    InvalidSimpleString(String),
    Other(String),
}

/// The mathematical image of a [`RespError`]: the same variant over the
/// message's characters.
#[verifier::ext_equal]
pub enum RespErrVal {
    InvalidBulkString(Seq<char>),
    InvalidSimpleString(Seq<char>),
    Other(Seq<char>),
}

impl View for RespError {
    type V = RespErrVal;

    open spec fn view(&self) -> RespErrVal {
        match self {
            RespError::InvalidBulkString(m) => RespErrVal::InvalidBulkString(m@),
            RespError::InvalidSimpleString(m) => RespErrVal::InvalidSimpleString(m@),
            RespError::Other(m) => RespErrVal::Other(m@),
        }
    }
}

/// The message an error carries, independent of its variant.
pub open spec fn spec_message(e: RespErrVal) -> Seq<char> {
    match e {
        RespErrVal::InvalidBulkString(m) => m,
        RespErrVal::InvalidSimpleString(m) => m,
        RespErrVal::Other(m) => m,
    }
}

impl RespError {
    /// The wrapped message, forwarded verbatim.
    pub fn message(&self) -> (r: &String)
        ensures
            r@ == spec_message(self@),
    {
        match self {
            RespError::InvalidBulkString(m) => m,
            RespError::InvalidSimpleString(m) => m,
            RespError::Other(m) => m,
        }
    }
}

} // verus!
