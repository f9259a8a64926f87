//! The closed set of terminal outcomes of a compress or decompress call.

use vstd::prelude::*;

verus! {

/// Every terminal outcome of a compress or decompress call.
///
/// `Okay` means success; every other variant is a mutually exclusive failure
/// reason. Each variant corresponds to a distinct signed integer code, given
/// by [`ErrorCode::code`], with `Okay` mapped to zero.
#[derive(Debug, Copy, Clone, PartialEq, Eq, Structural, Hash)]
pub enum ErrorCode {
    /// No error.
    Okay,
    /// An unspecified error.
    Error,
    /// A caller-supplied buffer is too small by sizing policy.
    OutOfMemory,
    /// Reserved for an in-place mode that refuses incompressible data.
    NotCompressible,
    /// An op-code required more input bytes than remained.
    InputOverrun,
    /// The decoded or encoded data would exceed the output capacity.
    OutputOverrun,
    /// A back-reference pointed before the start of the produced output.
    LookbehindOverrun,
    /// The input ended without reaching the end-of-stream marker.
    EofNotFound,
    /// The stream ended but left unread input behind.
    InputNotConsumed,
    /// The requested mode is not implemented.
    NotYetImplemented,
    /// A malformed parameter, such as an undersized workspace.
    InvalidArgument,
    /// A pointer argument was misaligned.
    InvalidAlignment,
    /// The stream ended but left expected output unfilled.
    OutputNotConsumed,
    /// An internal consistency check failed.
    InternalError,
}

impl ErrorCode {
    /// The signed integer value of this outcome; zero exactly on success.
    pub fn code(self) -> (r: i32)
        ensures
            r == self.spec_code(),
            r == 0 <==> self == ErrorCode::Okay,
    {
        match self {
            ErrorCode::Okay => 0,
            ErrorCode::Error => -1,
            ErrorCode::OutOfMemory => -2,
            ErrorCode::NotCompressible => -3,
            ErrorCode::InputOverrun => -4,
            ErrorCode::OutputOverrun => -5,
            ErrorCode::LookbehindOverrun => -6,
            ErrorCode::EofNotFound => -7,
            ErrorCode::InputNotConsumed => -8,
            ErrorCode::NotYetImplemented => -9,
            ErrorCode::InvalidArgument => -10,
            ErrorCode::InvalidAlignment => -11,
            ErrorCode::OutputNotConsumed => -12,
            ErrorCode::InternalError => -99,
        }
    }

    /// The integer code of each outcome, as a specification value.
    pub open spec fn spec_code(self) -> int {
        match self {
            ErrorCode::Okay => 0,
            ErrorCode::Error => -1,
            ErrorCode::OutOfMemory => -2,
            ErrorCode::NotCompressible => -3,
            ErrorCode::InputOverrun => -4,
            ErrorCode::OutputOverrun => -5,
            ErrorCode::LookbehindOverrun => -6,
            ErrorCode::EofNotFound => -7,
            ErrorCode::InputNotConsumed => -8,
            ErrorCode::NotYetImplemented => -9,
            ErrorCode::InvalidArgument => -10,
            ErrorCode::InvalidAlignment => -11,
            ErrorCode::OutputNotConsumed => -12,
            ErrorCode::InternalError => -99,
        }
    }

    /// True exactly on success.
    pub fn is_ok(self) -> (r: bool)
        ensures
            r <==> self == ErrorCode::Okay,
    {
        self == ErrorCode::Okay
    }

    /// A human-readable description of the outcome.
    pub fn reason(self) -> (r: Option<&'static str>)
        ensures
            r matches Some(s) && s@ == self.spec_reason(),
    {
        proof {
            reveal_strlit("no error");
            reveal_strlit("error");
            reveal_strlit("out of memory");
            reveal_strlit("not compressible");
            reveal_strlit("input overrun");
            reveal_strlit("output overrun");
            reveal_strlit("lookbehind overrun");
            reveal_strlit("eof not found");
            reveal_strlit("input not consumed");
            reveal_strlit("not yet implemented");
            reveal_strlit("invalid argument");
            reveal_strlit("invalid alignment");
            reveal_strlit("output not consumed");
            reveal_strlit("internal error");
        }
        match self {
            ErrorCode::Okay => Some("no error"),
            ErrorCode::Error => Some("error"),
            ErrorCode::OutOfMemory => Some("out of memory"),
            ErrorCode::NotCompressible => Some("not compressible"),
            ErrorCode::InputOverrun => Some("input overrun"),
            ErrorCode::OutputOverrun => Some("output overrun"),
            ErrorCode::LookbehindOverrun => Some("lookbehind overrun"),
            ErrorCode::EofNotFound => Some("eof not found"),
            ErrorCode::InputNotConsumed => Some("input not consumed"),
            ErrorCode::NotYetImplemented => Some("not yet implemented"),
            ErrorCode::InvalidArgument => Some("invalid argument"),
            ErrorCode::InvalidAlignment => Some("invalid alignment"),
            ErrorCode::OutputNotConsumed => Some("output not consumed"),
            ErrorCode::InternalError => Some("internal error"),
        }
    }

    /// The description of each outcome, as a specification value.
    pub open spec fn spec_reason(self) -> Seq<char> {
        match self {
            ErrorCode::Okay => "no error"@,
            ErrorCode::Error => "error"@,
            ErrorCode::OutOfMemory => "out of memory"@,
            ErrorCode::NotCompressible => "not compressible"@,
            ErrorCode::InputOverrun => "input overrun"@,
            ErrorCode::OutputOverrun => "output overrun"@,
            ErrorCode::LookbehindOverrun => "lookbehind overrun"@,
            ErrorCode::EofNotFound => "eof not found"@,
            ErrorCode::InputNotConsumed => "input not consumed"@,
            ErrorCode::NotYetImplemented => "not yet implemented"@,
            ErrorCode::InvalidArgument => "invalid argument"@,
            ErrorCode::InvalidAlignment => "invalid alignment"@,
            ErrorCode::OutputNotConsumed => "output not consumed"@,
            ErrorCode::InternalError => "internal error"@,
        }
    }

    /// Success becomes `Ok(())`; every failure is returned as `Err` of itself.
    pub fn into_result(self) -> (r: Result<(), ErrorCode>)
        ensures
            self == ErrorCode::Okay ==> r == Result::<(), ErrorCode>::Ok(()),
            self != ErrorCode::Okay ==> r == Result::<(), ErrorCode>::Err(self),
    {
        if self.is_ok() {
            Ok(())
        } else {
            Err(self)
        }
    }
}

} // verus!
