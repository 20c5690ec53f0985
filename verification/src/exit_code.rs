//! The table of outcome codes that a receipt can carry.

use vstd::prelude::*;

verus! {

/// Outcome of an invocation as it appears in a receipt.
#[derive(Clone, Copy, Debug, PartialEq, Eq, Structural)]
pub enum ExitCode {
    Success,
    SysErrSenderInvalid,
    SysErrSenderStateInvalid,
    SysErrInvalidMethod,
    SysErrReserved1,
    SysErrInvalidReceiver,
    SysErrInsufficientFunds,
    SysErrOutOfGas,
    SysErrForbidden,
    SysErrIllegalActor,
    SysErrIllegalArgument,
    SysErrReserved2,
    SysErrReserved3,
    SysErrReserved4,
    SysErrReserved5,
    SysErrReserved6,
    ErrIllegalArgument,
    ErrNotFound,
    ErrForbidden,
    ErrInsufficientFunds,
    ErrIllegalState,
    ErrSerialization,
    ErrTooManyProveCommits,
    /// Reserved for invocations that ended in a fatal error; never a code
    /// that a guest chose.
    ErrPlaceholder,
}

impl ExitCode {
    /// The number that stands for this code on the wire.
    pub open spec fn spec_value(self) -> u32 {
        match self {
            ExitCode::Success => 0,
            ExitCode::SysErrSenderInvalid => 1,
            ExitCode::SysErrSenderStateInvalid => 2,
            ExitCode::SysErrInvalidMethod => 3,
            ExitCode::SysErrReserved1 => 4,
            ExitCode::SysErrInvalidReceiver => 5,
            ExitCode::SysErrInsufficientFunds => 6,
            ExitCode::SysErrOutOfGas => 7,
            ExitCode::SysErrForbidden => 8,
            ExitCode::SysErrIllegalActor => 9,
            ExitCode::SysErrIllegalArgument => 10,
            ExitCode::SysErrReserved2 => 11,
            ExitCode::SysErrReserved3 => 12,
            ExitCode::SysErrReserved4 => 13,
            ExitCode::SysErrReserved5 => 14,
            ExitCode::SysErrReserved6 => 15,
            ExitCode::ErrIllegalArgument => 16,
            ExitCode::ErrNotFound => 17,
            ExitCode::ErrForbidden => 18,
            ExitCode::ErrInsufficientFunds => 19,
            ExitCode::ErrIllegalState => 20,
            ExitCode::ErrSerialization => 21,
            ExitCode::ErrTooManyProveCommits => 32,
            ExitCode::ErrPlaceholder => 1000,
        }
    }

    /// The number that stands for this code on the wire.
    pub fn value(self) -> (v: u32)
        ensures
            v == self.spec_value(),
    {
        match self {
            ExitCode::Success => 0,
            ExitCode::SysErrSenderInvalid => 1,
            ExitCode::SysErrSenderStateInvalid => 2,
            ExitCode::SysErrInvalidMethod => 3,
            ExitCode::SysErrReserved1 => 4,
            ExitCode::SysErrInvalidReceiver => 5,
            ExitCode::SysErrInsufficientFunds => 6,
            ExitCode::SysErrOutOfGas => 7,
            ExitCode::SysErrForbidden => 8,
            ExitCode::SysErrIllegalActor => 9,
            ExitCode::SysErrIllegalArgument => 10,
            ExitCode::SysErrReserved2 => 11,
            ExitCode::SysErrReserved3 => 12,
            ExitCode::SysErrReserved4 => 13,
            ExitCode::SysErrReserved5 => 14,
            ExitCode::SysErrReserved6 => 15,
            ExitCode::ErrIllegalArgument => 16,
            ExitCode::ErrNotFound => 17,
            ExitCode::ErrForbidden => 18,
            ExitCode::ErrInsufficientFunds => 19,
            ExitCode::ErrIllegalState => 20,
            ExitCode::ErrSerialization => 21,
            ExitCode::ErrTooManyProveCommits => 32,
            ExitCode::ErrPlaceholder => 1000,
        }
    }

    /// Whether this is the code of a successful invocation.
    pub fn is_success(self) -> (b: bool)
        ensures
            b == (self == ExitCode::Success),
            b == (self.spec_value() == 0),
    {
        self == ExitCode::Success
    }

    /// Distinct codes have distinct numbers, so a receipt's number names one
    /// code; zero is the number of success alone, and the number reserved for
    /// fatal errors is that of no other code.
    pub proof fn lemma_value_names_one_code(a: ExitCode, b: ExitCode)
        ensures
            a.spec_value() == b.spec_value() ==> a == b,
            a.spec_value() == 0 <==> a == ExitCode::Success,
            a.spec_value() == 1000 <==> a == ExitCode::ErrPlaceholder,
    {
    }
}

} // verus!
