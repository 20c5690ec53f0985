//! The life of one invocation: created, running, and then either committed
//! with a receipt or aborted by a fatal error.

use crate::error::{fatal_from_message, ExecutionError, SyscallError};
use crate::exit_code::ExitCode;
use vstd::prelude::*;
use vstd::string::StringExecFns;

verus! {

/// The committed outcome of an invocation.
#[derive(Debug)]
pub struct Receipt {
    pub exit_code: ExitCode,
    pub return_data: Vec<u8>,
}

/// Where an invocation stands.
#[derive(Debug)]
pub enum Invocation {
    /// No host call has run yet.
    Created,
    /// The guest is executing.
    Running,
    /// The invocation ended with a receipt.
    Committed(Receipt),
    /// The invocation is void; there is no receipt.
    Aborted(anyhow::Error),
}

/// What happened to an invocation.
#[derive(Debug)]
pub enum Event {
    /// The guest's entry point was entered.
    Started,
    /// A host call succeeded.
    HostCallDone,
    /// A host call failed.
    HostCallFailed(ExecutionError),
    /// The guest returned with a code of its choice and output bytes.
    Returned(ExitCode, Vec<u8>),
}

/// What the host does next.
#[derive(Clone, Copy, Debug, PartialEq, Eq, Structural)]
pub enum Action {
    /// Run the guest from its entry point.
    Enter,
    /// Hand the code to the guest and let it go on.
    Resume(ExitCode),
    /// Stop: the invocation has ended.
    Stop,
    /// The event does not apply in this state.
    Ignore,
}

impl Invocation {
    /// An invocation that has ended.
    pub open spec fn is_terminal(&self) -> bool {
        self is Committed || self is Aborted
    }

    /// Whether `next` and `action` are what follows `event` in this state.
    pub open spec fn follows(self, event: Event, next: Invocation, action: Action) -> bool {
        match (self, event) {
            (Invocation::Created, Event::Started) => next is Running && action == Action::Enter,
            (Invocation::Running, Event::HostCallDone) => next is Running && action
                == Action::Resume(ExitCode::Success),
            (Invocation::Running, Event::HostCallFailed(ExecutionError::Fatal(cause))) => next
                == Invocation::Aborted(cause) && action == Action::Stop,
            (Invocation::Running, Event::HostCallFailed(ExecutionError::Syscall(e))) => if e.1
                == ExitCode::SysErrOutOfGas {
                action == Action::Stop && (next matches Invocation::Committed(receipt)
                    && receipt.exit_code == ExitCode::SysErrOutOfGas && receipt.return_data@.len()
                    == 0)
            } else {
                next is Running && action == Action::Resume(e.1)
            },
            (Invocation::Running, Event::Returned(code, data)) => action == Action::Stop && (
            if code == ExitCode::ErrPlaceholder {
                next is Aborted
            } else {
                next matches Invocation::Committed(receipt) && receipt.exit_code == code
                    && receipt.return_data@ == data@
            }),
            (Invocation::Committed(_), _) => next == self && action == Action::Stop,
            (Invocation::Aborted(_), _) => next == self && action == Action::Stop,
            _ => next == self && action == Action::Ignore,
        }
    }

    /// A fresh invocation.
    pub fn new() -> (s: Invocation)
        ensures
            s is Created,
    {
        Invocation::Created
    }

    /// Takes the invocation from one state to the next on `event`, and says
    /// what the host does next.
    pub fn step(self, event: Event) -> (r: (Invocation, Action))
        ensures
            self.follows(event, r.0, r.1),
    {
        match self {
            Invocation::Created => match event {
                Event::Started => (Invocation::Running, Action::Enter),
                _ => (Invocation::Created, Action::Ignore),
            },
            Invocation::Running => match event {
                Event::Started => (Invocation::Running, Action::Ignore),
                Event::HostCallDone => (Invocation::Running, Action::Resume(ExitCode::Success)),
                Event::HostCallFailed(ExecutionError::Fatal(cause)) => (
                    Invocation::Aborted(cause),
                    Action::Stop,
                ),
                Event::HostCallFailed(ExecutionError::Syscall(e)) => {
                    let code = e.1;
                    if code == ExitCode::SysErrOutOfGas {
                        (
                            Invocation::Committed(
                                Receipt { exit_code: code, return_data: Vec::new() },
                            ),
                            Action::Stop,
                        )
                    } else {
                        (Invocation::Running, Action::Resume(code))
                    }
                },
                Event::Returned(code, data) => {
                    if code == ExitCode::ErrPlaceholder {
                        (
                            Invocation::Aborted(
                                fatal_from_message(
                                    String::from_str("guest returned the reserved exit code"),
                                ),
                            ),
                            Action::Stop,
                        )
                    } else {
                        (
                            Invocation::Committed(Receipt { exit_code: code, return_data: data }),
                            Action::Stop,
                        )
                    }
                },
            },
            Invocation::Committed(receipt) => (Invocation::Committed(receipt), Action::Stop),
            Invocation::Aborted(cause) => (Invocation::Aborted(cause), Action::Stop),
        }
    }

    /// The receipt, if the invocation was committed.
    pub fn receipt(&self) -> (r: Option<&Receipt>)
        ensures
            r is Some == self is Committed,
            self matches Invocation::Committed(receipt) ==> r == Some(receipt),
    {
        match self {
            Invocation::Committed(receipt) => Some(receipt),
            _ => None,
        }
    }

    /// An invocation that has ended stays as it ended: no event takes a
    /// committed invocation to an aborted one or back, or changes its receipt.
    pub proof fn lemma_end_is_final(s: Invocation, event: Event, next: Invocation, action: Action)
        requires
            s.is_terminal(),
            s.follows(event, next, action),
        ensures
            next == s,
            action == Action::Stop,
    {
    }

    /// A step ends a running invocation in at most one way: the next state
    /// is never both committed and aborted, a fatal failure always aborts,
    /// and a receipt never carries the code reserved for fatal errors unless
    /// a syscall error carried it.
    pub proof fn lemma_commit_or_abort(s: Invocation, event: Event, next: Invocation, action: Action)
        requires
            s is Running,
            s.follows(event, next, action),
        ensures
            !(next is Committed && next is Aborted),
            event matches Event::HostCallFailed(e) && e.spec_is_fatal() ==> next is Aborted,
            event matches Event::HostCallFailed(e) && !e.spec_is_fatal() ==> !(next is Aborted),
            event matches Event::Returned(code, _) ==> (next is Committed <==> code
                != ExitCode::ErrPlaceholder),
            event is HostCallFailed && next is Running ==> (action matches Action::Resume(code)
                && code != ExitCode::SysErrOutOfGas),
    {
    }
}

/// Whether a record of `size` bytes written at `offset` stays inside a guest
/// memory of `memory` bytes. Writing outside is a fatal failure.
pub fn check_metadata_offset(memory: u64, offset: u64, size: u64) -> (r: Result<
    (),
    ExecutionError,
>)
    ensures
        r is Ok <==> offset + size <= memory,
        r matches Err(e) ==> e is Fatal,
{
    if memory < offset || memory - offset < size {
        Err(ExecutionError::Fatal(fatal_from_message(String::from_str("invalid metadata offsets"))))
    } else {
        Ok(())
    }
}

} // verus!
