//! Classification of failures during an invocation: every failure is either
//! fatal, which voids the invocation, or a syscall error with an exit code.

use crate::exit_code::ExitCode;
use vstd::prelude::*;
use vstd::string::StringExecFns;

verus! {

/// The opaque error of the host that a fatal failure carries.
#[verifier::external_type_specification]
#[verifier::external_body]
pub struct ExFatalCause(anyhow::Error);

/// The texts that a cause holds, outermost first: what the cause itself is
/// displayed as, then what each cause below it is displayed as, as
/// `anyhow::Error::chain` walks them.
pub uninterp spec fn chain(cause: anyhow::Error) -> Seq<Seq<char>>;

/// `anyhow::Error::context`: the same failure with one more layer on top of
/// its chain, which is displayed as `context`.
#[verifier::external_body]
pub(crate) fn fatal_with_context(cause: anyhow::Error, context: String) -> (r: anyhow::Error)
    ensures
        chain(r) == seq![context@] + chain(cause),
{
    cause.context(context)
}

/// `anyhow::Error::msg`: a fresh failure that is displayed as `message` and
/// has no cause below it.
#[verifier::external_body]
pub(crate) fn fatal_from_message(message: String) -> (r: anyhow::Error)
    ensures
        chain(r) == seq![message@],
{
    anyhow::Error::msg(message)
}

/// The `Display` rendering of an `anyhow::Error`: the outermost text of its
/// chain, which is never empty.
#[verifier::external_body]
pub(crate) fn fatal_text(cause: &anyhow::Error) -> (r: String)
    ensures
        exists|below: Seq<Seq<char>>| chain(*cause) == seq![r@] + below,
{
    cause.to_string()
}

/// An error from a syscall: a message and the exit code advised for it.
#[derive(Debug, Clone)]
pub struct SyscallError(pub String, pub ExitCode);

impl SyscallError {
    pub fn new(c: ExitCode, d: String) -> (e: SyscallError)
        ensures
            e.0@ == d@,
            e.1 == c,
    {
        SyscallError(d, c)
    }

    pub open spec fn spec_is_recoverable(&self) -> bool {
        self.1 != ExitCode::SysErrOutOfGas
    }

    /// Returns true if the error can be caught by an actor: every syscall
    /// error but running out of gas.
    pub fn is_recoverable(&self) -> (b: bool)
        ensures
            b == self.spec_is_recoverable(),
            b == (self.1 != ExitCode::SysErrOutOfGas),
    {
        !(self.1 == ExitCode::SysErrOutOfGas)
    }
}

/// The failure of an invocation step.
#[derive(Debug)]
pub enum ExecutionError {
    Syscall(SyscallError),
    Fatal(anyhow::Error),
}

/// The text of a syscall error once `context` has been put in front of it.
pub open spec fn prefixed(context: Seq<char>, message: Seq<char>) -> Seq<char> {
    context + seq![':', ' '] + message
}

impl ExecutionError {
    pub open spec fn spec_is_fatal(&self) -> bool {
        self is Fatal
    }

    pub open spec fn spec_is_recoverable(&self) -> bool {
        match self {
            ExecutionError::Fatal(_) => false,
            ExecutionError::Syscall(e) => e.spec_is_recoverable(),
        }
    }

    pub open spec fn spec_exit_code(&self) -> ExitCode {
        match self {
            ExecutionError::Fatal(_) => ExitCode::ErrPlaceholder,
            ExecutionError::Syscall(e) => e.1,
        }
    }

    /// What attaching `text` as context turns this error into: a syscall
    /// error keeps its code and gets the text in front of its message, a
    /// fatal error stays fatal and gets the text on top of its cause's chain.
    pub open spec fn context_gives(self, text: Seq<char>, out: ExecutionError) -> bool {
        match self {
            ExecutionError::Syscall(e) => out matches ExecutionError::Syscall(o) && o.1 == e.1
                && o.0@ == prefixed(text, e.0@),
            ExecutionError::Fatal(c) => out matches ExecutionError::Fatal(o) && chain(o)
                == seq![text] + chain(c),
        }
    }

    /// Returns true if the error is fatal: the message yields no receipt.
    pub fn is_fatal(&self) -> (b: bool)
        ensures
            b == self.spec_is_fatal(),
    {
        match self {
            ExecutionError::Fatal(_) => true,
            ExecutionError::Syscall(_) => false,
        }
    }

    /// Returns true if an actor can catch the error. All errors except fatal
    /// and out of gas errors are recoverable.
    pub fn is_recoverable(&self) -> (b: bool)
        ensures
            b == self.spec_is_recoverable(),
            b == (self matches ExecutionError::Syscall(e) && e.1 != ExitCode::SysErrOutOfGas),
    {
        match self {
            ExecutionError::Fatal(_) => false,
            ExecutionError::Syscall(e) => e.is_recoverable(),
        }
    }

    /// The exit code of the error: the advised code of a syscall error, the
    /// reserved placeholder for a fatal one.
    pub fn exit_code(&self) -> (c: ExitCode)
        ensures
            c == self.spec_exit_code(),
    {
        match self {
            ExecutionError::Fatal(_) => ExitCode::ErrPlaceholder,
            ExecutionError::Syscall(e) => e.1,
        }
    }

    /// Gives up the classification for the host's error type: a fatal
    /// error hands out its cause, a syscall error becomes a cause made of its
    /// message.
    pub fn into_cause(self) -> (r: anyhow::Error)
        ensures
            self matches ExecutionError::Fatal(c) ==> r == c,
            self matches ExecutionError::Syscall(e) ==> chain(r) == seq![e.0@],
    {
        match self {
            ExecutionError::Syscall(err) => fatal_from_message(err.0),
            ExecutionError::Fatal(err) => err,
        }
    }

    /// A recoverable error is a syscall error and never fatal; a fatal error
    /// is unrecoverable and has the placeholder code.
    pub proof fn lemma_kinds_are_disjoint(e: ExecutionError)
        ensures
            e.spec_is_recoverable() ==> !e.spec_is_fatal(),
            e.spec_is_fatal() ==> e.spec_exit_code() == ExitCode::ErrPlaceholder,
            e.spec_is_fatal() != (e is Syscall),
    {
    }

    /// A syscall error is recoverable exactly when its code is not the
    /// out-of-gas code.
    pub proof fn lemma_only_out_of_gas_is_unrecoverable(message: String, code: ExitCode)
        ensures
            ExecutionError::Syscall(SyscallError(message, code)).spec_is_recoverable() <==> code
                != ExitCode::SysErrOutOfGas,
    {
    }

    /// A failure put down to an illegal argument is a syscall error that the
    /// guest can catch, and its code is not the one reserved for fatal errors.
    pub proof fn lemma_illegal_argument_is_recoverable(message: String)
        ensures
            !ExecutionError::Syscall(
                SyscallError(message, ExitCode::ErrIllegalArgument),
            ).spec_is_fatal(),
            ExecutionError::Syscall(
                SyscallError(message, ExitCode::ErrIllegalArgument),
            ).spec_is_recoverable(),
            ExecutionError::Syscall(
                SyscallError(message, ExitCode::ErrIllegalArgument),
            ).spec_exit_code() != ExitCode::ErrPlaceholder,
    {
    }

    /// Context never changes the classification: the result is fatal exactly
    /// when the error was, and has the same exit code.
    pub proof fn lemma_context_keeps_kind(e: ExecutionError, text: Seq<char>, out: ExecutionError)
        requires
            e.context_gives(text, out),
        ensures
            out.spec_is_fatal() == e.spec_is_fatal(),
            out.spec_exit_code() == e.spec_exit_code(),
            out.spec_is_recoverable() == e.spec_is_recoverable(),
    {
    }
}

/// The one promotion that needs no decision: a syscall error is an execution
/// error of the syscall kind. Making an error fatal always takes a call that
/// says so.
impl From<SyscallError> for ExecutionError {
    fn from(e: SyscallError) -> (r: ExecutionError) {
        ExecutionError::Syscall(e)
    }
}

impl vstd::std_specs::convert::FromSpecImpl<SyscallError> for ExecutionError {
    open spec fn obeys_from_spec() -> bool {
        true
    }

    open spec fn from_spec(e: SyscallError) -> ExecutionError {
        ExecutionError::Syscall(e)
    }
}

/// Classification of the failure of a fallible operation.
pub trait ClassifyResult: Sized {
    type Value;

    /// The value of a successful operation.
    spec fn success(&self) -> Option<Self::Value>;

    /// The text of the failure: what it is displayed as.
    spec fn failure_text(&self) -> Option<Seq<char>>;

    /// Passes success on and makes any failure fatal.
    fn or_fatal(self) -> (r: Result<Self::Value, ExecutionError>)
        ensures
            self.success() matches Some(v) ==> r == Ok::<Self::Value, ExecutionError>(v),
            self.success() is None ==> (r matches Err(e) && e is Fatal),
    ;

    /// Passes success on and makes any failure a syscall error with `code`
    /// and the failure's text.
    fn or_error(self, code: ExitCode) -> (r: Result<Self::Value, ExecutionError>)
        ensures
            self.success() matches Some(v) ==> r == Ok::<Self::Value, ExecutionError>(v),
            self.success() is None ==> (r matches Err(ExecutionError::Syscall(e)) && e.1 == code
                && (self.failure_text() matches Some(t) ==> e.0@ == t)),
    ;

    /// Passes success on and makes any failure an illegal-argument syscall
    /// error.
    fn or_illegal_argument(self) -> (r: Result<Self::Value, ExecutionError>)
        ensures
            self.success() matches Some(v) ==> r == Ok::<Self::Value, ExecutionError>(v),
            self.success() is None ==> (r matches Err(ExecutionError::Syscall(e)) && e.1
                == ExitCode::ErrIllegalArgument && (self.failure_text() matches Some(t) ==> e.0@
                == t)),
    ;
}

impl<T> ClassifyResult for Result<T, String> {
    type Value = T;

    open spec fn success(&self) -> Option<T> {
        match self {
            Ok(v) => Some(*v),
            Err(_) => None,
        }
    }

    open spec fn failure_text(&self) -> Option<Seq<char>> {
        match self {
            Ok(_) => None,
            Err(e) => Some(e@),
        }
    }

    fn or_fatal(self) -> (r: Result<T, ExecutionError>)
        ensures
            self matches Err(m) ==> (r matches Err(ExecutionError::Fatal(c)) && chain(c)
                == seq![m@]),
    {
        match self {
            Ok(v) => Ok(v),
            Err(e) => Err(ExecutionError::Fatal(fatal_from_message(e))),
        }
    }

    fn or_error(self, code: ExitCode) -> (r: Result<T, ExecutionError>) {
        match self {
            Ok(v) => Ok(v),
            Err(e) => Err(ExecutionError::Syscall(SyscallError(e, code))),
        }
    }

    fn or_illegal_argument(self) -> (r: Result<T, ExecutionError>) {
        self.or_error(ExitCode::ErrIllegalArgument)
    }
}

impl<T> ClassifyResult for Result<T, anyhow::Error> {
    type Value = T;

    open spec fn success(&self) -> Option<T> {
        match self {
            Ok(v) => Some(*v),
            Err(_) => None,
        }
    }

    open spec fn failure_text(&self) -> Option<Seq<char>> {
        match self {
            Ok(_) => None,
            Err(e) => Some(chain(*e)[0]),
        }
    }

    fn or_fatal(self) -> (r: Result<T, ExecutionError>)
        ensures
            self matches Err(c) ==> r == Err::<T, ExecutionError>(ExecutionError::Fatal(c)),
    {
        match self {
            Ok(v) => Ok(v),
            Err(e) => Err(ExecutionError::Fatal(e)),
        }
    }

    fn or_error(self, code: ExitCode) -> (r: Result<T, ExecutionError>) {
        match self {
            Ok(v) => Ok(v),
            Err(e) => Err(ExecutionError::Syscall(SyscallError(fatal_text(&e), code))),
        }
    }

    fn or_illegal_argument(self) -> (r: Result<T, ExecutionError>) {
        self.or_error(ExitCode::ErrIllegalArgument)
    }
}

/// Attaching context to an error, or to the error of a result.
pub trait Context: Sized {
    type WithContext;

    /// Whether there is no error to attach context to.
    spec fn skips_context(&self) -> bool;

    /// What attaching `text` may give.
    spec fn with_text(self, text: Seq<char>, out: Self::WithContext) -> bool;

    fn context(self, context: &str) -> (r: Self::WithContext)
        ensures
            self.with_text(context@, r),
    ;

    /// As `context`, with a text that is made only if there is an error.
    fn with_context<F: FnOnce() -> String>(self, cfn: F) -> (r: Self::WithContext)
        requires
            cfn.requires(()),
        ensures
            exists|text: Seq<char>|
                self.with_text(text, r) && (self.skips_context() || exists|d: String|
                    d@ == text && cfn.ensures((), d)),
    ;
}

impl Context for ExecutionError {
    type WithContext = ExecutionError;

    open spec fn skips_context(&self) -> bool {
        false
    }

    open spec fn with_text(self, text: Seq<char>, out: ExecutionError) -> bool {
        self.context_gives(text, out)
    }

    fn context(self, context: &str) -> (r: ExecutionError) {
        match self {
            ExecutionError::Syscall(e) => {
                let message = String::from_str(context).concat(": ").concat(e.0.as_str());
                proof {
                    reveal_strlit(": ");
                    assert(": "@ =~= seq![':', ' ']);
                }
                ExecutionError::Syscall(SyscallError(message, e.1))
            },
            ExecutionError::Fatal(e) => ExecutionError::Fatal(
                fatal_with_context(e, String::from_str(context)),
            ),
        }
    }

    fn with_context<F: FnOnce() -> String>(self, cfn: F) -> (r: ExecutionError) {
        let d = cfn();
        let r = self.context(d.as_str());
        assert(self.with_text(d@, r) && cfn.ensures((), d));
        r
    }
}

impl<T> Context for Result<T, ExecutionError> {
    type WithContext = Result<T, ExecutionError>;

    open spec fn skips_context(&self) -> bool {
        self is Ok
    }

    open spec fn with_text(self, text: Seq<char>, out: Result<T, ExecutionError>) -> bool {
        match self {
            Ok(v) => out == Ok::<T, ExecutionError>(v),
            Err(e) => out matches Err(o) && e.context_gives(text, o),
        }
    }

    fn context(self, context: &str) -> (r: Result<T, ExecutionError>) {
        match self {
            Ok(v) => Ok(v),
            Err(e) => Err(e.context(context)),
        }
    }

    fn with_context<F: FnOnce() -> String>(self, cfn: F) -> (r: Result<T, ExecutionError>) {
        match self {
            Ok(v) => {
                let r = Ok(v);
                assert(self.with_text(Seq::<char>::empty(), r));
                r
            },
            Err(e) => {
                let d = cfn();
                let r = Err(e.context(d.as_str()));
                assert(self.with_text(d@, r) && cfn.ensures((), d));
                r
            },
        }
    }
}

} // verus!
