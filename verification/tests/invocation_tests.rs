use fvm_kernel_core::error::{ExecutionError, SyscallError};
use fvm_kernel_core::exit_code::ExitCode;
use fvm_kernel_core::externs::{RandomnessKind, RandomnessMatch, RandomnessRule, TestExterns};
use fvm_kernel_core::invocation::{check_metadata_offset, Action, Event, Invocation};

#[test]
fn an_invocation_commits_with_the_returned_code() {
    let (s, a) = Invocation::new().step(Event::Started);
    assert!(matches!(s, Invocation::Running));
    assert_eq!(a, Action::Enter);
    let (s, a) = s.step(Event::HostCallDone);
    assert!(matches!(s, Invocation::Running));
    assert_eq!(a, Action::Resume(ExitCode::Success));
    let (s, a) = s.step(Event::Returned(ExitCode::Success, vec![1, 2]));
    assert_eq!(a, Action::Stop);
    let receipt = s.receipt().unwrap();
    assert_eq!(receipt.exit_code, ExitCode::Success);
    assert_eq!(receipt.return_data, vec![1, 2]);
}

#[test]
fn a_recoverable_failure_is_handed_to_the_guest() {
    let (s, _) = Invocation::new().step(Event::Started);
    let e = ExecutionError::Syscall(SyscallError::new(ExitCode::ErrIllegalArgument, "bad".to_string()));
    let (s, a) = s.step(Event::HostCallFailed(e));
    assert!(matches!(s, Invocation::Running));
    assert_eq!(a, Action::Resume(ExitCode::ErrIllegalArgument));
    let (s, _) = s.step(Event::Returned(ExitCode::ErrIllegalArgument, vec![]));
    assert_eq!(s.receipt().unwrap().exit_code, ExitCode::ErrIllegalArgument);
}

#[test]
fn a_fatal_failure_aborts_without_a_receipt() {
    let (s, _) = Invocation::new().step(Event::Started);
    let (s, a) = s.step(Event::HostCallFailed(ExecutionError::Fatal(anyhow::Error::msg("corrupt"))));
    assert_eq!(a, Action::Stop);
    assert!(s.receipt().is_none());
    assert!(matches!(s, Invocation::Aborted(ref c) if c.to_string() == "corrupt"));
    // nothing moves an aborted invocation
    let (s, a) = s.step(Event::Returned(ExitCode::Success, vec![]));
    assert_eq!(a, Action::Stop);
    assert!(matches!(s, Invocation::Aborted(ref c) if c.to_string() == "corrupt"));
}

#[test]
fn out_of_gas_ends_the_invocation_with_a_receipt() {
    let (s, _) = Invocation::new().step(Event::Started);
    let e = ExecutionError::Syscall(SyscallError::new(ExitCode::SysErrOutOfGas, "gas".to_string()));
    let (s, a) = s.step(Event::HostCallFailed(e));
    assert_eq!(a, Action::Stop);
    let receipt = s.receipt().unwrap();
    assert_eq!(receipt.exit_code, ExitCode::SysErrOutOfGas);
    assert!(receipt.return_data.is_empty());
}

#[test]
fn a_committed_invocation_stays_committed() {
    let (s, _) = Invocation::new().step(Event::Started);
    let (s, _) = s.step(Event::Returned(ExitCode::ErrNotFound, vec![9]));
    let (s, a) = s.step(Event::HostCallFailed(ExecutionError::Fatal(anyhow::Error::msg("late"))));
    assert_eq!(a, Action::Stop);
    let receipt = s.receipt().unwrap();
    assert_eq!(receipt.exit_code, ExitCode::ErrNotFound);
    assert_eq!(receipt.return_data, vec![9]);
}

#[test]
fn the_guest_cannot_return_the_reserved_code() {
    let (s, _) = Invocation::new().step(Event::Started);
    let (s, a) = s.step(Event::Returned(ExitCode::ErrPlaceholder, vec![]));
    assert_eq!(a, Action::Stop);
    assert!(matches!(s, Invocation::Aborted(_)));
}

#[test]
fn events_before_the_start_are_ignored() {
    let (s, a) = Invocation::new().step(Event::HostCallDone);
    assert!(matches!(s, Invocation::Created));
    assert_eq!(a, Action::Ignore);
    let (s, a) = s.step(Event::Returned(ExitCode::Success, vec![]));
    assert!(matches!(s, Invocation::Created));
    assert_eq!(a, Action::Ignore);
    let (s, _) = s.step(Event::Started);
    let (s, a) = s.step(Event::Started);
    assert!(matches!(s, Invocation::Running));
    assert_eq!(a, Action::Ignore);
}

#[test]
fn metadata_must_fit_in_guest_memory() {
    assert!(check_metadata_offset(100, 60, 40).is_ok());
    assert!(check_metadata_offset(100, 0, 100).is_ok());
    assert!(check_metadata_offset(100, 61, 40).unwrap_err().is_fatal());
    assert!(check_metadata_offset(100, 101, 0).unwrap_err().is_fatal());
    assert!(check_metadata_offset(u64::MAX, u64::MAX, 1).unwrap_err().is_fatal());
    assert!(check_metadata_offset(0, 0, 0).is_ok());
}

fn recorded(kind: RandomnessKind, dst: i64, epoch: i64, entropy: &[u8], ret: &[u8]) -> RandomnessMatch {
    RandomnessMatch {
        on: RandomnessRule { kind, dst, epoch, entropy: entropy.to_vec() },
        ret: ret.to_vec(),
    }
}

#[test]
fn test_externs_replay_the_first_recorded_answer() {
    let r = vec![
        recorded(RandomnessKind::Chain, 1, 10, b"abc", &[1; 32]),
        recorded(RandomnessKind::Beacon, 1, 10, b"abc", &[2; 32]),
        recorded(RandomnessKind::Chain, 1, 10, b"abc", &[3; 32]),
        recorded(RandomnessKind::Chain, 2, 11, b"", &[4; 32]),
    ];
    let te = TestExterns::new(&r);
    assert_eq!(te.get_chain_randomness(1, 10, b"abc"), Some(vec![1; 32]));
    assert_eq!(te.get_chain_randomness_looking_forward(1, 10, b"abc"), Some(vec![1; 32]));
    assert_eq!(te.get_beacon_randomness(1, 10, b"abc"), Some(vec![2; 32]));
    assert_eq!(te.get_beacon_randomness_looking_forward(1, 10, b"abc"), Some(vec![2; 32]));
    assert_eq!(te.get_chain_randomness(2, 11, b""), Some(vec![4; 32]));
    assert_eq!(te.replay(RandomnessKind::Chain, 2, 11, b""), Some(vec![4; 32]));
}

#[test]
fn test_externs_know_nothing_that_was_not_recorded() {
    let r = vec![recorded(RandomnessKind::Chain, 1, 10, b"abc", &[1; 32])];
    let te = TestExterns::new(&r);
    assert_eq!(te.get_chain_randomness(1, 10, b"abd"), None);
    assert_eq!(te.get_chain_randomness(1, 10, b"ab"), None);
    assert_eq!(te.get_chain_randomness(1, 11, b"abc"), None);
    assert_eq!(te.get_chain_randomness(2, 10, b"abc"), None);
    assert_eq!(te.get_beacon_randomness(1, 10, b"abc"), None);
    assert_eq!(TestExterns::new(&vec![]).get_chain_randomness(1, 10, b"abc"), None);
}
