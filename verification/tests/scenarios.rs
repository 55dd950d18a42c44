//! End-to-end protocol runs: two fungible-token participants and a
//! coordinator, exchanging balances atomically.

use atomic_exec::atomic::{AtomicExecRegistry, AtomicInputState, LockableState};
use atomic_exec::state::State;
use atomic_exec::token::{credit, debit, encode_balance, read_balance};
use atomic_exec::types::{ConstructorParams, IpcAddress, PreCommitParams, RevokeParams};
use atomic_exec::{Actor, ExecError, INIT_ACTOR_ADDR};

const GATEWAY: u64 = 64;
const COMMIT_P1: u64 = 20;
const COMMIT_P2: u64 = 21;
const ROLLBACK_P1: u64 = 22;

/// One participant: its registry and its single balance slice.
struct Participant {
    reg: AtomicExecRegistry,
    state: Vec<AtomicInputState>,
}

impl Participant {
    fn with_balance(b: u64) -> Participant {
        Participant {
            reg: AtomicExecRegistry::new(),
            state: vec![AtomicInputState::new(encode_balance(b))],
        }
    }

    fn balance(&self) -> u64 {
        read_balance(&self.state[0]).unwrap()
    }

    /// Applies a committed outcome: a (debit, credit) pair of amounts.
    /// The credit lands first, so a leg may be paid out of what the
    /// same execution brings in.
    fn apply(&mut self, output: &[u8]) {
        credit(&mut self.state[0], output[1] as u64).unwrap();
        debit(&mut self.state[0], output[0] as u64).unwrap();
    }
}

fn addr(bytes: &[u8]) -> IpcAddress {
    IpcAddress::new(bytes.to_vec())
}

fn coordinator() -> State {
    Actor::constructor(INIT_ACTOR_ADDR, ConstructorParams { ipc_gateway_address: GATEWAY })
        .unwrap()
}

#[test]
fn transfer_over_balance_fails_without_state_change() {
    let mut p1 = Participant::with_balance(100);
    assert_eq!(
        debit(&mut p1.state[0], 200),
        Err(ExecError::InsufficientBalance)
    );
    assert_eq!(p1.balance(), 100);
}

#[test]
fn happy_path_two_participants() {
    let mut p1 = Participant::with_balance(100);
    let mut p2 = Participant::with_balance(0);
    let mut coord = coordinator();
    let (a1, a2) = (addr(b"a1"), addr(b"a2"));

    // Each side initiates its leg of the swap: P1 sends 40, P2 sends 10.
    let i1 = p1.reg.init_atomic_exec(&mut p1.state, vec![40], true).unwrap();
    let i2 = p2.reg.init_atomic_exec(&mut p2.state, vec![10], true).unwrap();
    assert!(p1.state[0].is_locked());

    // Both agree on the same input-ID map and derive the same exec ID.
    let ids1 = vec![(a1.clone(), i1.clone()), (a2.clone(), i2.clone())];
    let ids2 = vec![(a2.clone(), i2.clone()), (a1.clone(), i1.clone())];
    let e1 = p1
        .reg
        .prepare_atomic_exec(&mut p1.state, &i1, &ids1, vec![40, 10])
        .unwrap();
    let e2 = p2
        .reg
        .prepare_atomic_exec(&mut p2.state, &i2, &ids2, vec![10, 40])
        .unwrap();
    assert_eq!(e1, e2, "independent participants agree on the exec ID");

    // Both pre-commit; the second submission completes the set.
    let actors = vec![a1.clone(), a2.clone()];
    let pre1 = PreCommitParams { actors: actors.clone(), exec_id: e1.clone(), commit: COMMIT_P1 };
    let (done, msgs) = Actor::pre_commit(&mut coord, GATEWAY, &a1, &pre1).unwrap();
    assert!(!done && msgs.is_empty());
    let pre2 = PreCommitParams { actors: actors.clone(), exec_id: e2.clone(), commit: COMMIT_P2 };
    let (done, msgs) = Actor::pre_commit(&mut coord, GATEWAY, &a2, &pre2).unwrap();
    assert!(done);
    assert_eq!(msgs.len(), 2);

    // Deliver the batch: each participant commits and applies.
    for m in &msgs {
        if m.msg.to.as_bytes() == a1.as_bytes() {
            assert_eq!(m.msg.method, COMMIT_P1);
            let out = p1.reg.commit_atomic_exec(&mut p1.state, &m.msg.params).unwrap();
            p1.apply(&out);
        } else {
            assert_eq!(m.msg.to.as_bytes(), a2.as_bytes());
            assert_eq!(m.msg.method, COMMIT_P2);
            let out = p2.reg.commit_atomic_exec(&mut p2.state, &m.msg.params).unwrap();
            p2.apply(&out);
        }
    }
    assert_eq!(p1.balance(), 70);
    assert_eq!(p2.balance(), 30);
    assert!(!p1.state[0].is_locked());
    assert!(!p2.state[0].is_locked());
}

#[test]
fn drift_between_init_and_prepare_aborts() {
    let mut p1 = Participant::with_balance(100);
    let a1 = addr(b"a1");

    // Initiate without locking; the content identifiers are recorded.
    let i1 = p1.reg.init_atomic_exec(&mut p1.state, vec![40], false).unwrap();
    assert!(!p1.state[0].is_locked());

    // An external transfer modifies the balance before the prepare.
    debit(&mut p1.state[0], 5).unwrap();

    let ids = vec![(a1, i1.clone())];
    assert_eq!(
        p1.reg.prepare_atomic_exec(&mut p1.state, &i1, &ids, vec![40, 0]),
        Err(ExecError::StateCidMismatch)
    );
    assert!(!p1.state[0].is_locked(), "the failed prepare left no lock behind");
}

#[test]
fn revoke_after_prepare_rolls_back_the_revoker_only() {
    let mut p1 = Participant::with_balance(100);
    let mut p2 = Participant::with_balance(0);
    let mut coord = coordinator();
    let (a1, a2) = (addr(b"a1"), addr(b"a2"));

    let i1 = p1.reg.init_atomic_exec(&mut p1.state, vec![40], true).unwrap();
    let i2 = p2.reg.init_atomic_exec(&mut p2.state, vec![10], true).unwrap();
    let ids = vec![(a1.clone(), i1.clone()), (a2.clone(), i2.clone())];
    let e1 = p1
        .reg
        .prepare_atomic_exec(&mut p1.state, &i1, &ids, vec![40, 10])
        .unwrap();
    let _e2 = p2
        .reg
        .prepare_atomic_exec(&mut p2.state, &i2, &ids, vec![10, 40])
        .unwrap();

    // P1 revokes; the coordinator echoes one rollback to P1 only.
    let actors = vec![a1.clone(), a2.clone()];
    let rev = RevokeParams { actors, exec_id: e1.clone(), rollback: ROLLBACK_P1 };
    let msg = Actor::revoke(&mut coord, GATEWAY, &a1, &rev).unwrap();
    assert_eq!(msg.msg.to.as_bytes(), a1.as_bytes());
    assert_eq!(msg.msg.method, ROLLBACK_P1);

    // P1 rolls back: balance restored, slice unlocked.
    let out = p1.reg.rollback_atomic_exec(&mut p1.state, &msg.msg.params).unwrap();
    assert_eq!(out, vec![40, 10]);
    assert_eq!(p1.balance(), 100);
    assert!(!p1.state[0].is_locked());

    // P2 is unaffected until it acts itself.
    assert!(p2.state[0].is_locked());
}

#[test]
fn double_commit_is_rejected_without_state_change() {
    let mut p1 = Participant::with_balance(100);
    let a1 = addr(b"a1");
    let i1 = p1.reg.init_atomic_exec(&mut p1.state, vec![40], true).unwrap();
    let ids = vec![(a1, i1.clone())];
    let e1 = p1
        .reg
        .prepare_atomic_exec(&mut p1.state, &i1, &ids, vec![40, 0])
        .unwrap();
    let out = p1.reg.commit_atomic_exec(&mut p1.state, &e1).unwrap();
    p1.apply(&out);
    assert_eq!(p1.balance(), 60);

    // The same exec ID replayed: unknown, and nothing changes.
    assert_eq!(
        p1.reg.commit_atomic_exec(&mut p1.state, &e1),
        Err(ExecError::UnknownExecID)
    );
    assert_eq!(p1.balance(), 60);
    assert!(!p1.state[0].is_locked());
}
