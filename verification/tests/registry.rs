//! The per-participant registry: init, cancel, prepare, commit,
//! rollback, and the protocol's failure modes.

use atomic_exec::atomic::{AtomicExecRegistry, AtomicInputState, LockableState};
use atomic_exec::exec_id::compute_exec_id;
use atomic_exec::store::MemoryStore;
use atomic_exec::types::IpcAddress;
use atomic_exec::ExecError;

fn one_slice(payload: Vec<u8>) -> Vec<AtomicInputState> {
    vec![AtomicInputState::new(payload)]
}

fn pair(a: &[u8], id: &[u8]) -> (IpcAddress, Vec<u8>) {
    (IpcAddress::new(a.to_vec()), id.to_vec())
}

#[test]
fn init_locks_slices_when_asked() {
    let mut reg = AtomicExecRegistry::new();
    let mut state = one_slice(vec![1]);
    let id = reg.init_atomic_exec(&mut state, vec![9], true).unwrap();
    assert_eq!(id.len(), 32);
    assert!(state[0].is_locked());
    assert_eq!(reg.input_of(&id).unwrap(), &vec![9]);
}

#[test]
fn init_rejects_locked_slices() {
    let mut reg = AtomicExecRegistry::new();
    let mut state = one_slice(vec![1]);
    state[0].lock().unwrap();
    assert_eq!(
        reg.init_atomic_exec(&mut state, vec![], false),
        Err(ExecError::AlreadyLocked)
    );
}

#[test]
fn distinct_inits_mint_distinct_ids() {
    let mut reg = AtomicExecRegistry::new();
    let mut state = one_slice(vec![1]);
    let id1 = reg.init_atomic_exec(&mut state, vec![7], false).unwrap();
    let id2 = reg.init_atomic_exec(&mut state, vec![7], false).unwrap();
    assert_ne!(id1, id2, "the monotone nonce keeps input IDs fresh");
}

#[test]
fn cancel_unlocks_and_returns_input() {
    let mut reg = AtomicExecRegistry::new();
    let mut state = one_slice(vec![1]);
    let id = reg.init_atomic_exec(&mut state, vec![5, 6], true).unwrap();
    assert!(state[0].is_locked());
    let input = reg.cancel_atomic_exec(&mut state, &id).unwrap();
    assert_eq!(input, vec![5, 6]);
    assert!(!state[0].is_locked());
    assert!(reg.input_of(&id).is_none(), "the entry is consumed");
    // The payload is exactly what it was before the init.
    assert_eq!(state[0].get(), &vec![1]);
}

#[test]
fn cancel_of_unknown_id_fails() {
    let mut reg = AtomicExecRegistry::new();
    let mut state = one_slice(vec![1]);
    assert_eq!(
        reg.cancel_atomic_exec(&mut state, &vec![0; 32]),
        Err(ExecError::UnknownInputID)
    );
}

#[test]
fn prepare_locks_and_mints_exec_id() {
    let mut reg = AtomicExecRegistry::new();
    let mut state = one_slice(vec![1]);
    let id = reg.init_atomic_exec(&mut state, vec![], false).unwrap();
    let ids = vec![pair(b"a1", &id)];
    let eid = reg
        .prepare_atomic_exec(&mut state, &id, &ids, vec![0xee])
        .unwrap();
    assert_eq!(eid, compute_exec_id(&ids));
    assert!(state[0].is_locked());
    // The own input entry is consumed.
    assert!(reg.input_of(&id).is_none());
}

#[test]
fn prepare_of_unknown_id_fails() {
    let mut reg = AtomicExecRegistry::new();
    let mut state = one_slice(vec![1]);
    let ids = vec![pair(b"a1", &[0; 32])];
    assert_eq!(
        reg.prepare_atomic_exec(&mut state, &vec![0; 32], &ids, vec![]),
        Err(ExecError::UnknownInputID)
    );
}

#[test]
fn prepare_detects_drift() {
    let mut reg = AtomicExecRegistry::new();
    let mut state = one_slice(vec![1]);
    let id = reg.init_atomic_exec(&mut state, vec![], false).unwrap();
    // An external change between init and prepare.
    state[0].modify(vec![99]).unwrap();
    let ids = vec![pair(b"a1", &id)];
    assert_eq!(
        reg.prepare_atomic_exec(&mut state, &id, &ids, vec![]),
        Err(ExecError::StateCidMismatch)
    );
    // The failed prepare released every lock it took and kept the entry.
    assert!(!state[0].is_locked());
    assert_eq!(reg.input_of(&id).unwrap(), &Vec::<u8>::new());
}

#[test]
fn prepare_accepts_unchanged_state() {
    let mut reg = AtomicExecRegistry::new();
    let mut state = one_slice(vec![1]);
    let id = reg.init_atomic_exec(&mut state, vec![], false).unwrap();
    // Reading does not change the content identifier.
    assert_eq!(state[0].get(), &vec![1]);
    let ids = vec![pair(b"a1", &id)];
    assert!(reg.prepare_atomic_exec(&mut state, &id, &ids, vec![]).is_ok());
}

#[test]
fn commit_returns_output_and_unlocks() {
    let mut reg = AtomicExecRegistry::new();
    let mut state = one_slice(vec![1]);
    let id = reg.init_atomic_exec(&mut state, vec![], true).unwrap();
    let ids = vec![pair(b"a1", &id)];
    let eid = reg
        .prepare_atomic_exec(&mut state, &id, &ids, vec![0xcc, 0xdd])
        .unwrap();
    let output = reg.commit_atomic_exec(&mut state, &eid).unwrap();
    assert_eq!(output, vec![0xcc, 0xdd]);
    assert!(!state[0].is_locked());
    assert_eq!(state[0].get(), &vec![1]);
}

#[test]
fn commit_of_unknown_exec_id_fails() {
    let mut reg = AtomicExecRegistry::new();
    let mut state = one_slice(vec![1]);
    assert_eq!(
        reg.commit_atomic_exec(&mut state, &vec![0; 32]),
        Err(ExecError::UnknownExecID)
    );
}

#[test]
fn rollback_returns_output_and_unlocks() {
    let mut reg = AtomicExecRegistry::new();
    let mut state = one_slice(vec![7]);
    let id = reg.init_atomic_exec(&mut state, vec![], true).unwrap();
    let ids = vec![pair(b"a1", &id)];
    let eid = reg
        .prepare_atomic_exec(&mut state, &id, &ids, vec![3])
        .unwrap();
    let output = reg.rollback_atomic_exec(&mut state, &eid).unwrap();
    assert_eq!(output, vec![3]);
    assert!(!state[0].is_locked());
    assert_eq!(state[0].get(), &vec![7]);
    // The output entry is consumed; a replay finds nothing to roll
    // back, which is success with nothing changed.
    assert_eq!(reg.rollback_atomic_exec(&mut state, &eid), None);
    assert_eq!(state[0].get(), &vec![7]);
    assert!(!state[0].is_locked());
}

#[test]
fn rollback_of_unknown_exec_id_succeeds_unchanged() {
    // A rollback never fails due to missing state: the coordinator
    // echoes a rollback even to a participant that never prepared.
    let mut reg = AtomicExecRegistry::new();
    let mut state = one_slice(vec![7]);
    assert_eq!(reg.rollback_atomic_exec(&mut state, &vec![0; 32]), None);
    assert_eq!(state[0].get(), &vec![7]);
    assert!(!state[0].is_locked());
}

#[test]
fn registry_flush_then_load_restores_it() {
    let mut bs = MemoryStore::new();
    let mut reg = AtomicExecRegistry::new();
    let mut state = one_slice(vec![1]);
    let id = reg.init_atomic_exec(&mut state, vec![3, 4], false).unwrap();
    let cid = reg.flush(&mut bs);

    let mut loaded = AtomicExecRegistry::load(&cid, &bs).unwrap();
    assert_eq!(loaded.input_of(&id).unwrap(), &vec![3, 4]);
    // The loaded registry drives the protocol exactly like the one that
    // was flushed: the same nonce mints the same next input ID.
    let id2a = reg.init_atomic_exec(&mut state, vec![5], false).unwrap();
    let id2b = loaded.init_atomic_exec(&mut state, vec![5], false).unwrap();
    assert_eq!(id2a, id2b);
}

#[test]
fn registry_load_of_unknown_cid_is_none() {
    let bs = MemoryStore::new();
    assert!(AtomicExecRegistry::load(&vec![9; 38], &bs).is_none());
}

#[test]
fn participants_agree_on_exec_id_whatever_the_order() {
    let ids1 = vec![pair(b"a1", &[1; 32]), pair(b"a2", &[2; 32])];
    let ids2 = vec![pair(b"a2", &[2; 32]), pair(b"a1", &[1; 32])];
    assert_eq!(compute_exec_id(&ids1), compute_exec_id(&ids2));
}

#[test]
fn different_maps_give_different_exec_ids() {
    let ids1 = vec![pair(b"a1", &[1; 32]), pair(b"a2", &[2; 32])];
    let ids2 = vec![pair(b"a1", &[1; 32]), pair(b"a2", &[3; 32])];
    assert_ne!(compute_exec_id(&ids1), compute_exec_id(&ids2));
}
