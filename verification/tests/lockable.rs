//! Lockable state slices: lock discipline, content identifiers against
//! the reference CID implementation, and store round trips.

use atomic_exec::atomic::{AtomicExecRegistry, AtomicInputState, LockableState};
use atomic_exec::store::MemoryStore;
use atomic_exec::ExecError;

use cid::multihash::{Code, MultihashDigest};
use cid::Cid;

#[test]
fn input_id_matches_reference_digest() {
    // With the state locked in place no content identifiers are
    // recorded, so the minted ID is the digest of the encoded nonce
    // followed by the raw input bytes.
    let mut reg = AtomicExecRegistry::new();
    let mut state: Vec<AtomicInputState> = Vec::new();
    let id = reg.init_atomic_exec(&mut state, vec![7, 8], true).unwrap();
    let preimage: Vec<u8> = vec![0x00, 7, 8];
    let expected = Code::Blake2b256.digest(&preimage).digest().to_vec();
    assert_eq!(id, expected);
}

#[test]
fn slice_cid_matches_reference_cid() {
    let s = AtomicInputState::new(vec![10, 20, 30]);
    let encoded = s.encode();
    let reference = Cid::new_v1(0x71, Code::Blake2b256.digest(&encoded));
    assert_eq!(s.cid(), reference.to_bytes());
}

#[test]
fn lock_discipline() {
    let mut s = AtomicInputState::new(vec![1]);
    assert!(!s.is_locked());
    assert_eq!(s.lock(), Ok(()));
    assert!(s.is_locked());
    assert_eq!(s.lock(), Err(ExecError::AlreadyLocked));
    assert_eq!(s.modify(vec![2]), Err(ExecError::StateLocked));
    assert_eq!(s.get(), &vec![1]);
    assert_eq!(s.unlock(), Ok(()));
    assert!(!s.is_locked());
    assert_eq!(s.unlock(), Err(ExecError::NotLocked));
    assert_eq!(s.modify(vec![2]), Ok(()));
    assert_eq!(s.get(), &vec![2]);
}

#[test]
fn cid_changes_with_lock_bit_and_payload() {
    let mut s = AtomicInputState::new(vec![1, 2, 3]);
    let c0 = s.cid();
    // Semantically equal slices have equal identifiers.
    let twin = AtomicInputState::new(vec![1, 2, 3]);
    assert_eq!(twin.cid(), c0);
    // Locking changes the identifier.
    s.lock().unwrap();
    let c1 = s.cid();
    assert_ne!(c1, c0);
    // Unlocking restores it.
    s.unlock().unwrap();
    assert_eq!(s.cid(), c0);
    // Modifying the payload changes it.
    s.modify(vec![1, 2, 4]).unwrap();
    assert_ne!(s.cid(), c0);
}

#[test]
fn flush_then_load_preserves_payload_and_lock_bit() {
    let mut bs = MemoryStore::new();
    let mut s = AtomicInputState::new(vec![42, 43]);
    s.lock().unwrap();
    let cid = s.flush(&mut bs);
    let loaded = AtomicInputState::load(&cid, &bs).unwrap();
    assert_eq!(loaded.get(), &vec![42, 43]);
    assert!(loaded.is_locked());

    s.unlock().unwrap();
    let cid2 = s.flush(&mut bs);
    assert_ne!(cid2, cid);
    let loaded2 = AtomicInputState::load(&cid2, &bs).unwrap();
    assert_eq!(loaded2.get(), &vec![42, 43]);
    assert!(!loaded2.is_locked());
}

#[test]
fn load_of_unknown_cid_is_none() {
    let bs = MemoryStore::new();
    assert!(AtomicInputState::load(&vec![1, 2, 3], &bs).is_none());
}

#[test]
fn default_slice_is_unlocked_and_empty() {
    let s = AtomicInputState::default();
    assert!(!s.is_locked());
    assert_eq!(s.get(), &Vec::<u8>::new());
}
