//! The coordinator actor: caller authentication, pre-commitment
//! collection, commit batches, revocation, and method dispatch.

use atomic_exec::state::State;
use atomic_exec::types::{
    encode_ctor_params, encode_params, ConstructorParams, IpcAddress, PreCommitParams,
    RevokeParams,
};
use atomic_exec::{Actor, ExecError, INIT_ACTOR_ADDR};

const GATEWAY: u64 = 64;

fn coordinator() -> State {
    Actor::constructor(INIT_ACTOR_ADDR, ConstructorParams { ipc_gateway_address: GATEWAY })
        .unwrap()
}

fn addr(bytes: &[u8]) -> IpcAddress {
    IpcAddress::new(bytes.to_vec())
}

fn two_actors() -> Vec<IpcAddress> {
    vec![addr(b"a1"), addr(b"a2")]
}

#[test]
fn constructor_rejects_other_callers() {
    let r = Actor::constructor(99, ConstructorParams { ipc_gateway_address: GATEWAY });
    assert!(matches!(r, Err(ExecError::Forbidden)));
}

#[test]
fn pre_commit_rejects_non_gateway_caller() {
    let mut st = coordinator();
    let params =
        PreCommitParams { actors: two_actors(), exec_id: vec![5; 32], commit: 2 };
    let r = Actor::pre_commit(&mut st, 12345, &addr(b"a1"), &params);
    assert!(matches!(r, Err(ExecError::Forbidden)));
}

#[test]
fn pre_commit_rejects_non_participant_origin() {
    let mut st = coordinator();
    let params =
        PreCommitParams { actors: two_actors(), exec_id: vec![5; 32], commit: 2 };
    let r = Actor::pre_commit(&mut st, GATEWAY, &addr(b"stranger"), &params);
    assert!(matches!(r, Err(ExecError::IllegalArgument)));
}

#[test]
fn pre_commit_rejects_duplicate_actors() {
    let mut st = coordinator();
    let params = PreCommitParams {
        actors: vec![addr(b"a1"), addr(b"a1")],
        exec_id: vec![5; 32],
        commit: 2,
    };
    let r = Actor::pre_commit(&mut st, GATEWAY, &addr(b"a1"), &params);
    assert!(matches!(r, Err(ExecError::IllegalArgument)));
}

#[test]
fn second_pre_commitment_completes_and_batches() {
    let mut st = coordinator();
    let exec_id = vec![5; 32];
    let p1 = PreCommitParams { actors: two_actors(), exec_id: exec_id.clone(), commit: 20 };
    let (done, msgs) = Actor::pre_commit(&mut st, GATEWAY, &addr(b"a1"), &p1).unwrap();
    assert!(!done);
    assert!(msgs.is_empty());

    let p2 = PreCommitParams { actors: two_actors(), exec_id: exec_id.clone(), commit: 30 };
    let (done, msgs) = Actor::pre_commit(&mut st, GATEWAY, &addr(b"a2"), &p2).unwrap();
    assert!(done);
    assert_eq!(msgs.len(), 2);
    for m in &msgs {
        assert!(m.wrapped);
        assert_eq!(m.msg.params, exec_id);
        assert_eq!(m.msg.value, 0);
        let to = m.msg.to.as_bytes();
        let method = m.msg.method;
        assert!(
            (to == &b"a1".to_vec() && method == 20) || (to == &b"a2".to_vec() && method == 30),
            "each participant is called back on the method it asked for"
        );
    }
    assert_ne!(msgs[0].msg.to.as_bytes(), msgs[1].msg.to.as_bytes());

    // The entry was removed: replaying a pre-commitment starts over.
    let (done, msgs) = Actor::pre_commit(&mut st, GATEWAY, &addr(b"a1"), &p1).unwrap();
    assert!(!done, "a completed execution emits exactly one batch");
    assert!(msgs.is_empty());
}

#[test]
fn entries_for_distinct_participant_sets_are_independent() {
    let mut st = coordinator();
    let exec_id = vec![5; 32];
    let duo = PreCommitParams { actors: two_actors(), exec_id: exec_id.clone(), commit: 2 };
    let solo = PreCommitParams { actors: vec![addr(b"a1")], exec_id: exec_id.clone(), commit: 2 };
    let (done, _) = Actor::pre_commit(&mut st, GATEWAY, &addr(b"a1"), &duo).unwrap();
    assert!(!done, "one of two pre-commitments does not complete the pair's entry");
    let (done, msgs) = Actor::pre_commit(&mut st, GATEWAY, &addr(b"a1"), &solo).unwrap();
    assert!(done, "the singleton set is its own, immediately complete entry");
    assert_eq!(msgs.len(), 1);
}

#[test]
fn revoke_echoes_one_rollback_to_the_revoker() {
    let mut st = coordinator();
    let exec_id = vec![6; 32];
    let pre = PreCommitParams { actors: two_actors(), exec_id: exec_id.clone(), commit: 20 };
    let (done, _) = Actor::pre_commit(&mut st, GATEWAY, &addr(b"a1"), &pre).unwrap();
    assert!(!done);

    let rev = RevokeParams { actors: two_actors(), exec_id: exec_id.clone(), rollback: 21 };
    let msg = Actor::revoke(&mut st, GATEWAY, &addr(b"a1"), &rev).unwrap();
    assert!(msg.wrapped);
    assert_eq!(msg.msg.to.as_bytes(), &b"a1".to_vec());
    assert_eq!(msg.msg.method, 21);
    assert_eq!(msg.msg.params, exec_id);

    // After the revocation, the other participant alone cannot
    // complete the execution.
    let p2 = PreCommitParams { actors: two_actors(), exec_id: exec_id.clone(), commit: 30 };
    let (done, msgs) = Actor::pre_commit(&mut st, GATEWAY, &addr(b"a2"), &p2).unwrap();
    assert!(!done, "a revoked execution emits no commit batch");
    assert!(msgs.is_empty());
}

#[test]
fn revoke_before_any_pre_commit_still_echoes() {
    let mut st = coordinator();
    let rev = RevokeParams { actors: two_actors(), exec_id: vec![7; 32], rollback: 21 };
    let msg = Actor::revoke(&mut st, GATEWAY, &addr(b"a2"), &rev).unwrap();
    assert_eq!(msg.msg.to.as_bytes(), &b"a2".to_vec());
}

#[test]
fn revoke_rejects_non_participant() {
    let mut st = coordinator();
    let rev = RevokeParams { actors: two_actors(), exec_id: vec![7; 32], rollback: 21 };
    let r = Actor::revoke(&mut st, GATEWAY, &addr(b"stranger"), &rev);
    assert!(matches!(r, Err(ExecError::IllegalArgument)));
}

#[test]
fn invoke_dispatches_constructor_and_pre_commit() {
    let mut st: Option<State> = None;
    let from = addr(b"a1");

    // Constructing from the wrong caller fails.
    let r = Actor::invoke_method(&mut st, 99, &from, 1, &encode_ctor_params(GATEWAY));
    assert!(matches!(r, Err(ExecError::Forbidden)));
    assert!(st.is_none());

    // A proper construction installs the state.
    let r =
        Actor::invoke_method(&mut st, INIT_ACTOR_ADDR, &from, 1, &encode_ctor_params(GATEWAY));
    assert!(r.is_ok());
    assert!(st.is_some());

    // A second construction is refused.
    let r =
        Actor::invoke_method(&mut st, INIT_ACTOR_ADDR, &from, 1, &encode_ctor_params(GATEWAY));
    assert!(matches!(r, Err(ExecError::IllegalState)));

    // One pre-commitment of a pair: not yet done, no messages.
    let params = encode_params(&two_actors(), &vec![5; 32], 20);
    let res = Actor::invoke_method(&mut st, GATEWAY, &from, 2, &params).unwrap();
    assert_eq!(res.ret, vec![0xf4], "the CBOR encoding of false");
    assert!(res.msgs.is_empty());

    // The second one completes and returns the batch.
    let res = Actor::invoke_method(&mut st, GATEWAY, &addr(b"a2"), 2, &params).unwrap();
    assert_eq!(res.ret, vec![0xf5], "the CBOR encoding of true");
    assert_eq!(res.msgs.len(), 2);
}

#[test]
fn invoke_rejects_unknown_method_and_bad_params() {
    let mut st: Option<State> = None;
    let from = addr(b"a1");
    let r = Actor::invoke_method(&mut st, GATEWAY, &from, 9, &vec![]);
    assert!(matches!(r, Err(ExecError::UnhandledMessage)));

    let r = Actor::invoke_method(&mut st, GATEWAY, &from, 2, &vec![]);
    assert!(matches!(r, Err(ExecError::IllegalState)), "no state before construction");

    let r = Actor::invoke_method(&mut st, INIT_ACTOR_ADDR, &from, 1, &encode_ctor_params(GATEWAY));
    assert!(r.is_ok());
    let r = Actor::invoke_method(&mut st, GATEWAY, &from, 2, &vec![0xff]);
    assert!(matches!(r, Err(ExecError::IllegalArgument)), "malformed parameters");

    let r = Actor::invoke_method(&mut st, GATEWAY, &from, 3, &vec![0xff]);
    assert!(matches!(r, Err(ExecError::IllegalArgument)));
}

#[test]
fn invoke_dispatches_revoke() {
    let mut st: Option<State> = None;
    let from = addr(b"a1");
    Actor::invoke_method(&mut st, INIT_ACTOR_ADDR, &from, 1, &encode_ctor_params(GATEWAY))
        .unwrap();
    let params = encode_params(&two_actors(), &vec![5; 32], 21);
    let res = Actor::invoke_method(&mut st, GATEWAY, &from, 3, &params).unwrap();
    assert!(res.ret.is_empty());
    assert_eq!(res.msgs.len(), 1);
    assert_eq!(res.msgs[0].msg.to.as_bytes(), &b"a1".to_vec());
    assert_eq!(res.msgs[0].msg.method, 21);
}
