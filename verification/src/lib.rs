//! Atomic execution protocol for actors in distinct subnets of a
//! hierarchical blockchain.
//!
//! Each participating actor locks a slice of its local state, computes a
//! proposed outcome, and commits or rolls that outcome back atomically with
//! its peers via a coordinator actor in a common parent subnet.

use vstd::prelude::*;

use crate::bytes::bytes_clone;
use crate::cbor::{cbor_bool, encode_bool};
use crate::kvlist::{kv_find, kv_map, kv_unique, lemma_kv_contains};
use crate::state::{canon_views, check_addrs_distinct, registry_key_enc, State};
use crate::types::{
    addr_views, addrs_contain_v, addrs_distinct_v, addrs_find, ctor_params_parse,
    decode_ctor_params, decode_params, params_parse, ConstructorParams, CrossMsg, IpcAddress,
    PreCommitParams, RevokeParams, StorableMsg,
};

pub mod atomic;
pub mod bytes;
pub mod cbor;
pub mod exec_id;
pub mod hash;
pub mod kvlist;
pub mod state;
pub mod store;
pub mod token;
pub mod types;

verus! {

/// Errors surfaced by the atomic execution protocol.
#[derive(Clone, Copy, Debug, PartialEq, Eq, Structural)]
pub enum ExecError {
    /// Malformed parameters, or a cross-message origin outside the
    /// participant set.
    IllegalArgument,
    /// A registry invariant was broken: an identifier collision or
    /// nonce exhaustion.
    IllegalState,
    /// Caller authentication failed.
    Forbidden,
    /// Method number unrecognized.
    UnhandledMessage,
    /// A mutation was attempted on a locked state slice.
    StateLocked,
    /// A lock was requested on an already locked state slice.
    AlreadyLocked,
    /// An unlock was requested on a state slice that is not locked.
    NotLocked,
    /// No input entry is registered under the given input ID.
    UnknownInputID,
    /// No output entry is registered under the given exec ID.
    UnknownExecID,
    /// A state slice drifted between init and prepare: its content
    /// identifier no longer matches the one recorded at init time.
    StateCidMismatch,
    /// Catch-all for failures of external collaborators, kept so the
    /// taxonomy is stable across hosts; the in-memory store of this
    /// crate never raises it.
    Unspecified,
    /// A transfer was requested for more than the available balance.
    InsufficientBalance,
}

/// The address of the system init actor, the only caller allowed to
/// construct the coordinator.
pub const INIT_ACTOR_ADDR: u64 = 1;

/// Atomic execution coordinator actor methods available.
pub enum Method {
    /// Creates the coordinator's state.
    Constructor,
    /// Records a pre-commitment.
    PreCommit,
    /// Withdraws a pre-commitment.
    Revoke,
}

/// The method number of each coordinator method.
pub open spec fn method_number(m: Method) -> u64 {
    match m {
        Method::Constructor => 1,
        Method::PreCommit => 2,
        Method::Revoke => 3,
    }
}

/// Maps a method number to the coordinator method it names.
pub fn method_from_u64(n: u64) -> (r: Option<Method>)
    ensures
        match r {
            Some(m) => method_number(m) == n,
            None => n != 1 && n != 2 && n != 3,
        },
{
    if n == 1 {
        Some(Method::Constructor)
    } else if n == 2 {
        Some(Method::PreCommit)
    } else if n == 3 {
        Some(Method::Revoke)
    } else {
        None
    }
}

/// The registry key of an execution identifier and a participant set
/// given as address bytes.
pub open spec fn registry_key_v(exec_id: Seq<u8>, actors: Seq<Seq<u8>>) -> Seq<u8> {
    registry_key_enc(exec_id, canon_views(actors))
}

/// The slot map a registry entry holds, or empty where there is none.
pub open spec fn entry_or_empty(reg: Map<Seq<u8>, Map<Seq<u8>, u64>>, key: Seq<u8>) -> Map<
    Seq<u8>,
    u64,
> {
    if reg.contains_key(key) {
        reg[key]
    } else {
        Map::empty()
    }
}

/// A batch of commit messages for the collected slots: exactly one
/// wrapped message per pre-committed participant, calling the method it
/// asked for, with the execution identifier as parameters and no value
/// attached.
pub open spec fn commit_batch_ok(msgs: Seq<CrossMsg>, slots: Map<Seq<u8>, u64>, exec_id: Seq<u8>) -> bool {
    &&& (forall|i: int|
        0 <= i < msgs.len() ==> {
            let sm = (#[trigger] msgs[i]).msg;
            &&& msgs[i].wrapped
            &&& slots.contains_key(sm.to@)
            &&& sm.method == slots[sm.to@]
            &&& sm.params@ == exec_id
            &&& sm.value == 0
        })
    &&& (forall|i: int, j: int| 0 <= i < j < msgs.len() ==> msgs[i].msg.to@ != msgs[j].msg.to@)
    &&& (forall|a: Seq<u8>|
        #[trigger] slots.contains_key(a) ==> exists|i: int|
            0 <= i < msgs.len() && msgs[i].msg.to@ == a)
}

/// What handling a `PreCommit` message does: the relation between the
/// coordinator registry before and after, and the result.
pub open spec fn pre_commit_spec(
    reg0: Map<Seq<u8>, Map<Seq<u8>, u64>>,
    gateway: u64,
    caller: u64,
    from: Seq<u8>,
    actors: Seq<Seq<u8>>,
    exec_id: Seq<u8>,
    commit: u64,
    reg1: Map<Seq<u8>, Map<Seq<u8>, u64>>,
    r: Result<(bool, Seq<CrossMsg>), ExecError>,
) -> bool {
    let key = registry_key_v(exec_id, actors);
    let slots = entry_or_empty(reg0, key).insert(from, commit);
    let complete = forall|i: int|
        0 <= i < actors.len() ==> slots.contains_key(#[trigger] actors[i]);
    match r {
        Err(e) => {
            &&& reg1 == reg0
            &&& (e == ExecError::Forbidden <==> caller != gateway)
            &&& (e != ExecError::Forbidden ==> e == ExecError::IllegalArgument && (
            !addrs_distinct_v(actors) || !addrs_contain_v(actors, from)))
        },
        Ok((done, msgs)) => {
            &&& caller == gateway
            &&& addrs_distinct_v(actors)
            &&& addrs_contain_v(actors, from)
            &&& done == complete
            &&& (done ==> reg1 == reg0.remove(key) && commit_batch_ok(msgs, slots, exec_id))
            &&& (!done ==> reg1 == reg0.insert(key, slots) && msgs.len() == 0)
        },
    }
}

/// What handling a `Revoke` message does: the revoker's slot is
/// deleted (the entry itself stays behind for the remaining
/// participants), and one rollback message is echoed to the revoker.
pub open spec fn revoke_spec(
    reg0: Map<Seq<u8>, Map<Seq<u8>, u64>>,
    gateway: u64,
    caller: u64,
    from: Seq<u8>,
    actors: Seq<Seq<u8>>,
    exec_id: Seq<u8>,
    rollback: u64,
    reg1: Map<Seq<u8>, Map<Seq<u8>, u64>>,
    r: Result<CrossMsg, ExecError>,
) -> bool {
    let key = registry_key_v(exec_id, actors);
    let slots = entry_or_empty(reg0, key).remove(from);
    match r {
        Err(e) => {
            &&& reg1 == reg0
            &&& (e == ExecError::Forbidden <==> caller != gateway)
            &&& (e != ExecError::Forbidden ==> e == ExecError::IllegalArgument && (
            !addrs_distinct_v(actors) || !addrs_contain_v(actors, from)))
        },
        Ok(msg) => {
            &&& caller == gateway
            &&& addrs_distinct_v(actors)
            &&& addrs_contain_v(actors, from)
            &&& reg1 == reg0.insert(key, slots)
            &&& msg.wrapped
            &&& msg.msg.to@ == from
            &&& msg.msg.method == rollback
            &&& msg.msg.params@ == exec_id
            &&& msg.msg.value == 0
        },
    }
}

/// A completed execution emits exactly one batch: completion removes
/// the entry, so a replay of the same pre-commitment finds an empty
/// entry and, as long as some other participant has not re-collected,
/// emits nothing.
pub proof fn lemma_completed_execution_batches_once(
    reg0: Map<Seq<u8>, Map<Seq<u8>, u64>>,
    gateway: u64,
    from1: Seq<u8>,
    actors: Seq<Seq<u8>>,
    exec_id: Seq<u8>,
    commit1: u64,
    reg1: Map<Seq<u8>, Map<Seq<u8>, u64>>,
    msgs1: Seq<CrossMsg>,
    from2: Seq<u8>,
    commit2: u64,
    reg2: Map<Seq<u8>, Map<Seq<u8>, u64>>,
    done2: bool,
    msgs2: Seq<CrossMsg>,
    a: Seq<u8>,
)
    requires
        pre_commit_spec(
            reg0,
            gateway,
            gateway,
            from1,
            actors,
            exec_id,
            commit1,
            reg1,
            Ok((true, msgs1)),
        ),
        pre_commit_spec(
            reg1,
            gateway,
            gateway,
            from2,
            actors,
            exec_id,
            commit2,
            reg2,
            Ok((done2, msgs2)),
        ),
        addrs_contain_v(actors, a),
        a != from2,
    ensures
        !done2,
        msgs2.len() == 0,
{
    let key = registry_key_v(exec_id, actors);
    assert(!reg1.contains_key(key));
    let slots2 = entry_or_empty(reg1, key).insert(from2, commit2);
    assert(!slots2.contains_key(a));
    let i = choose|i: int| 0 <= i < actors.len() && actors[i] == a;
    assert(!slots2.contains_key(actors[i]));
}

/// An execution that is revoked before completion emits no commit
/// batch: the revoked slot is gone, so a later pre-commitment by any
/// other participant finds the set incomplete.
pub proof fn lemma_revoke_blocks_batch(
    reg0: Map<Seq<u8>, Map<Seq<u8>, u64>>,
    gateway: u64,
    from: Seq<u8>,
    actors: Seq<Seq<u8>>,
    exec_id: Seq<u8>,
    rollback: u64,
    reg1: Map<Seq<u8>, Map<Seq<u8>, u64>>,
    msg: CrossMsg,
    from2: Seq<u8>,
    commit2: u64,
    reg2: Map<Seq<u8>, Map<Seq<u8>, u64>>,
    done2: bool,
    msgs2: Seq<CrossMsg>,
)
    requires
        revoke_spec(reg0, gateway, gateway, from, actors, exec_id, rollback, reg1, Ok(msg)),
        pre_commit_spec(
            reg1,
            gateway,
            gateway,
            from2,
            actors,
            exec_id,
            commit2,
            reg2,
            Ok((done2, msgs2)),
        ),
        from2 != from,
    ensures
        !done2,
        msgs2.len() == 0,
{
    let key = registry_key_v(exec_id, actors);
    let slots1 = entry_or_empty(reg0, key).remove(from);
    assert(reg1 == reg0.insert(key, slots1));
    assert(entry_or_empty(reg1, key) == slots1);
    let slots2 = slots1.insert(from2, commit2);
    assert(!slots2.contains_key(from));
    let i = choose|i: int| 0 <= i < actors.len() && actors[i] == from;
    assert(!slots2.contains_key(actors[i]));
}

/// Atomic execution coordinator actor.
pub struct Actor;

/// What a method invocation returns: the encoded return value and the
/// cross-subnet messages to dispatch via the gateway.
pub struct InvokeResult {
    /// The encoded return value.
    pub ret: Vec<u8>,
    /// Messages to send through the gateway, wrapped.
    pub msgs: Vec<CrossMsg>,
}

impl Actor {
    /// Creates the coordinator's state. Only the system init actor may
    /// construct it.
    pub fn constructor(caller: u64, params: ConstructorParams) -> (r: Result<State, ExecError>)
        ensures
            match r {
                Ok(st) => {
                    &&& caller == INIT_ACTOR_ADDR
                    &&& st.wf()
                    &&& st.gateway() == params.ipc_gateway_address
                    &&& st.registry_map() == Map::<Seq<u8>, Map<Seq<u8>, u64>>::empty()
                },
                Err(e) => e == ExecError::Forbidden && caller != INIT_ACTOR_ADDR,
            },
    {
        if caller != INIT_ACTOR_ADDR {
            return Err(ExecError::Forbidden);
        }
        Ok(State::new(params))
    }

    /// Records a pre-commitment from an actor to perform an atomic
    /// execution. To be invoked by a wrapped cross-subnet message
    /// originating in one of the participants; `caller` must be the
    /// configured gateway and `from` the originating participant. Once
    /// pre-commitments from all participants are collected, the batch
    /// of commit messages to dispatch is returned together with `true`,
    /// and the entry is removed.
    pub fn pre_commit(
        st: &mut State,
        caller: u64,
        from: &IpcAddress,
        params: &PreCommitParams,
    ) -> (r: Result<(bool, Vec<CrossMsg>), ExecError>)
        requires
            old(st).wf(),
        ensures
            final(st).wf(),
            final(st).gateway() == old(st).gateway(),
            ({
                let rv = match r {
                    Ok((done, msgs)) => Ok((done, msgs@)),
                    Err(e) => Err(e),
                };
                pre_commit_spec(
                    old(st).registry_map(),
                    old(st).gateway(),
                    caller,
                    from@,
                    addr_views(params.actors@),
                    params.exec_id@,
                    params.commit,
                    final(st).registry_map(),
                    rv,
                )
            }),
    {
        let ghost actors_v = addr_views(params.actors@);
        let ghost key_v = registry_key_v(params.exec_id@, actors_v);
        proof {
            crate::state::lemma_canon_agree(params.actors@);
        }
        if caller != st.gateway_addr() {
            return Err(ExecError::Forbidden);
        }
        if !check_addrs_distinct(&params.actors) {
            proof {
                assert(!addrs_distinct_v(actors_v)) by {
                    let (i, j) = choose|i: int, j: int|
                        0 <= i < j < params.actors@.len() && params.actors@[i]@
                            == params.actors@[j]@;
                    assert(actors_v[i] == actors_v[j]);
                }
            }
            return Err(ExecError::IllegalArgument);
        }
        proof {
            assert(addrs_distinct_v(actors_v)) by {
                assert forall|i: int, j: int|
                    0 <= i < j < actors_v.len() implies actors_v[i] != actors_v[j] by {
                    assert(actors_v[i] == params.actors@[i]@);
                    assert(actors_v[j] == params.actors@[j]@);
                }
            }
        }
        if !addrs_find(&params.actors, from) {
            proof {
                assert(!addrs_contain_v(actors_v, from@)) by {
                    if addrs_contain_v(actors_v, from@) {
                        let i = choose|i: int| 0 <= i < actors_v.len() && actors_v[i] == from@;
                        assert(params.actors@[i]@ == from@);
                    }
                }
            }
            return Err(ExecError::IllegalArgument);
        }
        proof {
            assert(addrs_contain_v(actors_v, from@)) by {
                let i = choose|i: int|
                    0 <= i < params.actors@.len() && params.actors@[i]@ == from@;
                assert(actors_v[i] == from@);
            }
        }
        let snapshot = st.modify_atomic_exec(
            &params.exec_id,
            &params.actors,
            from,
            Some(params.commit),
        );
        let ghost slots = entry_or_empty(old(st).registry_map(), key_v).insert(
            from@,
            params.commit,
        );
        proof {
            assert(kv_map(snapshot@) == slots);
        }
        // Check whether any pre-commitment is missing.
        let n = params.actors.len();
        for i in 0..n
            invariant
                n == params.actors@.len(),
                actors_v == addr_views(params.actors@),
                key_v == registry_key_v(params.exec_id@, actors_v),
                slots == entry_or_empty(old(st).registry_map(), key_v).insert(
                    from@,
                    params.commit,
                ),
                caller == old(st).gateway(),
                addrs_distinct_v(actors_v),
                addrs_contain_v(actors_v, from@),
                slots == kv_map(snapshot@),
                kv_unique(snapshot@),
                st.wf(),
                st.gateway() == old(st).gateway(),
                st.registry_map() == old(st).registry_map().insert(key_v, slots),
                forall|j: int| 0 <= j < i ==> slots.contains_key(#[trigger] actors_v[j]),
        {
            proof {
                lemma_kv_contains(snapshot@, params.actors@[i as int]@);
            }
            if kv_find(&snapshot, params.actors[i].as_bytes()).is_none() {
                proof {
                    assert(actors_v[i as int] == params.actors@[i as int]@);
                    assert(!slots.contains_key(actors_v[i as int]));
                }
                return Ok((false, Vec::new()));
            }
            proof {
                assert(actors_v[i as int] == params.actors@[i as int]@);
            }
        }
        // Complete: emit one commit message per collected slot and
        // drop the entry.
        let mut msgs: Vec<CrossMsg> = Vec::new();
        let k = snapshot.len();
        for i in 0..k
            invariant
                k == snapshot@.len(),
                msgs@.len() == i,
                actors_v == addr_views(params.actors@),
                key_v == registry_key_v(params.exec_id@, actors_v),
                slots == entry_or_empty(old(st).registry_map(), key_v).insert(
                    from@,
                    params.commit,
                ),
                caller == old(st).gateway(),
                addrs_distinct_v(actors_v),
                addrs_contain_v(actors_v, from@),
                forall|j: int|
                    0 <= j < params.actors@.len() ==> slots.contains_key(#[trigger] actors_v[j]),
                slots == kv_map(snapshot@),
                kv_unique(snapshot@),
                st.wf(),
                st.gateway() == old(st).gateway(),
                st.registry_map() == old(st).registry_map().insert(key_v, slots),
                forall|j: int|
                    0 <= j < i ==> {
                        let sm = (#[trigger] msgs@[j]).msg;
                        &&& msgs@[j].wrapped
                        &&& sm.to@ == snapshot@[j].0@
                        &&& sm.method == snapshot@[j].1
                        &&& sm.params@ == params.exec_id@
                        &&& sm.value == 0
                    },
        {
            let m = CrossMsg {
                msg: StorableMsg {
                    to: IpcAddress::new(bytes_clone(&snapshot[i].0)),
                    from: IpcAddress::new(Vec::new()),
                    method: snapshot[i].1,
                    params: bytes_clone(&params.exec_id),
                    value: 0,
                    nonce: 0,
                },
                wrapped: true,
            };
            msgs.push(m);
        }
        st.rm_atomic_exec(&params.exec_id, &params.actors);
        proof {
            assert(st.registry_map() =~= old(st).registry_map().remove(key_v));
            assert forall|j: int| 0 <= j < msgs@.len() implies {
                let sm = (#[trigger] msgs@[j]).msg;
                &&& msgs@[j].wrapped
                &&& slots.contains_key(sm.to@)
                &&& sm.method == slots[sm.to@]
                &&& sm.params@ == params.exec_id@
                &&& sm.value == 0
            } by {
                lemma_kv_contains(snapshot@, snapshot@[j].0@);
            }
            assert forall|p: int, q: int|
                0 <= p < q < msgs@.len() implies msgs@[p].msg.to@ != msgs@[q].msg.to@ by {
                assert(msgs@[p].msg.to@ == snapshot@[p].0@);
                assert(msgs@[q].msg.to@ == snapshot@[q].0@);
            }
            assert forall|a: Seq<u8>| #[trigger] slots.contains_key(a) implies exists|i: int|
                0 <= i < msgs@.len() && msgs@[i].msg.to@ == a by {
                lemma_kv_contains(snapshot@, a);
                let idx = choose|idx: int| 0 <= idx < snapshot@.len() && snapshot@[idx].0@ == a;
                assert(msgs@[idx].msg.to@ == a);
            }
        }
        Ok((true, msgs))
    }

    /// Removes a pre-commitment from an actor to perform an atomic
    /// execution, and echoes one rollback message to the revoking
    /// participant, whether or not it had pre-committed. The entry is
    /// left behind for the remaining participants.
    pub fn revoke(
        st: &mut State,
        caller: u64,
        from: &IpcAddress,
        params: &RevokeParams,
    ) -> (r: Result<CrossMsg, ExecError>)
        requires
            old(st).wf(),
        ensures
            final(st).wf(),
            final(st).gateway() == old(st).gateway(),
            revoke_spec(
                old(st).registry_map(),
                old(st).gateway(),
                caller,
                from@,
                addr_views(params.actors@),
                params.exec_id@,
                params.rollback,
                final(st).registry_map(),
                r,
            ),
    {
        let ghost actors_v = addr_views(params.actors@);
        proof {
            crate::state::lemma_canon_agree(params.actors@);
        }
        if caller != st.gateway_addr() {
            return Err(ExecError::Forbidden);
        }
        if !check_addrs_distinct(&params.actors) {
            proof {
                assert(!addrs_distinct_v(actors_v)) by {
                    let (i, j) = choose|i: int, j: int|
                        0 <= i < j < params.actors@.len() && params.actors@[i]@
                            == params.actors@[j]@;
                    assert(actors_v[i] == actors_v[j]);
                }
            }
            return Err(ExecError::IllegalArgument);
        }
        proof {
            assert(addrs_distinct_v(actors_v)) by {
                assert forall|i: int, j: int|
                    0 <= i < j < actors_v.len() implies actors_v[i] != actors_v[j] by {
                    assert(actors_v[i] == params.actors@[i]@);
                    assert(actors_v[j] == params.actors@[j]@);
                }
            }
        }
        if !addrs_find(&params.actors, from) {
            proof {
                assert(!addrs_contain_v(actors_v, from@)) by {
                    if addrs_contain_v(actors_v, from@) {
                        let i = choose|i: int| 0 <= i < actors_v.len() && actors_v[i] == from@;
                        assert(params.actors@[i]@ == from@);
                    }
                }
            }
            return Err(ExecError::IllegalArgument);
        }
        proof {
            assert(addrs_contain_v(actors_v, from@)) by {
                let i = choose|i: int|
                    0 <= i < params.actors@.len() && params.actors@[i]@ == from@;
                assert(actors_v[i] == from@);
            }
        }
        let _ = st.modify_atomic_exec(&params.exec_id, &params.actors, from, None);
        let msg = CrossMsg {
            msg: StorableMsg {
                to: from.clone(),
                from: IpcAddress::new(Vec::new()),
                method: params.rollback,
                params: bytes_clone(&params.exec_id),
                value: 0,
                nonce: 0,
            },
            wrapped: true,
        };
        Ok(msg)
    }
}

impl Actor {
    /// Dispatches a method invocation on the coordinator actor.
    ///
    /// `st` is the actor's state, absent until the constructor ran;
    /// `caller` is the immediate caller in the coordinator's subnet,
    /// and `from` the originating participant of the wrapped
    /// cross-subnet message (meaningful for `PreCommit` and `Revoke`).
    /// `params` holds the method's parameters, encoded.
    pub fn invoke_method(
        st: &mut Option<State>,
        caller: u64,
        from: &IpcAddress,
        method: u64,
        params: &Vec<u8>,
    ) -> (r: Result<InvokeResult, ExecError>)
        requires
            match *old(st) {
                Some(s) => s.wf(),
                None => true,
            },
        ensures
            (match *final(st) {
                Some(s) => s.wf(),
                None => true,
            }),
            !(method == 1 || method == 2 || method == 3) ==> (r matches Err(e) && e
                == ExecError::UnhandledMessage && *final(st) == *old(st)),
            method == 1 ==> (match r {
                Ok(res) => {
                    &&& caller == INIT_ACTOR_ADDR
                    &&& (*old(st)) is None
                    &&& ctor_params_parse(params@) matches Some(g) && ((*final(st)) matches Some(s)
                        && s.gateway() == g && s.registry_map() == Map::<
                        Seq<u8>,
                        Map<Seq<u8>, u64>,
                    >::empty())
                    &&& res.ret@.len() == 0
                    &&& res.msgs@.len() == 0
                },
                Err(e) => {
                    &&& *final(st) == *old(st)
                    &&& (if caller != INIT_ACTOR_ADDR {
                        e == ExecError::Forbidden
                    } else if ctor_params_parse(params@) is None {
                        e == ExecError::IllegalArgument
                    } else {
                        e == ExecError::IllegalState && (*old(st)) is Some
                    })
                },
            }),
            method == 2 ==> (match r {
                Ok(res) => {
                    &&& (*old(st)) matches Some(s0)
                    &&& (*final(st)) matches Some(s1)
                    &&& params_parse(params@) matches Some((actors, eid, commit))
                    &&& (match (*old(st), *final(st)) {
                        (Some(s0), Some(s1)) => {
                            &&& s1.gateway() == s0.gateway()
                            &&& (res.ret@ == cbor_bool(true) || res.ret@ == cbor_bool(false))
                            &&& pre_commit_spec(
                                s0.registry_map(),
                                s0.gateway(),
                                caller,
                                from@,
                                actors,
                                eid,
                                commit,
                                s1.registry_map(),
                                Ok((res.ret@ == cbor_bool(true), res.msgs@)),
                            )
                        },
                        _ => false,
                    })
                },
                Err(e) => {
                    &&& (match (*old(st), *final(st)) {
                        (Some(s0), Some(s1)) => s0.registry_map() == s1.registry_map()
                            && s0.gateway() == s1.gateway(),
                        (None, None) => true,
                        _ => false,
                    })
                    &&& (if (*old(st)) is None {
                        e == ExecError::IllegalState
                    } else if params_parse(params@) is None {
                        e == ExecError::IllegalArgument
                    } else {
                        params_parse(params@) matches Some((actors, eid, commit)) && (match (
                        *old(st),
                        *final(st),
                        ) {
                            (Some(s0), Some(s1)) => pre_commit_spec(
                                s0.registry_map(),
                                s0.gateway(),
                                caller,
                                from@,
                                actors,
                                eid,
                                commit,
                                s1.registry_map(),
                                Err(e),
                            ),
                            _ => false,
                        })
                    })
                },
            }),
            method == 3 ==> (match r {
                Ok(res) => {
                    &&& params_parse(params@) matches Some((actors, eid, rollback))
                    &&& res.ret@.len() == 0
                    &&& res.msgs@.len() == 1
                    &&& (match (*old(st), *final(st)) {
                        (Some(s0), Some(s1)) => s1.gateway() == s0.gateway() && revoke_spec(
                            s0.registry_map(),
                            s0.gateway(),
                            caller,
                            from@,
                            actors,
                            eid,
                            rollback,
                            s1.registry_map(),
                            Ok(res.msgs@[0]),
                        ),
                        _ => false,
                    })
                },
                Err(e) => {
                    &&& (match (*old(st), *final(st)) {
                        (Some(s0), Some(s1)) => s0.registry_map() == s1.registry_map()
                            && s0.gateway() == s1.gateway(),
                        (None, None) => true,
                        _ => false,
                    })
                    &&& (if (*old(st)) is None {
                        e == ExecError::IllegalState
                    } else if params_parse(params@) is None {
                        e == ExecError::IllegalArgument
                    } else {
                        params_parse(params@) matches Some((actors, eid, rollback)) && (match (
                        *old(st),
                        *final(st),
                        ) {
                            (Some(s0), Some(s1)) => revoke_spec(
                                s0.registry_map(),
                                s0.gateway(),
                                caller,
                                from@,
                                actors,
                                eid,
                                rollback,
                                s1.registry_map(),
                                Err(e),
                            ),
                            _ => false,
                        })
                    })
                },
            }),
    {
        let m = match method_from_u64(method) {
            Some(m) => m,
            None => {
                return Err(ExecError::UnhandledMessage);
            },
        };
        match m {
            Method::Constructor => {
                if caller != INIT_ACTOR_ADDR {
                    return Err(ExecError::Forbidden);
                }
                let g = match decode_ctor_params(params) {
                    Some(g) => g,
                    None => {
                        return Err(ExecError::IllegalArgument);
                    },
                };
                if st.is_some() {
                    return Err(ExecError::IllegalState);
                }
                *st = Some(State::new(ConstructorParams { ipc_gateway_address: g }));
                Ok(InvokeResult { ret: Vec::new(), msgs: Vec::new() })
            },
            Method::PreCommit => {
                let (actors, exec_id, commit) = match decode_params(params) {
                    Some(x) => x,
                    None => {
                        return match st {
                            Some(_) => Err(ExecError::IllegalArgument),
                            None => Err(ExecError::IllegalState),
                        };
                    },
                };
                let s = match st {
                    Some(s) => s,
                    None => {
                        return Err(ExecError::IllegalState);
                    },
                };
                let p = PreCommitParams { actors, exec_id, commit };
                match Actor::pre_commit(s, caller, from, &p) {
                    Ok((done, msgs)) => {
                        let mut ret: Vec<u8> = Vec::new();
                        encode_bool(&mut ret, done);
                        proof {
                            assert(cbor_bool(true)[0] == 0xf5u8);
                            assert(cbor_bool(false)[0] == 0xf4u8);
                            assert(cbor_bool(true) != cbor_bool(false));
                            assert(ret@ == cbor_bool(done));
                        }
                        Ok(InvokeResult { ret, msgs })
                    },
                    Err(e) => Err(e),
                }
            },
            Method::Revoke => {
                let (actors, exec_id, rollback) = match decode_params(params) {
                    Some(x) => x,
                    None => {
                        return match st {
                            Some(_) => Err(ExecError::IllegalArgument),
                            None => Err(ExecError::IllegalState),
                        };
                    },
                };
                let s = match st {
                    Some(s) => s,
                    None => {
                        return Err(ExecError::IllegalState);
                    },
                };
                let p = RevokeParams { actors, exec_id, rollback };
                match Actor::revoke(s, caller, from, &p) {
                    Ok(msg) => {
                        let mut msgs: Vec<CrossMsg> = Vec::new();
                        msgs.push(msg);
                        Ok(InvokeResult { ret: Vec::new(), msgs })
                    },
                    Err(e) => Err(e),
                }
            },
        }
    }
}

} // verus!
