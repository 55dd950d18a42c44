//! Lockable state slices and the per-participant registry.
//!
//! A participant wraps each piece of its state that can take part in an
//! atomic execution in an [`AtomicInputState`]: an arbitrary payload
//! (held as its encoded bytes) together with a lock bit. The content
//! identifier of a slice covers the lock bit and the payload, so any
//! lock transition or payload change changes the identifier.
//!
//! The participant's [`AtomicExecRegistry`] drives its local side of
//! the protocol: init captures (or locks) the slices and mints an input
//! ID, prepare verifies the recorded identifiers, locks the slices and
//! mints the execution ID, and commit or rollback unlock them again and
//! hand the recorded output back to the caller.

use vstd::prelude::*;

use crate::bytes::{bytes_clone, bytes_eq, deep};
use crate::cbor::{
    bool_at, bytes_at, cbor_bool, cbor_bytes, cbor_header, cbor_u64, encode_bool, encode_bytes,
    encode_header, encode_u64, header_at, lemma_bool_at, lemma_bytes_at, lemma_header_at,
    lemma_header_len, decode_bool, decode_bytes, decode_header, header_len, MAJOR_ARRAY,
};
use crate::hash::{blake2b256, blake2b256_of, cid_of, compute_cid};
use crate::kvlist::{kv_find, kv_get, kv_map, kv_remove, kv_set, kv_unique, lemma_kv_contains};
use crate::exec_id::{compute_exec_id, exec_id_of, pairs_view};
use crate::store::MemoryStore;
use crate::types::IpcAddress;
use crate::ExecError;

verus! {

/// The encoding of a state slice: a two-element tuple of the lock bit
/// and the payload bytes.
pub open spec fn state_enc(locked: bool, payload: Seq<u8>) -> Seq<u8> {
    cbor_header(MAJOR_ARRAY, 2) + cbor_bool(locked) + cbor_bytes(payload)
}

/// The content identifier of a state slice: a CIDv1 over the slice's
/// encoding. The lock bit participates, so locking changes the
/// identifier.
pub open spec fn state_cid(locked: bool, payload: Seq<u8>) -> Seq<u8> {
    cid_of(state_enc(locked, payload))
}

/// Parses a state slice encoding: the lock bit and the payload.
/// `None` unless the whole buffer is exactly one slice encoding.
pub open spec fn state_parse(buf: Seq<u8>) -> Option<(bool, Seq<u8>)> {
    match header_at(buf, 0) {
        Some((major, n, p)) => if major == MAJOR_ARRAY && n == 2 {
            match bool_at(buf, p) {
                Some((locked, p2)) => match bytes_at(buf, p2) {
                    Some((payload, end)) => if end == buf.len() {
                        Some((locked, payload))
                    } else {
                        None
                    },
                    None => None,
                },
                None => None,
            }
        } else {
            None
        },
        None => None,
    }
}

/// Parsing a slice encoding yields the encoded lock bit and payload; in
/// particular the encoding is injective.
pub proof fn lemma_state_parse_enc(locked: bool, payload: Seq<u8>)
    requires
        payload.len() <= u64::MAX,
    ensures
        state_parse(state_enc(locked, payload)) == Some((locked, payload)),
{
    let buf = state_enc(locked, payload);
    lemma_header_len(MAJOR_ARRAY, 2);
    assert(buf.subrange(0, 1) =~= cbor_header(MAJOR_ARRAY, 2));
    lemma_header_at(buf, 0, MAJOR_ARRAY, 2);
    assert(buf.subrange(1, 2) =~= cbor_bool(locked));
    lemma_bool_at(buf, 1, locked);
    assert(buf.subrange(2, 2 + cbor_bytes(payload).len() as int) =~= cbor_bytes(payload));
    lemma_bytes_at(buf, 2, payload);
}

/// State that supports locking, as well as computing its content
/// identifier.
pub trait LockableState: Sized {
    /// Whether the state is locked.
    spec fn sl_locked(&self) -> bool;

    /// The state's payload bytes.
    spec fn sl_payload(&self) -> Seq<u8>;

    /// The state's current content identifier.
    spec fn sl_cid(&self) -> Seq<u8>;

    /// Locks the state so that it cannot be changed until unlocked.
    /// Locking an already locked state fails.
    fn lock(&mut self) -> (r: Result<(), ExecError>)
        ensures
            old(self).sl_locked() ==> r == Err::<(), ExecError>(ExecError::AlreadyLocked)
                && *final(self) == *old(self),
            !old(self).sl_locked() ==> r == Ok::<(), ExecError>(()) && final(self).sl_locked()
                && final(self).sl_payload() == old(self).sl_payload(),
    ;

    /// Unlocks the state and allows it to be modified. Unlocking a
    /// state that is not locked fails.
    fn unlock(&mut self) -> (r: Result<(), ExecError>)
        ensures
            !old(self).sl_locked() ==> r == Err::<(), ExecError>(ExecError::NotLocked)
                && *final(self) == *old(self),
            old(self).sl_locked() ==> r == Ok::<(), ExecError>(()) && !final(self).sl_locked()
                && final(self).sl_payload() == old(self).sl_payload(),
    ;

    /// Checks if the state is locked.
    fn is_locked(&self) -> (r: bool)
        ensures
            r == self.sl_locked(),
    ;

    /// Returns the state's current content identifier.
    fn cid(&self) -> (r: Vec<u8>)
        ensures
            r@ == self.sl_cid(),
    ;
}

/// Lockable piece of actor state that can be used as an input for
/// atomic execution. The payload is held as its encoded bytes.
pub struct AtomicInputState {
    locked: bool,
    state: Vec<u8>,
}

impl AtomicInputState {
    /// Converts some state into a lockable piece of state, unlocked.
    pub fn new(state: Vec<u8>) -> (r: Self)
        ensures
            !r.sl_locked(),
            r.sl_payload() == state@,
    {
        AtomicInputState { locked: false, state }
    }

    /// Read-only view of the payload, locked or not.
    pub fn get(&self) -> (r: &Vec<u8>)
        ensures
            r@ == self.sl_payload(),
    {
        &self.state
    }

    /// Replaces the payload; fails if the state is locked.
    pub fn modify(&mut self, state: Vec<u8>) -> (r: Result<(), ExecError>)
        ensures
            old(self).sl_locked() ==> r == Err::<(), ExecError>(ExecError::StateLocked)
                && *final(self) == *old(self),
            !old(self).sl_locked() ==> r == Ok::<(), ExecError>(()) && !final(self).sl_locked()
                && final(self).sl_payload() == state@,
    {
        if self.locked {
            Err(ExecError::StateLocked)
        } else {
            self.state = state;
            Ok(())
        }
    }

    /// The encoding of this slice: its lock bit and payload.
    pub fn encode(&self) -> (r: Vec<u8>)
        ensures
            r@ == state_enc(self.sl_locked(), self.sl_payload()),
    {
        let mut out: Vec<u8> = Vec::new();
        encode_header(&mut out, MAJOR_ARRAY, 2);
        encode_bool(&mut out, self.locked);
        encode_bytes(&mut out, &self.state);
        proof {
            assert(out@ =~= state_enc(self.sl_locked(), self.sl_payload()));
        }
        out
    }

    /// Serializes this slice and writes it to the store under its
    /// content identifier, which is returned.
    pub fn flush(&self, bs: &mut MemoryStore) -> (r: Vec<u8>)
        requires
            old(bs).wf(),
        ensures
            final(bs).wf(),
            r@ == self.sl_cid(),
            final(bs).contents() == old(bs).contents().insert(
                self.sl_cid(),
                state_enc(self.sl_locked(), self.sl_payload()),
            ),
    {
        let enc = self.encode();
        let cid = compute_cid(&enc);
        let cid2 = cid.clone();
        proof {
            assert(cid2@ =~= cid@);
        }
        bs.put(cid2, enc);
        cid
    }

    /// Attempts to load a slice from the store by its content
    /// identifier. Returns `None` if no block is stored under the
    /// identifier or the block does not parse as a slice.
    pub fn load(cid: &Vec<u8>, bs: &MemoryStore) -> (r: Option<AtomicInputState>)
        requires
            bs.wf(),
        ensures
            match r {
                Some(s) => bs.contents().contains_key(cid@) && state_parse(bs.contents()[cid@])
                    == Some((s.sl_locked(), s.sl_payload())),
                None => !bs.contents().contains_key(cid@) || state_parse(bs.contents()[cid@])
                    is None,
            },
    {
        let block = match bs.get(cid) {
            Some(b) => b,
            None => {
                return None;
            },
        };
        let (major, n, p) = match decode_header(block, 0) {
            Some(h) => h,
            None => {
                return None;
            },
        };
        if !(major == MAJOR_ARRAY && n == 2) {
            return None;
        }
        let (locked, p2) = match decode_bool(block, p) {
            Some(b) => b,
            None => {
                return None;
            },
        };
        let (payload, end) = match decode_bytes(block, p2) {
            Some(b) => b,
            None => {
                return None;
            },
        };
        if end != block.len() {
            return None;
        }
        Some(AtomicInputState { locked, state: payload })
    }
}

impl LockableState for AtomicInputState {
    closed spec fn sl_locked(&self) -> bool {
        self.locked
    }

    closed spec fn sl_payload(&self) -> Seq<u8> {
        self.state@
    }

    closed spec fn sl_cid(&self) -> Seq<u8> {
        state_cid(self.locked, self.state@)
    }

    fn lock(&mut self) -> (r: Result<(), ExecError>) {
        if self.locked {
            Err(ExecError::AlreadyLocked)
        } else {
            self.locked = true;
            Ok(())
        }
    }

    fn unlock(&mut self) -> (r: Result<(), ExecError>) {
        if !self.locked {
            Err(ExecError::NotLocked)
        } else {
            self.locked = false;
            Ok(())
        }
    }

    fn is_locked(&self) -> (r: bool) {
        self.locked
    }

    fn cid(&self) -> (r: Vec<u8>) {
        let enc = self.encode();
        compute_cid(&enc)
    }
}

impl Default for AtomicInputState {
    /// An unlocked slice with an empty payload.
    fn default() -> (r: Self)
        ensures
            !r.sl_locked(),
            r.sl_payload() == Seq::<u8>::empty(),
    {
        AtomicInputState { locked: false, state: Vec::new() }
    }
}

/// Returns a mutable reference to the slice at index `i`.
fn slice_at<S>(v: &mut Vec<S>, i: usize) -> (e: &mut S)
    requires
        i < old(v).len(),
    ensures
        *e == old(v)@[i as int],
        final(v)@ == old(v)@.update(i as int, *final(e)),
{
    &mut v[i]
}

/// Concatenation of the CBOR byte-string encodings of a list of
/// content identifiers.
pub open spec fn cat_cbor_bytes(cids: Seq<Seq<u8>>) -> Seq<u8>
    decreases cids.len(),
{
    if cids.len() == 0 {
        Seq::empty()
    } else {
        cat_cbor_bytes(cids.drop_last()) + cbor_bytes(cids.last())
    }
}

/// The preimage hashed into an atomic input ID: the registry nonce,
/// the recorded content identifiers, and the raw input bytes.
pub open spec fn input_id_preimage(nonce: u64, cids: Seq<Seq<u8>>, input: Seq<u8>) -> Seq<u8> {
    cbor_u64(nonce) + cat_cbor_bytes(cids) + input
}

/// A freshly minted atomic input ID.
pub open spec fn input_id_of(nonce: u64, cids: Seq<Seq<u8>>, input: Seq<u8>) -> Seq<u8> {
    blake2b256_of(input_id_preimage(nonce, cids, input))
}

/// Preimages minted under distinct nonces are distinct, whatever
/// content identifiers and inputs they cover: the nonce's encoding
/// determines its own length, so equal preimages decode to equal
/// nonces.
pub proof fn lemma_input_id_preimage_nonce_injective(
    n1: u64,
    c1: Seq<Seq<u8>>,
    i1: Seq<u8>,
    n2: u64,
    c2: Seq<Seq<u8>>,
    i2: Seq<u8>,
)
    requires
        n1 != n2,
    ensures
        input_id_preimage(n1, c1, i1) != input_id_preimage(n2, c2, i2),
{
    if input_id_preimage(n1, c1, i1) == input_id_preimage(n2, c2, i2) {
        assert(cbor_u64(n1) + (cat_cbor_bytes(c1) + i1) =~= input_id_preimage(n1, c1, i1));
        assert(cbor_u64(n2) + (cat_cbor_bytes(c2) + i2) =~= input_id_preimage(n2, c2, i2));
        crate::cbor::lemma_header_prefix_injective(
            crate::cbor::MAJOR_UINT,
            n1,
            cat_cbor_bytes(c1) + i1,
            n2,
            cat_cbor_bytes(c2) + i2,
        );
    }
}

/// Internal state associated with an atomic execution input: the
/// content identifiers captured at init time for the slices left
/// unlocked, and the opaque input data.
pub struct AtomicInputEntry {
    /// Content identifiers of the slices that init left unlocked.
    pub unlocked_state_cids: Vec<Vec<u8>>,
    /// Opaque data associated with the input ID.
    pub input: Vec<u8>,
}

impl View for AtomicInputEntry {
    type V = (Seq<Seq<u8>>, Seq<u8>);

    open spec fn view(&self) -> Self::V {
        (deep(self.unlocked_state_cids@), self.input@)
    }
}

/// Internal state associated with an atomic execution ID: the opaque
/// output data to commit or roll back.
pub struct AtomicOutputEntry {
    /// Opaque data associated with the execution ID.
    pub output: Vec<u8>,
}

impl View for AtomicOutputEntry {
    type V = Seq<u8>;

    open spec fn view(&self) -> Seq<u8> {
        self.output@
    }
}

/// All slices of the list are unlocked.
pub open spec fn all_unlocked<S: LockableState>(s: Seq<S>) -> bool {
    forall|i: int| 0 <= i < s.len() ==> !s[i].sl_locked()
}

/// All slices of the list are locked.
pub open spec fn all_locked<S: LockableState>(s: Seq<S>) -> bool {
    forall|i: int| 0 <= i < s.len() ==> s[i].sl_locked()
}

/// The content identifiers of all slices, in order.
pub open spec fn cids_of<S: LockableState>(s: Seq<S>) -> Seq<Seq<u8>> {
    s.map_values(|x: S| x.sl_cid())
}

/// The content identifiers of the unlocked slices, in order.
pub open spec fn unlocked_cids_of<S: LockableState>(s: Seq<S>) -> Seq<Seq<u8>>
    decreases s.len(),
{
    if s.len() == 0 {
        Seq::empty()
    } else {
        let rest = unlocked_cids_of(s.drop_last());
        if s.last().sl_locked() {
            rest
        } else {
            rest.push(s.last().sl_cid())
        }
    }
}

/// Whether any slice of the list is locked.
fn any_locked_slice<S: LockableState>(state: &Vec<S>) -> (r: bool)
    ensures
        r == !all_unlocked(state@),
{
    let n = state.len();
    for i in 0..n
        invariant
            n == state@.len(),
            forall|j: int| 0 <= j < i ==> !state@[j].sl_locked(),
    {
        if state[i].is_locked() {
            return true;
        }
    }
    false
}

/// Collects the content identifiers of all slices, in order.
fn collect_cids<S: LockableState>(state: &Vec<S>) -> (r: Vec<Vec<u8>>)
    ensures
        deep(r@) == cids_of(state@),
{
    let n = state.len();
    let mut cids: Vec<Vec<u8>> = Vec::new();
    for i in 0..n
        invariant
            n == state@.len(),
            deep(cids@) == cids_of(state@).take(i as int),
    {
        let c = state[i].cid();
        let ghost pre = cids@;
        cids.push(c);
        proof {
            assert(deep(pre).len() == pre.len());
            assert(cids_of(state@).len() == state@.len());
            assert forall|k: int| 0 <= k < cids@.len() implies deep(cids@)[k] == cids_of(
                state@,
            ).take(i + 1)[k] by {
                assert(deep(cids@)[k] == cids@[k]@);
                if k < i {
                    assert(cids@[k] == pre[k]);
                    assert(deep(pre)[k] == pre[k]@);
                    assert(deep(pre)[k] == cids_of(state@).take(i as int)[k]);
                } else {
                    assert(cids@[k] == c);
                    assert(cids_of(state@)[k] == state@[k].sl_cid());
                }
            }
            assert(deep(cids@) =~= cids_of(state@).take(i + 1));
        }
    }
    proof {
        assert(cids_of(state@).take(n as int) =~= cids_of(state@));
    }
    cids
}

/// Collects the content identifiers of the unlocked slices, in order.
fn collect_unlocked_cids<S: LockableState>(state: &Vec<S>) -> (r: Vec<Vec<u8>>)
    ensures
        deep(r@) == unlocked_cids_of(state@),
{
    let n = state.len();
    let mut cids: Vec<Vec<u8>> = Vec::new();
    for i in 0..n
        invariant
            n == state@.len(),
            deep(cids@) == unlocked_cids_of(state@.take(i as int)),
    {
        let ghost part = state@.take(i + 1);
        proof {
            assert(part.drop_last() =~= state@.take(i as int));
            assert(part.last() == state@[i as int]);
        }
        if !state[i].is_locked() {
            let c = state[i].cid();
            let ghost pre = cids@;
            cids.push(c);
            proof {
                assert(deep(pre).len() == pre.len());
                assert forall|k: int| 0 <= k < cids@.len() implies deep(cids@)[k] == unlocked_cids_of(
                    part,
                )[k] by {
                    assert(deep(cids@)[k] == cids@[k]@);
                    if k < pre.len() {
                        assert(cids@[k] == pre[k]);
                        assert(deep(pre)[k] == pre[k]@);
                    } else {
                        assert(cids@[k] == c);
                    }
                }
                assert(deep(cids@) =~= unlocked_cids_of(part));
            }
        } else {
            proof {
                assert(deep(cids@) =~= unlocked_cids_of(part));
            }
        }
    }
    proof {
        assert(state@.take(n as int) =~= state@);
    }
    cids
}

/// Compares two lists of content identifiers element-wise.
fn cid_lists_eq(a: &Vec<Vec<u8>>, b: &Vec<Vec<u8>>) -> (r: bool)
    ensures
        r == (deep(a@) == deep(b@)),
{
    proof {
        assert(deep(a@).len() == a@.len());
        assert(deep(b@).len() == b@.len());
    }
    if a.len() != b.len() {
        proof {
            assert(deep(a@) != deep(b@));
        }
        return false;
    }
    let n = a.len();
    for i in 0..n
        invariant
            n == a@.len() && n == b@.len(),
            forall|j: int| 0 <= j < i ==> deep(a@)[j] == deep(b@)[j],
    {
        if !bytes_eq(&a[i], &b[i]) {
            proof {
                assert(deep(a@)[i as int] == a@[i as int]@);
                assert(deep(b@)[i as int] == b@[i as int]@);
            }
            return false;
        }
        proof {
            assert(deep(a@)[i as int] == a@[i as int]@);
            assert(deep(b@)[i as int] == b@[i as int]@);
        }
    }
    proof {
        assert(deep(a@) =~= deep(b@));
    }
    true
}

/// Mints an atomic input ID from the registry nonce, the recorded
/// content identifiers, and the input bytes.
fn mint_input_id(nonce: u64, cids: &Vec<Vec<u8>>, input: &Vec<u8>) -> (r: Vec<u8>)
    ensures
        r@ == input_id_of(nonce, deep(cids@), input@),
        r@.len() == 32,
{
    let mut pre: Vec<u8> = Vec::new();
    encode_u64(&mut pre, nonce);
    let m = cids.len();
    for i in 0..m
        invariant
            m == cids@.len(),
            pre@ == cbor_u64(nonce) + cat_cbor_bytes(deep(cids@).take(i as int)),
    {
        encode_bytes(&mut pre, &cids[i]);
        proof {
            let part = deep(cids@).take(i + 1);
            assert(deep(cids@).len() == cids@.len());
            assert(part.drop_last() =~= deep(cids@).take(i as int));
            assert(part.last() == cids@[i as int]@);
            assert(pre@ =~= cbor_u64(nonce) + cat_cbor_bytes(part));
        }
    }
    proof {
        assert(deep(cids@).take(m as int) =~= deep(cids@));
    }
    pre.extend_from_slice(input.as_slice());
    proof {
        assert(pre@ =~= input_id_preimage(nonce, deep(cids@), input@));
    }
    blake2b256(&pre)
}

/// Locks every unlocked slice; slices already locked are untouched.
fn lock_unlocked<S: LockableState>(state: &mut Vec<S>)
    ensures
        final(state)@.len() == old(state)@.len(),
        forall|i: int|
            0 <= i < final(state)@.len() ==> final(state)@[i].sl_locked()
                && final(state)@[i].sl_payload() == old(state)@[i].sl_payload(),
        forall|i: int|
            0 <= i < final(state)@.len() && old(state)@[i].sl_locked() ==> final(state)@[i] == old(
                state,
            )@[i],
{
    let n = state.len();
    let mut i: usize = 0;
    while i < n
        invariant
            0 <= i <= n,
            n == state@.len(),
            old(state)@.len() == n,
            forall|j: int| i <= j < n ==> state@[j] == old(state)@[j],
            forall|j: int|
                0 <= j < i ==> state@[j].sl_locked() && state@[j].sl_payload() == old(
                    state,
                )@[j].sl_payload(),
            forall|j: int|
                0 <= j < i && old(state)@[j].sl_locked() ==> state@[j] == old(state)@[j],
        decreases n - i,
    {
        if !state[i].is_locked() {
            let e = slice_at(state, i);
            match e.lock() {
                Ok(()) => (),
                Err(_) => {
                    return vstd::pervasive::unreached();
                },
            }
        }
        i = i + 1;
    }
}

/// Unlocks every locked slice; slices already unlocked are untouched.
fn unlock_locked<S: LockableState>(state: &mut Vec<S>)
    ensures
        final(state)@.len() == old(state)@.len(),
        forall|i: int|
            0 <= i < final(state)@.len() ==> !final(state)@[i].sl_locked()
                && final(state)@[i].sl_payload() == old(state)@[i].sl_payload(),
        forall|i: int|
            0 <= i < final(state)@.len() && !old(state)@[i].sl_locked() ==> final(state)@[i]
                == old(state)@[i],
{
    let n = state.len();
    let mut i: usize = 0;
    while i < n
        invariant
            0 <= i <= n,
            n == state@.len(),
            old(state)@.len() == n,
            forall|j: int| i <= j < n ==> state@[j] == old(state)@[j],
            forall|j: int|
                0 <= j < i ==> !state@[j].sl_locked() && state@[j].sl_payload() == old(
                    state,
                )@[j].sl_payload(),
            forall|j: int|
                0 <= j < i && !old(state)@[j].sl_locked() ==> state@[j] == old(state)@[j],
        decreases n - i,
    {
        if state[i].is_locked() {
            let e = slice_at(state, i);
            match e.unlock() {
                Ok(()) => (),
                Err(_) => {
                    return vstd::pervasive::unreached();
                },
            }
        }
        i = i + 1;
    }
}

/// One in-flight input as plain values: its ID, the content
/// identifiers recorded at init, and the input data.
pub open spec fn input_entry_enc(e: (Seq<u8>, Seq<Seq<u8>>, Seq<u8>)) -> Seq<u8> {
    cbor_bytes(e.0) + cbor_header(MAJOR_ARRAY, e.1.len() as u64) + cat_cbor_bytes(e.1)
        + cbor_bytes(e.2)
}

/// The encoding of a row of in-flight inputs.
pub open spec fn input_entries_enc(s: Seq<(Seq<u8>, Seq<Seq<u8>>, Seq<u8>)>) -> Seq<u8>
    decreases s.len(),
{
    if s.len() == 0 {
        Seq::empty()
    } else {
        input_entries_enc(s.drop_last()) + input_entry_enc(s.last())
    }
}

/// One in-flight execution as plain values: its ID and the output data.
pub open spec fn exec_entry_enc(e: (Seq<u8>, Seq<u8>)) -> Seq<u8> {
    cbor_bytes(e.0) + cbor_bytes(e.1)
}

/// The encoding of a row of in-flight executions.
pub open spec fn exec_entries_enc(s: Seq<(Seq<u8>, Seq<u8>)>) -> Seq<u8>
    decreases s.len(),
{
    if s.len() == 0 {
        Seq::empty()
    } else {
        exec_entries_enc(s.drop_last()) + exec_entry_enc(s.last())
    }
}

/// The encoding of a whole registry: the nonce and the two entry rows,
/// each preceded by its length.
pub open spec fn registry_enc(
    nonce: u64,
    il: Seq<(Seq<u8>, Seq<Seq<u8>>, Seq<u8>)>,
    el: Seq<(Seq<u8>, Seq<u8>)>,
) -> Seq<u8> {
    cbor_u64(nonce) + cbor_header(MAJOR_ARRAY, il.len() as u64) + input_entries_enc(il)
        + cbor_header(MAJOR_ARRAY, el.len() as u64) + exec_entries_enc(el)
}

/// Parses one in-flight input at `pos`.
pub open spec fn input_entry_at(buf: Seq<u8>, pos: int) -> Option<
    ((Seq<u8>, Seq<Seq<u8>>, Seq<u8>), int),
> {
    match bytes_at(buf, pos) {
        Some((key, p)) => match header_at(buf, p) {
            Some((major, k, p1)) => if major == MAJOR_ARRAY {
                match crate::types::bstrs_at(buf, p1, k as nat) {
                    Some((cids, p2)) => match bytes_at(buf, p2) {
                        Some((input, end)) => Some(((key, cids, input), end)),
                        None => None,
                    },
                    None => None,
                }
            } else {
                None
            },
            None => None,
        },
        None => None,
    }
}

/// Parses `n` in-flight inputs in a row at `pos`.
pub open spec fn input_entries_at(buf: Seq<u8>, pos: int, n: nat) -> Option<
    (Seq<(Seq<u8>, Seq<Seq<u8>>, Seq<u8>)>, int),
>
    decreases n,
{
    if n == 0 {
        Some((Seq::empty(), pos))
    } else {
        match input_entry_at(buf, pos) {
            Some((e, p)) => match input_entries_at(buf, p, (n - 1) as nat) {
                Some((rest, end)) => Some((seq![e] + rest, end)),
                None => None,
            },
            None => None,
        }
    }
}

/// Parses one in-flight execution at `pos`.
pub open spec fn exec_entry_at(buf: Seq<u8>, pos: int) -> Option<((Seq<u8>, Seq<u8>), int)> {
    match bytes_at(buf, pos) {
        Some((key, p)) => match bytes_at(buf, p) {
            Some((output, end)) => Some(((key, output), end)),
            None => None,
        },
        None => None,
    }
}

/// Parses `n` in-flight executions in a row at `pos`.
pub open spec fn exec_entries_at(buf: Seq<u8>, pos: int, n: nat) -> Option<
    (Seq<(Seq<u8>, Seq<u8>)>, int),
>
    decreases n,
{
    if n == 0 {
        Some((Seq::empty(), pos))
    } else {
        match exec_entry_at(buf, pos) {
            Some((e, p)) => match exec_entries_at(buf, p, (n - 1) as nat) {
                Some((rest, end)) => Some((seq![e] + rest, end)),
                None => None,
            },
            None => None,
        }
    }
}

/// Parses a whole buffer as a registry.
pub open spec fn registry_parse(buf: Seq<u8>) -> Option<
    (u64, Seq<(Seq<u8>, Seq<Seq<u8>>, Seq<u8>)>, Seq<(Seq<u8>, Seq<u8>)>),
> {
    match crate::cbor::u64_at(buf, 0) {
        Some((nonce, p)) => match header_at(buf, p) {
            Some((major, n, p1)) => if major == MAJOR_ARRAY {
                match input_entries_at(buf, p1, n as nat) {
                    Some((il, p2)) => match header_at(buf, p2) {
                        Some((emajor, m, p3)) => if emajor == MAJOR_ARRAY {
                            match exec_entries_at(buf, p3, m as nat) {
                                Some((el, end)) => if end == buf.len() {
                                    Some((nonce, il, el))
                                } else {
                                    None
                                },
                                None => None,
                            }
                        } else {
                            None
                        },
                        None => None,
                    },
                    None => None,
                }
            } else {
                None
            },
            None => None,
        },
        None => None,
    }
}

/// Every length in an in-flight input is encodable.
pub open spec fn input_entry_bounded(e: (Seq<u8>, Seq<Seq<u8>>, Seq<u8>)) -> bool {
    &&& e.0.len() <= u64::MAX
    &&& e.1.len() <= u64::MAX
    &&& (forall|i: int| 0 <= i < e.1.len() ==> (#[trigger] e.1[i]).len() <= u64::MAX)
    &&& e.2.len() <= u64::MAX
}

/// Parsing inverts encoding for one in-flight input.
pub proof fn lemma_input_entry_at(buf: Seq<u8>, pos: int, e: (Seq<u8>, Seq<Seq<u8>>, Seq<u8>))
    requires
        0 <= pos,
        input_entry_bounded(e),
        pos + input_entry_enc(e).len() <= buf.len(),
        buf.subrange(pos, pos + input_entry_enc(e).len() as int) == input_entry_enc(e),
    ensures
        input_entry_at(buf, pos) == Some((e, pos + input_entry_enc(e).len() as int)),
{
    let a = input_entry_enc(e);
    let klen = cbor_bytes(e.0).len() as int;
    let hlen = header_len(e.1.len() as u64);
    let clen = cat_cbor_bytes(e.1).len() as int;
    let ilen = cbor_bytes(e.2).len() as int;
    lemma_header_len(MAJOR_ARRAY, e.1.len() as u64);
    assert(a.subrange(0, klen) =~= cbor_bytes(e.0));
    crate::bytes::lemma_subrange_at(buf, pos, a, 0, cbor_bytes(e.0));
    lemma_bytes_at(buf, pos, e.0);
    assert(a.subrange(klen, klen + hlen) =~= cbor_header(MAJOR_ARRAY, e.1.len() as u64));
    crate::bytes::lemma_subrange_at(buf, pos, a, klen, cbor_header(MAJOR_ARRAY, e.1.len() as u64));
    lemma_header_at(buf, pos + klen, MAJOR_ARRAY, e.1.len() as u64);
    assert(a.subrange(klen + hlen, klen + hlen + clen) =~= cat_cbor_bytes(e.1));
    crate::bytes::lemma_subrange_at(buf, pos, a, klen + hlen, cat_cbor_bytes(e.1));
    crate::types::lemma_bstrs_at(buf, pos + klen + hlen, e.1);
    assert(a.subrange(klen + hlen + clen, klen + hlen + clen + ilen) =~= cbor_bytes(e.2));
    crate::bytes::lemma_subrange_at(buf, pos, a, klen + hlen + clen, cbor_bytes(e.2));
    lemma_bytes_at(buf, pos + klen + hlen + clen, e.2);
}

/// An entry row's encoding splits at its first entry.
pub proof fn lemma_input_entries_enc_first(s: Seq<(Seq<u8>, Seq<Seq<u8>>, Seq<u8>)>)
    requires
        s.len() > 0,
    ensures
        input_entries_enc(s) == input_entry_enc(s[0]) + input_entries_enc(s.drop_first()),
    decreases s.len(),
{
    if s.len() == 1 {
        assert(s.drop_last() =~= Seq::<(Seq<u8>, Seq<Seq<u8>>, Seq<u8>)>::empty());
        assert(s.drop_first() =~= Seq::<(Seq<u8>, Seq<Seq<u8>>, Seq<u8>)>::empty());
        assert(input_entries_enc(s) =~= input_entry_enc(s[0]) + input_entries_enc(
            s.drop_first(),
        ));
    } else {
        lemma_input_entries_enc_first(s.drop_last());
        assert(s.drop_last()[0] == s[0]);
        assert(s.drop_first().drop_last() =~= s.drop_last().drop_first());
        assert(s.drop_first().last() == s.last());
        assert(input_entries_enc(s.drop_first()) == input_entries_enc(
            s.drop_first().drop_last(),
        ) + input_entry_enc(s.drop_first().last()));
        assert(input_entries_enc(s) =~= input_entry_enc(s[0]) + input_entries_enc(
            s.drop_first(),
        ));
    }
}

/// Parsing inverts encoding for a row of in-flight inputs.
pub proof fn lemma_input_entries_at(buf: Seq<u8>, pos: int, s: Seq<(Seq<u8>, Seq<Seq<u8>>, Seq<u8>)>)
    requires
        0 <= pos,
        forall|i: int| 0 <= i < s.len() ==> input_entry_bounded(#[trigger] s[i]),
        pos + input_entries_enc(s).len() <= buf.len(),
        buf.subrange(pos, pos + input_entries_enc(s).len() as int) == input_entries_enc(s),
    ensures
        input_entries_at(buf, pos, s.len() as nat) == Some(
            (s, pos + input_entries_enc(s).len() as int),
        ),
    decreases s.len(),
{
    if s.len() == 0 {
        assert(s =~= Seq::<(Seq<u8>, Seq<Seq<u8>>, Seq<u8>)>::empty());
    } else {
        let first = s[0];
        let rest = s.drop_first();
        lemma_input_entries_enc_first(s);
        let flen = input_entry_enc(first).len() as int;
        let total = input_entries_enc(s).len() as int;
        assert(input_entries_enc(s).subrange(0, flen) =~= input_entry_enc(first));
        crate::bytes::lemma_subrange_at(buf, pos, input_entries_enc(s), 0, input_entry_enc(first));
        lemma_input_entry_at(buf, pos, first);
        assert(input_entries_enc(s).subrange(flen, total) =~= input_entries_enc(rest));
        crate::bytes::lemma_subrange_at(buf, pos, input_entries_enc(s), flen, input_entries_enc(rest));
        assert forall|i: int| 0 <= i < rest.len() implies input_entry_bounded(#[trigger] rest[i]) by {
            assert(rest[i] == s[i + 1]);
        }
        lemma_input_entries_at(buf, pos + flen, rest);
        assert(seq![first] + rest =~= s);
    }
}

/// Parsing inverts encoding for one in-flight execution.
pub proof fn lemma_exec_entry_at(buf: Seq<u8>, pos: int, e: (Seq<u8>, Seq<u8>))
    requires
        0 <= pos,
        e.0.len() <= u64::MAX,
        e.1.len() <= u64::MAX,
        pos + exec_entry_enc(e).len() <= buf.len(),
        buf.subrange(pos, pos + exec_entry_enc(e).len() as int) == exec_entry_enc(e),
    ensures
        exec_entry_at(buf, pos) == Some((e, pos + exec_entry_enc(e).len() as int)),
{
    let a = exec_entry_enc(e);
    let klen = cbor_bytes(e.0).len() as int;
    let olen = cbor_bytes(e.1).len() as int;
    assert(a.subrange(0, klen) =~= cbor_bytes(e.0));
    crate::bytes::lemma_subrange_at(buf, pos, a, 0, cbor_bytes(e.0));
    lemma_bytes_at(buf, pos, e.0);
    assert(a.subrange(klen, klen + olen) =~= cbor_bytes(e.1));
    crate::bytes::lemma_subrange_at(buf, pos, a, klen, cbor_bytes(e.1));
    lemma_bytes_at(buf, pos + klen, e.1);
}

/// An execution row's encoding splits at its first entry.
pub proof fn lemma_exec_entries_enc_first(s: Seq<(Seq<u8>, Seq<u8>)>)
    requires
        s.len() > 0,
    ensures
        exec_entries_enc(s) == exec_entry_enc(s[0]) + exec_entries_enc(s.drop_first()),
    decreases s.len(),
{
    if s.len() == 1 {
        assert(s.drop_last() =~= Seq::<(Seq<u8>, Seq<u8>)>::empty());
        assert(s.drop_first() =~= Seq::<(Seq<u8>, Seq<u8>)>::empty());
        assert(exec_entries_enc(s) =~= exec_entry_enc(s[0]) + exec_entries_enc(s.drop_first()));
    } else {
        lemma_exec_entries_enc_first(s.drop_last());
        assert(s.drop_last()[0] == s[0]);
        assert(s.drop_first().drop_last() =~= s.drop_last().drop_first());
        assert(s.drop_first().last() == s.last());
        assert(exec_entries_enc(s.drop_first()) == exec_entries_enc(s.drop_first().drop_last())
            + exec_entry_enc(s.drop_first().last()));
        assert(exec_entries_enc(s) =~= exec_entry_enc(s[0]) + exec_entries_enc(s.drop_first()));
    }
}

/// Parsing inverts encoding for a row of in-flight executions.
pub proof fn lemma_exec_entries_at(buf: Seq<u8>, pos: int, s: Seq<(Seq<u8>, Seq<u8>)>)
    requires
        0 <= pos,
        forall|i: int|
            0 <= i < s.len() ==> (#[trigger] s[i]).0.len() <= u64::MAX && s[i].1.len()
                <= u64::MAX,
        pos + exec_entries_enc(s).len() <= buf.len(),
        buf.subrange(pos, pos + exec_entries_enc(s).len() as int) == exec_entries_enc(s),
    ensures
        exec_entries_at(buf, pos, s.len() as nat) == Some(
            (s, pos + exec_entries_enc(s).len() as int),
        ),
    decreases s.len(),
{
    if s.len() == 0 {
        assert(s =~= Seq::<(Seq<u8>, Seq<u8>)>::empty());
    } else {
        let first = s[0];
        let rest = s.drop_first();
        lemma_exec_entries_enc_first(s);
        let flen = exec_entry_enc(first).len() as int;
        let total = exec_entries_enc(s).len() as int;
        assert(exec_entries_enc(s).subrange(0, flen) =~= exec_entry_enc(first));
        crate::bytes::lemma_subrange_at(buf, pos, exec_entries_enc(s), 0, exec_entry_enc(first));
        lemma_exec_entry_at(buf, pos, first);
        assert(exec_entries_enc(s).subrange(flen, total) =~= exec_entries_enc(rest));
        crate::bytes::lemma_subrange_at(buf, pos, exec_entries_enc(s), flen, exec_entries_enc(rest));
        assert forall|i: int|
            0 <= i < rest.len() implies (#[trigger] rest[i]).0.len() <= u64::MAX
            && rest[i].1.len() <= u64::MAX by {
            assert(rest[i] == s[i + 1]);
        }
        lemma_exec_entries_at(buf, pos + flen, rest);
        assert(seq![first] + rest =~= s);
    }
}

/// Every length in a registry is encodable.
pub open spec fn registry_bounded(
    il: Seq<(Seq<u8>, Seq<Seq<u8>>, Seq<u8>)>,
    el: Seq<(Seq<u8>, Seq<u8>)>,
) -> bool {
    &&& il.len() <= u64::MAX
    &&& el.len() <= u64::MAX
    &&& (forall|i: int| 0 <= i < il.len() ==> input_entry_bounded(#[trigger] il[i]))
    &&& (forall|i: int|
        0 <= i < el.len() ==> (#[trigger] el[i]).0.len() <= u64::MAX && el[i].1.len()
            <= u64::MAX)
}

/// Parsing inverts encoding for a whole registry.
#[verifier::rlimit(50)]
pub proof fn lemma_registry_parse_enc(
    nonce: u64,
    il: Seq<(Seq<u8>, Seq<Seq<u8>>, Seq<u8>)>,
    el: Seq<(Seq<u8>, Seq<u8>)>,
)
    requires
        registry_bounded(il, el),
    ensures
        registry_parse(registry_enc(nonce, il, el)) == Some((nonce, il, el)),
{
    let buf = registry_enc(nonce, il, el);
    let nlen = cbor_u64(nonce).len() as int;
    lemma_header_len(crate::cbor::MAJOR_UINT, nonce);
    assert(buf.subrange(0, nlen) =~= cbor_u64(nonce));
    crate::cbor::lemma_u64_at(buf, 0, nonce);
    let hlen = header_len(il.len() as u64);
    lemma_header_len(MAJOR_ARRAY, il.len() as u64);
    assert(buf.subrange(nlen, nlen + hlen) =~= cbor_header(MAJOR_ARRAY, il.len() as u64));
    lemma_header_at(buf, nlen, MAJOR_ARRAY, il.len() as u64);
    let p1 = nlen + hlen;
    let clen = input_entries_enc(il).len() as int;
    assert(buf.subrange(p1, p1 + clen) =~= input_entries_enc(il));
    lemma_input_entries_at(buf, p1, il);
    let p2 = p1 + clen;
    let hlen2 = header_len(el.len() as u64);
    lemma_header_len(MAJOR_ARRAY, el.len() as u64);
    assert(buf.subrange(p2, p2 + hlen2) =~= cbor_header(MAJOR_ARRAY, el.len() as u64));
    lemma_header_at(buf, p2, MAJOR_ARRAY, el.len() as u64);
    let p3 = p2 + hlen2;
    let elen = exec_entries_enc(el).len() as int;
    assert(buf.subrange(p3, p3 + elen) =~= exec_entries_enc(el));
    lemma_exec_entries_at(buf, p3, el);
    assert(p3 + elen == buf.len());
}

/// View of a raw input-entry list as plain values.
pub open spec fn input_entries_v(s: Seq<(Vec<u8>, AtomicInputEntry)>) -> Seq<
    (Seq<u8>, Seq<Seq<u8>>, Seq<u8>),
> {
    s.map_values(
        |p: (Vec<u8>, AtomicInputEntry)| (p.0@, deep(p.1.unlocked_state_cids@), p.1.input@),
    )
}

/// View of a raw output-entry list as plain values.
pub open spec fn exec_entries_v(s: Seq<(Vec<u8>, AtomicOutputEntry)>) -> Seq<(Seq<u8>, Seq<u8>)> {
    s.map_values(|p: (Vec<u8>, AtomicOutputEntry)| (p.0@, p.1.output@))
}

/// The map an input-entry row describes.
pub open spec fn input_list_map(s: Seq<(Seq<u8>, Seq<Seq<u8>>, Seq<u8>)>) -> Map<
    Seq<u8>,
    (Seq<Seq<u8>>, Seq<u8>),
>
    decreases s.len(),
{
    if s.len() == 0 {
        Map::empty()
    } else {
        input_list_map(s.drop_last()).insert(s.last().0, (s.last().1, s.last().2))
    }
}

/// The map an output-entry row describes.
pub open spec fn exec_list_map(s: Seq<(Seq<u8>, Seq<u8>)>) -> Map<Seq<u8>, Seq<u8>>
    decreases s.len(),
{
    if s.len() == 0 {
        Map::empty()
    } else {
        exec_list_map(s.drop_last()).insert(s.last().0, s.last().1)
    }
}

/// The IDs of an input-entry row are pairwise distinct.
pub open spec fn input_keys_unique(s: Seq<(Seq<u8>, Seq<Seq<u8>>, Seq<u8>)>) -> bool {
    forall|i: int, j: int| 0 <= i < j < s.len() ==> s[i].0 != s[j].0
}

/// The IDs of an output-entry row are pairwise distinct.
pub open spec fn exec_keys_unique(s: Seq<(Seq<u8>, Seq<u8>)>) -> bool {
    forall|i: int, j: int| 0 <= i < j < s.len() ==> s[i].0 != s[j].0
}

/// A raw input-entry list and its plain-value view describe the same
/// map and the same key distinctness.
proof fn lemma_input_list_agree(s: Seq<(Vec<u8>, AtomicInputEntry)>)
    ensures
        kv_map(s) == input_list_map(input_entries_v(s)),
        kv_unique(s) == input_keys_unique(input_entries_v(s)),
    decreases s.len(),
{
    let v = input_entries_v(s);
    assert(v.len() == s.len());
    if s.len() == 0 {
        assert(kv_map(s) =~= input_list_map(v));
    } else {
        lemma_input_list_agree(s.drop_last());
        assert(input_entries_v(s.drop_last()) =~= v.drop_last()) by {
            assert forall|i: int|
                0 <= i < s.len() - 1 implies input_entries_v(s.drop_last())[i]
                == v.drop_last()[i] by {
                assert(s.drop_last()[i] == s[i]);
            }
        }
        assert(v.last() == (s.last().0@, deep(s.last().1.unlocked_state_cids@), s.last().1.input@));
        assert(s.last().1@ == (deep(s.last().1.unlocked_state_cids@), s.last().1.input@));
        assert(kv_map(s) =~= input_list_map(v));
    }
    assert(kv_unique(s) == input_keys_unique(v)) by {
        if kv_unique(s) {
            assert forall|i: int, j: int| 0 <= i < j < v.len() implies v[i].0 != v[j].0 by {
                assert(v[i].0 == s[i].0@ && v[j].0 == s[j].0@);
            }
        }
        if input_keys_unique(v) {
            assert forall|i: int, j: int| 0 <= i < j < s.len() implies s[i].0@ != s[j].0@ by {
                assert(v[i].0 == s[i].0@ && v[j].0 == s[j].0@);
            }
        }
    }
}

/// A raw output-entry list and its plain-value view describe the same
/// map and the same key distinctness.
proof fn lemma_exec_list_agree(s: Seq<(Vec<u8>, AtomicOutputEntry)>)
    ensures
        kv_map(s) == exec_list_map(exec_entries_v(s)),
        kv_unique(s) == exec_keys_unique(exec_entries_v(s)),
    decreases s.len(),
{
    let v = exec_entries_v(s);
    assert(v.len() == s.len());
    if s.len() == 0 {
        assert(kv_map(s) =~= exec_list_map(v));
    } else {
        lemma_exec_list_agree(s.drop_last());
        assert(exec_entries_v(s.drop_last()) =~= v.drop_last()) by {
            assert forall|i: int|
                0 <= i < s.len() - 1 implies exec_entries_v(s.drop_last())[i]
                == v.drop_last()[i] by {
                assert(s.drop_last()[i] == s[i]);
            }
        }
        assert(v.last() == (s.last().0@, s.last().1.output@));
        assert(kv_map(s) =~= exec_list_map(v));
    }
    assert(kv_unique(s) == exec_keys_unique(v)) by {
        if kv_unique(s) {
            assert forall|i: int, j: int| 0 <= i < j < v.len() implies v[i].0 != v[j].0 by {
                assert(v[i].0 == s[i].0@ && v[j].0 == s[j].0@);
            }
        }
        if exec_keys_unique(v) {
            assert forall|i: int, j: int| 0 <= i < j < s.len() implies s[i].0@ != s[j].0@ by {
                assert(v[i].0 == s[i].0@ && v[j].0 == s[j].0@);
            }
        }
    }
}

/// Appends a length-prefixed row of byte strings to `out`.
fn encode_bstr_row(out: &mut Vec<u8>, items: &Vec<Vec<u8>>)
    ensures
        final(out)@ == old(out)@ + cbor_header(MAJOR_ARRAY, items@.len() as u64) + cat_cbor_bytes(
            deep(items@),
        ),
{
    let n = items.len();
    encode_header(out, MAJOR_ARRAY, n as u64);
    let ghost prefix = old(out)@ + cbor_header(MAJOR_ARRAY, n as u64);
    proof {
        assert(deep(items@).len() == items@.len());
        assert(cat_cbor_bytes(deep(items@).take(0)) =~= Seq::<u8>::empty());
        assert(out@ =~= prefix + cat_cbor_bytes(deep(items@).take(0)));
    }
    for i in 0..n
        invariant
            n == items@.len(),
            prefix == old(out)@ + cbor_header(MAJOR_ARRAY, n as u64),
            out@ == prefix + cat_cbor_bytes(deep(items@).take(i as int)),
    {
        encode_bytes(out, &items[i]);
        proof {
            let part = deep(items@).take(i + 1);
            assert(deep(items@).len() == items@.len());
            assert(part.drop_last() =~= deep(items@).take(i as int));
            assert(part.last() == items@[i as int]@);
            assert(out@ =~= prefix + cat_cbor_bytes(part));
        }
    }
    proof {
        assert(deep(items@).take(n as int) =~= deep(items@));
    }
}

/// Registry of atomic execution instances.
///
/// Each participating actor maintains a single instance of it as a part
/// of its state. It tracks in-flight inputs and in-flight executions,
/// and performs the state-lock transitions and content-address checks
/// of the protocol.
pub struct AtomicExecRegistry {
    nonce: u64,
    input_ids: Vec<(Vec<u8>, AtomicInputEntry)>,
    exec_ids: Vec<(Vec<u8>, AtomicOutputEntry)>,
}

impl AtomicExecRegistry {
    /// The registry's monotone nonce.
    pub closed spec fn nonce_val(&self) -> u64 {
        self.nonce
    }

    /// In-flight inputs: input ID to (recorded identifiers, input).
    pub closed spec fn input_map(&self) -> Map<Seq<u8>, (Seq<Seq<u8>>, Seq<u8>)> {
        kv_map(self.input_ids@)
    }

    /// In-flight executions: execution ID to output.
    pub closed spec fn exec_map(&self) -> Map<Seq<u8>, Seq<u8>> {
        kv_map(self.exec_ids@)
    }

    /// The registry's keys are pairwise distinct.
    pub closed spec fn wf(&self) -> bool {
        kv_unique(self.input_ids@) && kv_unique(self.exec_ids@)
    }

    /// Constructs a new, empty registry.
    pub fn new() -> (r: Self)
        ensures
            r.wf(),
            r.nonce_val() == 0,
            r.input_map() == Map::<Seq<u8>, (Seq<Seq<u8>>, Seq<u8>)>::empty(),
            r.exec_map() == Map::<Seq<u8>, Seq<u8>>::empty(),
    {
        AtomicExecRegistry { nonce: 0, input_ids: Vec::new(), exec_ids: Vec::new() }
    }

    /// In-flight inputs as an ordered row of plain values.
    pub closed spec fn input_list(&self) -> Seq<(Seq<u8>, Seq<Seq<u8>>, Seq<u8>)> {
        input_entries_v(self.input_ids@)
    }

    /// In-flight executions as an ordered row of plain values.
    pub closed spec fn exec_list(&self) -> Seq<(Seq<u8>, Seq<u8>)> {
        exec_entries_v(self.exec_ids@)
    }

    /// The registry's maps are the maps its entry rows describe.
    pub proof fn lemma_lists_describe_maps(&self)
        ensures
            self.input_map() == input_list_map(self.input_list()),
            self.exec_map() == exec_list_map(self.exec_list()),
            self.wf() == (input_keys_unique(self.input_list()) && exec_keys_unique(
                self.exec_list(),
            )),
    {
        lemma_input_list_agree(self.input_ids@);
        lemma_exec_list_agree(self.exec_ids@);
    }

    /// Serializes the registry and writes it to the store under its
    /// content identifier, which is returned.
    pub fn flush(&self, bs: &mut MemoryStore) -> (r: Vec<u8>)
        requires
            old(bs).wf(),
        ensures
            final(bs).wf(),
            r@ == cid_of(registry_enc(self.nonce_val(), self.input_list(), self.exec_list())),
            final(bs).contents() == old(bs).contents().insert(
                r@,
                registry_enc(self.nonce_val(), self.input_list(), self.exec_list()),
            ),
    {
        let mut out: Vec<u8> = Vec::new();
        encode_u64(&mut out, self.nonce);
        let n = self.input_ids.len();
        encode_header(&mut out, MAJOR_ARRAY, n as u64);
        let ghost il = self.input_list();
        let ghost prefix = cbor_u64(self.nonce_val()) + cbor_header(MAJOR_ARRAY, n as u64);
        proof {
            assert(il.len() == self.input_ids@.len());
            assert(input_entries_enc(il.take(0)) =~= Seq::<u8>::empty());
            assert(out@ =~= prefix + input_entries_enc(il.take(0)));
        }
        for i in 0..n
            invariant
                n == self.input_ids@.len(),
                il == self.input_list(),
                il.len() == n,
                prefix == cbor_u64(self.nonce_val()) + cbor_header(MAJOR_ARRAY, n as u64),
                out@ == prefix + input_entries_enc(il.take(i as int)),
        {
            encode_bytes(&mut out, &self.input_ids[i].0);
            encode_bstr_row(&mut out, &self.input_ids[i].1.unlocked_state_cids);
            encode_bytes(&mut out, &self.input_ids[i].1.input);
            proof {
                let part = il.take(i + 1);
                assert(part.drop_last() =~= il.take(i as int));
                assert(part.last() == il[i as int]);
                assert(il[i as int] == (
                    self.input_ids@[i as int].0@,
                    deep(self.input_ids@[i as int].1.unlocked_state_cids@),
                    self.input_ids@[i as int].1.input@,
                ));
                assert(out@ =~= prefix + input_entries_enc(part));
            }
        }
        proof {
            assert(il.take(n as int) =~= il);
        }
        let m = self.exec_ids.len();
        encode_header(&mut out, MAJOR_ARRAY, m as u64);
        let ghost el = self.exec_list();
        let ghost prefix2 = prefix + input_entries_enc(il) + cbor_header(MAJOR_ARRAY, m as u64);
        proof {
            assert(el.len() == self.exec_ids@.len());
            assert(exec_entries_enc(el.take(0)) =~= Seq::<u8>::empty());
            assert(out@ =~= prefix2 + exec_entries_enc(el.take(0)));
        }
        for i in 0..m
            invariant
                m == self.exec_ids@.len(),
                el == self.exec_list(),
                el.len() == m,
                prefix2 == prefix + input_entries_enc(il) + cbor_header(MAJOR_ARRAY, m as u64),
                out@ == prefix2 + exec_entries_enc(el.take(i as int)),
        {
            encode_bytes(&mut out, &self.exec_ids[i].0);
            encode_bytes(&mut out, &self.exec_ids[i].1.output);
            proof {
                let part = el.take(i + 1);
                assert(part.drop_last() =~= el.take(i as int));
                assert(part.last() == el[i as int]);
                assert(el[i as int] == (self.exec_ids@[i as int].0@, self.exec_ids@[i as int].1.output@));
                assert(out@ =~= prefix2 + exec_entries_enc(part));
            }
        }
        proof {
            assert(el.take(m as int) =~= el);
            assert(out@ =~= registry_enc(self.nonce_val(), il, el));
        }
        let cidv = compute_cid(&out);
        let cidk = bytes_clone(&cidv);
        bs.put(cidk, out);
        cidv
    }

    /// Attempts to load a registry from the store by its content
    /// identifier. Returns `None` if no block is stored under the
    /// identifier, the block does not parse as a registry, or the
    /// parsed rows repeat a key.
    pub fn load(cid: &Vec<u8>, bs: &MemoryStore) -> (r: Option<AtomicExecRegistry>)
        requires
            bs.wf(),
        ensures
            match r {
                Some(reg) => bs.contents().contains_key(cid@) && (registry_parse(
                    bs.contents()[cid@],
                ) matches Some((nonce, il, el)) && reg.nonce_val() == nonce && reg.input_list()
                    == il && reg.exec_list() == el && reg.input_map() == input_list_map(il)
                    && reg.exec_map() == exec_list_map(el) && reg.wf()),
                None => !bs.contents().contains_key(cid@) || registry_parse(bs.contents()[cid@])
                    is None || (registry_parse(bs.contents()[cid@]) matches Some(
                    (nonce, il, el),
                ) && !(input_keys_unique(il) && exec_keys_unique(el))),
            },
    {
        let block = match bs.get(cid) {
            Some(b) => b,
            None => {
                return None;
            },
        };
        let (nonce, p) = match crate::cbor::decode_u64(block, 0) {
            Some(x) => x,
            None => {
                return None;
            },
        };
        let (maj, n, p1) = match decode_header(block, p) {
            Some(x) => x,
            None => {
                return None;
            },
        };
        if maj != MAJOR_ARRAY {
            return None;
        }
        let mut iv: Vec<(Vec<u8>, AtomicInputEntry)> = Vec::new();
        let mut pos = p1;
        let mut i: u64 = 0;
        while i < n
            invariant
                0 <= i <= n,
                bs.contents().contains_key(cid@),
                bs.contents()[cid@] == block@,
                crate::cbor::u64_at(block@, 0) == Some((nonce, p as int)),
                header_at(block@, p as int) == Some((MAJOR_ARRAY, n, p1 as int)),
                input_entries_v(iv@).len() == i,
                iv@.len() == i,
                match input_entries_at(block@, pos as int, (n - i) as nat) {
                    Some((rest, end)) => input_entries_at(block@, p1 as int, n as nat) == Some(
                        (input_entries_v(iv@) + rest, end),
                    ),
                    None => input_entries_at(block@, p1 as int, n as nat) is None,
                },
            decreases n - i,
        {
            let (key, q) = match decode_bytes(block, pos) {
                Some(x) => x,
                None => {
                    return None;
                },
            };
            let (cmaj, k, q1) = match decode_header(block, q) {
                Some(x) => x,
                None => {
                    return None;
                },
            };
            if cmaj != MAJOR_ARRAY {
                return None;
            }
            let (cids, q2) = match crate::types::decode_bstrs(block, q1, k) {
                Some(x) => x,
                None => {
                    return None;
                },
            };
            let (input, q3) = match decode_bytes(block, q2) {
                Some(x) => x,
                None => {
                    return None;
                },
            };
            let ghost e = (key@, deep(cids@), input@);
            proof {
                assert(input_entry_at(block@, pos as int) == Some((e, q3 as int)));
            }
            let ghost pre = iv@;
            iv.push((key, AtomicInputEntry { unlocked_state_cids: cids, input }));
            proof {
                assert(input_entries_v(iv@) =~= input_entries_v(pre).push(e)) by {
                    assert(input_entries_v(pre).len() == pre.len());
                    assert forall|w: int|
                        0 <= w < iv@.len() implies input_entries_v(iv@)[w] == input_entries_v(
                        pre,
                    ).push(e)[w] by {
                        if w < pre.len() {
                            assert(iv@[w] == pre[w]);
                        }
                    }
                }
                if input_entries_at(block@, q3 as int, (n - i - 1) as nat) is Some {
                    let (rest2, end2) = input_entries_at(
                        block@,
                        q3 as int,
                        (n - i - 1) as nat,
                    )->Some_0;
                    assert(input_entries_at(block@, pos as int, (n - i) as nat) == Some(
                        (seq![e] + rest2, end2),
                    ));
                    assert(input_entries_v(pre) + (seq![e] + rest2) =~= input_entries_v(iv@)
                        + rest2);
                } else {
                    assert(input_entries_at(block@, pos as int, (n - i) as nat) is None);
                }
            }
            pos = q3;
            i = i + 1;
        }
        proof {
            assert(input_entries_at(block@, pos as int, 0) == Some(
                (Seq::<(Seq<u8>, Seq<Seq<u8>>, Seq<u8>)>::empty(), pos as int),
            ));
            assert(input_entries_v(iv@) + Seq::<(Seq<u8>, Seq<Seq<u8>>, Seq<u8>)>::empty()
                =~= input_entries_v(iv@));
        }
        let (emaj, m, p3) = match decode_header(block, pos) {
            Some(x) => x,
            None => {
                return None;
            },
        };
        if emaj != MAJOR_ARRAY {
            return None;
        }
        let mut ev: Vec<(Vec<u8>, AtomicOutputEntry)> = Vec::new();
        let mut pos2 = p3;
        let mut j: u64 = 0;
        while j < m
            invariant
                0 <= j <= m,
                bs.contents().contains_key(cid@),
                bs.contents()[cid@] == block@,
                crate::cbor::u64_at(block@, 0) == Some((nonce, p as int)),
                header_at(block@, p as int) == Some((MAJOR_ARRAY, n, p1 as int)),
                input_entries_at(block@, p1 as int, n as nat) == Some(
                    (input_entries_v(iv@), pos as int),
                ),
                header_at(block@, pos as int) == Some((MAJOR_ARRAY, m, p3 as int)),
                exec_entries_v(ev@).len() == j,
                ev@.len() == j,
                match exec_entries_at(block@, pos2 as int, (m - j) as nat) {
                    Some((rest, end)) => exec_entries_at(block@, p3 as int, m as nat) == Some(
                        (exec_entries_v(ev@) + rest, end),
                    ),
                    None => exec_entries_at(block@, p3 as int, m as nat) is None,
                },
            decreases m - j,
        {
            let (key, q) = match decode_bytes(block, pos2) {
                Some(x) => x,
                None => {
                    return None;
                },
            };
            let (output, q2) = match decode_bytes(block, q) {
                Some(x) => x,
                None => {
                    return None;
                },
            };
            let ghost e = (key@, output@);
            proof {
                assert(exec_entry_at(block@, pos2 as int) == Some((e, q2 as int)));
            }
            let ghost pre = ev@;
            ev.push((key, AtomicOutputEntry { output }));
            proof {
                assert(exec_entries_v(ev@) =~= exec_entries_v(pre).push(e)) by {
                    assert(exec_entries_v(pre).len() == pre.len());
                    assert forall|w: int|
                        0 <= w < ev@.len() implies exec_entries_v(ev@)[w] == exec_entries_v(
                        pre,
                    ).push(e)[w] by {
                        if w < pre.len() {
                            assert(ev@[w] == pre[w]);
                        }
                    }
                }
                if exec_entries_at(block@, q2 as int, (m - j - 1) as nat) is Some {
                    let (rest2, end2) = exec_entries_at(
                        block@,
                        q2 as int,
                        (m - j - 1) as nat,
                    )->Some_0;
                    assert(exec_entries_at(block@, pos2 as int, (m - j) as nat) == Some(
                        (seq![e] + rest2, end2),
                    ));
                    assert(exec_entries_v(pre) + (seq![e] + rest2) =~= exec_entries_v(ev@)
                        + rest2);
                } else {
                    assert(exec_entries_at(block@, pos2 as int, (m - j) as nat) is None);
                }
            }
            pos2 = q2;
            j = j + 1;
        }
        proof {
            assert(exec_entries_at(block@, pos2 as int, 0) == Some(
                (Seq::<(Seq<u8>, Seq<u8>)>::empty(), pos2 as int),
            ));
            assert(exec_entries_v(ev@) + Seq::<(Seq<u8>, Seq<u8>)>::empty() =~= exec_entries_v(
                ev@,
            ));
        }
        if pos2 != block.len() {
            return None;
        }
        proof {
            lemma_input_list_agree(iv@);
            lemma_exec_list_agree(ev@);
        }
        if !crate::kvlist::kv_unique_check(&iv) {
            return None;
        }
        if !crate::kvlist::kv_unique_check(&ev) {
            return None;
        }
        Some(AtomicExecRegistry { nonce, input_ids: iv, exec_ids: ev })
    }

    /// The input data recorded under an input ID, if any.
    pub fn input_of(&self, input_id: &Vec<u8>) -> (r: Option<&Vec<u8>>)
        requires
            self.wf(),
        ensures
            match r {
                Some(input) => self.input_map().contains_key(input_id@) && input@
                    == self.input_map()[input_id@].1,
                None => !self.input_map().contains_key(input_id@),
            },
    {
        match kv_get(&self.input_ids, input_id) {
            Some(entry) => Some(&entry.input),
            None => None,
        }
    }

    /// Initializes a new instance of the atomic execution protocol and
    /// returns a fresh identifier of the atomic execution input.
    ///
    /// The slices in `state` are the pieces of the actor's state that
    /// the execution will touch. `input` is any data to associate with
    /// the returned input ID. With `lock` set, the slices are locked in
    /// place; otherwise their current content identifiers are recorded,
    /// to be checked against at prepare time.
    ///
    /// Any slice already locked fails the call with `AlreadyLocked`; an
    /// exhausted nonce or an input ID collision fails the call with
    /// `IllegalState`. A failed call changes nothing.
    pub fn init_atomic_exec<S: LockableState>(
        &mut self,
        state: &mut Vec<S>,
        input: Vec<u8>,
        lock: bool,
    ) -> (r: Result<Vec<u8>, ExecError>)
        requires
            old(self).wf(),
        ensures
            final(self).wf(),
            ({
                let cids = if lock {
                    Seq::<Seq<u8>>::empty()
                } else {
                    cids_of(old(state)@)
                };
                let id = input_id_of(old(self).nonce_val(), cids, input@);
                match r {
                    Ok(idv) => {
                        &&& all_unlocked(old(state)@)
                        &&& old(self).nonce_val() < u64::MAX
                        &&& !old(self).input_map().contains_key(id)
                        &&& idv@ == id
                        &&& final(self).nonce_val() == old(self).nonce_val() + 1
                        &&& final(self).input_map() == old(self).input_map().insert(
                            id,
                            (cids, input@),
                        )
                        &&& final(self).exec_map() == old(self).exec_map()
                        &&& final(state)@.len() == old(state)@.len()
                        &&& (forall|i: int|
                            0 <= i < final(state)@.len() ==> final(state)@[i].sl_locked() == lock
                                && final(state)@[i].sl_payload() == old(state)@[i].sl_payload())
                        &&& (!lock ==> final(state)@ == old(state)@)
                    },
                    Err(e) => {
                        &&& *final(self) == *old(self)
                        &&& final(state)@ == old(state)@
                        &&& (e == ExecError::AlreadyLocked <==> !all_unlocked(old(state)@))
                        &&& (e != ExecError::AlreadyLocked ==> e == ExecError::IllegalState && (
                        old(self).nonce_val() == u64::MAX || old(self).input_map().contains_key(
                            id,
                        )))
                    },
                }
            }),
    {
        if any_locked_slice(state) {
            return Err(ExecError::AlreadyLocked);
        }
        if self.nonce == u64::MAX {
            return Err(ExecError::IllegalState);
        }
        let cids: Vec<Vec<u8>> = if lock {
            Vec::new()
        } else {
            collect_cids(state)
        };
        proof {
            if lock {
                assert(deep(cids@) =~= Seq::<Seq<u8>>::empty());
            }
        }
        let id = mint_input_id(self.nonce, &cids, &input);
        proof {
            lemma_kv_contains(self.input_ids@, id@);
        }
        if kv_find(&self.input_ids, &id).is_some() {
            return Err(ExecError::IllegalState);
        }
        if lock {
            lock_unlocked(state);
        }
        let idk = bytes_clone(&id);
        kv_set(&mut self.input_ids, idk, AtomicInputEntry { unlocked_state_cids: cids, input });
        self.nonce = self.nonce + 1;
        Ok(id)
    }

    /// Consumes and discards the supplied atomic execution input ID,
    /// cancelling the initiated instance of the protocol, and returns
    /// the input data recorded at init time.
    ///
    /// The slices in `state` must be the ones supplied to the matching
    /// init call. Any locked slice is unlocked; unlocked slices are
    /// untouched. An ID the registry does not know fails the call with
    /// `UnknownInputID` and changes nothing.
    pub fn cancel_atomic_exec<S: LockableState>(
        &mut self,
        state: &mut Vec<S>,
        input_id: &Vec<u8>,
    ) -> (r: Result<Vec<u8>, ExecError>)
        requires
            old(self).wf(),
        ensures
            final(self).wf(),
            match r {
                Ok(input) => {
                    &&& old(self).input_map().contains_key(input_id@)
                    &&& input@ == old(self).input_map()[input_id@].1
                    &&& final(self).input_map() == old(self).input_map().remove(input_id@)
                    &&& final(self).exec_map() == old(self).exec_map()
                    &&& final(self).nonce_val() == old(self).nonce_val()
                    &&& final(state)@.len() == old(state)@.len()
                    &&& (forall|i: int|
                        0 <= i < final(state)@.len() ==> !final(state)@[i].sl_locked()
                            && final(state)@[i].sl_payload() == old(state)@[i].sl_payload())
                    &&& (forall|i: int|
                        0 <= i < final(state)@.len() && !old(state)@[i].sl_locked()
                            ==> final(state)@[i] == old(state)@[i])
                },
                Err(e) => {
                    &&& e == ExecError::UnknownInputID
                    &&& !old(self).input_map().contains_key(input_id@)
                    &&& final(self).input_map() == old(self).input_map()
                    &&& final(self).exec_map() == old(self).exec_map()
                    &&& final(self).nonce_val() == old(self).nonce_val()
                    &&& final(state)@ == old(state)@
                },
            },
    {
        let entry = match kv_remove(&mut self.input_ids, input_id) {
            Some(e) => e,
            None => {
                proof {
                    assert(old(self).input_map().remove(input_id@) =~= old(self).input_map());
                }
                return Err(ExecError::UnknownInputID);
            },
        };
        unlock_locked(state);
        Ok(entry.input)
    }

    /// Consumes the supplied own atomic execution input ID and produces
    /// the atomic execution identifier to submit to the coordinator.
    ///
    /// Every executing actor must agree on `input_ids`, which maps each
    /// participant to its input ID and must include `own_input_id`. The
    /// slices in `state` must be the ones supplied to the matching init
    /// call; `output` is the proposed outcome to record under the
    /// execution ID.
    ///
    /// Each unlocked slice has its current content identifier checked
    /// against the one recorded at init time, and is then locked;
    /// already locked slices are untouched. On any mismatch the call
    /// fails with `StateCidMismatch` and changes nothing: no lock it
    /// took is left behind.
    pub fn prepare_atomic_exec<S: LockableState>(
        &mut self,
        state: &mut Vec<S>,
        own_input_id: &Vec<u8>,
        input_ids: &Vec<(IpcAddress, Vec<u8>)>,
        output: Vec<u8>,
    ) -> (r: Result<Vec<u8>, ExecError>)
        requires
            old(self).wf(),
        ensures
            final(self).wf(),
            ({
                let known = old(self).input_map().contains_key(own_input_id@);
                let eid = exec_id_of(pairs_view(input_ids@));
                let clash = old(self).exec_map().contains_key(eid);
                let drift = unlocked_cids_of(old(state)@) != old(self).input_map()[own_input_id@].0;
                match r {
                    Ok(idv) => {
                        &&& known
                        &&& !clash
                        &&& !drift
                        &&& idv@ == eid
                        &&& final(self).input_map() == old(self).input_map().remove(own_input_id@)
                        &&& final(self).exec_map() == old(self).exec_map().insert(eid, output@)
                        &&& final(self).nonce_val() == old(self).nonce_val()
                        &&& final(state)@.len() == old(state)@.len()
                        &&& (forall|i: int|
                            0 <= i < final(state)@.len() ==> final(state)@[i].sl_locked()
                                && final(state)@[i].sl_payload() == old(state)@[i].sl_payload())
                        &&& (forall|i: int|
                            0 <= i < final(state)@.len() && old(state)@[i].sl_locked()
                                ==> final(state)@[i] == old(state)@[i])
                    },
                    Err(e) => {
                        &&& *final(self) == *old(self)
                        &&& final(state)@ == old(state)@
                        &&& e == (if !known {
                            ExecError::UnknownInputID
                        } else if clash {
                            ExecError::IllegalState
                        } else {
                            ExecError::StateCidMismatch
                        })
                        &&& (!known || clash || drift)
                    },
                }
            }),
    {
        let entry = match kv_get(&self.input_ids, own_input_id) {
            Some(e) => e,
            None => {
                return Err(ExecError::UnknownInputID);
            },
        };
        let eid = compute_exec_id(input_ids);
        proof {
            lemma_kv_contains(self.exec_ids@, eid@);
        }
        if kv_find(&self.exec_ids, &eid).is_some() {
            return Err(ExecError::IllegalState);
        }
        let recorded = collect_unlocked_cids(state);
        if !cid_lists_eq(&recorded, &entry.unlocked_state_cids) {
            return Err(ExecError::StateCidMismatch);
        }
        lock_unlocked(state);
        let _ = kv_remove(&mut self.input_ids, own_input_id);
        let eidk = bytes_clone(&eid);
        kv_set(&mut self.exec_ids, eidk, AtomicOutputEntry { output });
        Ok(eid)
    }

    /// Consumes the supplied atomic execution ID so the caller can
    /// commit the outcome of the atomic execution, and returns the
    /// output data recorded at prepare time.
    ///
    /// The slices in `state` must be the ones supplied to the matching
    /// init call, and are all unlocked. Applying the returned output to
    /// the actor state is the caller's task. An ID the registry does
    /// not know fails the call with `UnknownExecID` and changes
    /// nothing.
    pub fn commit_atomic_exec<S: LockableState>(
        &mut self,
        state: &mut Vec<S>,
        exec_id: &Vec<u8>,
    ) -> (r: Result<Vec<u8>, ExecError>)
        requires
            old(self).wf(),
            old(self).exec_map().contains_key(exec_id@) ==> all_locked(old(state)@),
        ensures
            final(self).wf(),
            match r {
                Ok(output) => {
                    &&& old(self).exec_map().contains_key(exec_id@)
                    &&& output@ == old(self).exec_map()[exec_id@]
                    &&& final(self).exec_map() == old(self).exec_map().remove(exec_id@)
                    &&& final(self).input_map() == old(self).input_map()
                    &&& final(self).nonce_val() == old(self).nonce_val()
                    &&& final(state)@.len() == old(state)@.len()
                    &&& (forall|i: int|
                        0 <= i < final(state)@.len() ==> !final(state)@[i].sl_locked()
                            && final(state)@[i].sl_payload() == old(state)@[i].sl_payload())
                },
                Err(e) => {
                    &&& e == ExecError::UnknownExecID
                    &&& !old(self).exec_map().contains_key(exec_id@)
                    &&& final(self).input_map() == old(self).input_map()
                    &&& final(self).exec_map() == old(self).exec_map()
                    &&& final(self).nonce_val() == old(self).nonce_val()
                    &&& final(state)@ == old(state)@
                },
            },
    {
        let entry = match kv_remove(&mut self.exec_ids, exec_id) {
            Some(e) => e,
            None => {
                proof {
                    assert(old(self).exec_map().remove(exec_id@) =~= old(self).exec_map());
                }
                return Err(ExecError::UnknownExecID);
            },
        };
        unlock_locked(state);
        Ok(entry.output)
    }

    /// Consumes the supplied atomic execution ID so the caller can roll
    /// the atomic execution back, and returns the output data recorded
    /// at prepare time.
    ///
    /// Symmetric to committing: the registry unlocks the slices and
    /// forgets the execution; reverting any book-keeping side effects
    /// with the returned output is the caller's task. A rollback never
    /// fails due to missing state: an ID the registry does not know is
    /// treated as success, returns `None`, and changes nothing — the
    /// coordinator echoes a rollback message even to a participant that
    /// never got past init, so one may arrive for an execution that was
    /// never prepared here.
    pub fn rollback_atomic_exec<S: LockableState>(
        &mut self,
        state: &mut Vec<S>,
        exec_id: &Vec<u8>,
    ) -> (r: Option<Vec<u8>>)
        requires
            old(self).wf(),
            old(self).exec_map().contains_key(exec_id@) ==> all_locked(old(state)@),
        ensures
            final(self).wf(),
            match r {
                Some(output) => {
                    &&& old(self).exec_map().contains_key(exec_id@)
                    &&& output@ == old(self).exec_map()[exec_id@]
                    &&& final(self).exec_map() == old(self).exec_map().remove(exec_id@)
                    &&& final(self).input_map() == old(self).input_map()
                    &&& final(self).nonce_val() == old(self).nonce_val()
                    &&& final(state)@.len() == old(state)@.len()
                    &&& (forall|i: int|
                        0 <= i < final(state)@.len() ==> !final(state)@[i].sl_locked()
                            && final(state)@[i].sl_payload() == old(state)@[i].sl_payload())
                },
                None => {
                    &&& !old(self).exec_map().contains_key(exec_id@)
                    &&& final(self).input_map() == old(self).input_map()
                    &&& final(self).exec_map() == old(self).exec_map()
                    &&& final(self).nonce_val() == old(self).nonce_val()
                    &&& final(state)@ == old(state)@
                },
            },
    {
        let entry = match kv_remove(&mut self.exec_ids, exec_id) {
            Some(e) => e,
            None => {
                proof {
                    assert(old(self).exec_map().remove(exec_id@) =~= old(self).exec_map());
                }
                return None;
            },
        };
        unlock_locked(state);
        Some(entry.output)
    }
}

/// Initiating an execution and cancelling it restores the registry's
/// input map exactly and leaves every slice unlocked with its payload
/// unchanged, as it was before the init (init admits only unlocked
/// slices). Only the monotone nonce advances: it is what keeps input
/// IDs from recurring.
///
/// The hypotheses are what the contracts of `init_atomic_exec` and
/// `cancel_atomic_exec` ensure of a successful init of `id` followed by
/// a successful cancel of the same `id`.
pub proof fn lemma_init_cancel_roundtrip(
    m0: Map<Seq<u8>, (Seq<Seq<u8>>, Seq<u8>)>,
    id: Seq<u8>,
    e: (Seq<Seq<u8>>, Seq<u8>),
    m1: Map<Seq<u8>, (Seq<Seq<u8>>, Seq<u8>)>,
    m2: Map<Seq<u8>, (Seq<Seq<u8>>, Seq<u8>)>,
    s0: Seq<(bool, Seq<u8>)>,
    s1: Seq<(bool, Seq<u8>)>,
    s2: Seq<(bool, Seq<u8>)>,
)
    requires
        !m0.contains_key(id),
        m1 == m0.insert(id, e),
        m2 == m1.remove(id),
        forall|i: int| 0 <= i < s0.len() ==> !(#[trigger] s0[i]).0,
        s1.len() == s0.len(),
        forall|i: int| 0 <= i < s1.len() ==> (#[trigger] s1[i]).1 == s0[i].1,
        s2.len() == s1.len(),
        forall|i: int| 0 <= i < s2.len() ==> !(#[trigger] s2[i]).0 && s2[i].1 == s1[i].1,
    ensures
        m2 == m0,
        s2.len() == s0.len(),
        forall|i: int| 0 <= i < s2.len() ==> #[trigger] s2[i] == s0[i],
{
    assert(m2 =~= m0);
    assert forall|i: int| 0 <= i < s2.len() implies #[trigger] s2[i] == s0[i] by {
        assert(s2[i].0 == s0[i].0 && s2[i].1 == s0[i].1);
    }
}

/// Over a successful prepare followed by a commit of the produced
/// execution ID, the slices are locked when prepare returns and
/// unlocked when commit returns, every payload is exactly what it was
/// before the prepare, and the output entry minted by prepare is
/// consumed again: the execution map ends as it began.
///
/// The hypotheses are what the contracts of `prepare_atomic_exec` and
/// `commit_atomic_exec` ensure of the two successful calls.
pub proof fn lemma_prepare_commit_roundtrip(
    em0: Map<Seq<u8>, Seq<u8>>,
    eid: Seq<u8>,
    output: Seq<u8>,
    em1: Map<Seq<u8>, Seq<u8>>,
    em2: Map<Seq<u8>, Seq<u8>>,
    s0: Seq<(bool, Seq<u8>)>,
    s1: Seq<(bool, Seq<u8>)>,
    s2: Seq<(bool, Seq<u8>)>,
)
    requires
        !em0.contains_key(eid),
        em1 == em0.insert(eid, output),
        em2 == em1.remove(eid),
        s1.len() == s0.len(),
        forall|i: int|
            0 <= i < s1.len() ==> (#[trigger] s1[i]).0 && s1[i].1 == s0[i].1,
        s2.len() == s1.len(),
        forall|i: int| 0 <= i < s2.len() ==> !(#[trigger] s2[i]).0 && s2[i].1 == s1[i].1,
    ensures
        em2 == em0,
        forall|i: int| 0 <= i < s1.len() ==> (#[trigger] s1[i]).0,
        forall|i: int|
            0 <= i < s2.len() ==> !(#[trigger] s2[i]).0 && s2[i].1 == s0[i].1,
{
    assert(em2 =~= em0);
}

/// Over a successful prepare followed by a rollback of the produced
/// execution ID, every final payload equals its pre-prepare payload and
/// every lock bit is clear.
///
/// The hypotheses are what the contracts of `prepare_atomic_exec` and
/// `rollback_atomic_exec` ensure of the two successful calls.
pub proof fn lemma_prepare_rollback_roundtrip(
    em0: Map<Seq<u8>, Seq<u8>>,
    eid: Seq<u8>,
    output: Seq<u8>,
    em1: Map<Seq<u8>, Seq<u8>>,
    em2: Map<Seq<u8>, Seq<u8>>,
    s0: Seq<(bool, Seq<u8>)>,
    s1: Seq<(bool, Seq<u8>)>,
    s2: Seq<(bool, Seq<u8>)>,
)
    requires
        !em0.contains_key(eid),
        em1 == em0.insert(eid, output),
        em2 == em1.remove(eid),
        s1.len() == s0.len(),
        forall|i: int|
            0 <= i < s1.len() ==> (#[trigger] s1[i]).0 && s1[i].1 == s0[i].1,
        s2.len() == s1.len(),
        forall|i: int| 0 <= i < s2.len() ==> !(#[trigger] s2[i]).0 && s2[i].1 == s1[i].1,
    ensures
        em2 == em0,
        forall|i: int|
            0 <= i < s2.len() ==> !(#[trigger] s2[i]).0 && s2[i].1 == s0[i].1,
{
    assert(em2 =~= em0);
}

/// After a flush, a load by the returned content identifier yields a
/// slice with the same lock bit and payload.
///
/// The hypotheses are what the contracts of `flush` and `load` ensure:
/// the store holds the slice's encoding under its identifier, and what
/// load returned parses from that block.
pub proof fn lemma_flush_load_roundtrip(
    locked: bool,
    payload: Seq<u8>,
    contents: Map<Seq<u8>, Seq<u8>>,
    cid: Seq<u8>,
    loaded: Option<(bool, Seq<u8>)>,
)
    requires
        payload.len() <= u64::MAX,
        cid == state_cid(locked, payload),
        contents.contains_key(cid),
        contents[cid] == state_enc(locked, payload),
        match loaded {
            Some((l, p)) => state_parse(contents[cid]) == Some((l, p)),
            None => state_parse(contents[cid]) is None,
        },
    ensures
        loaded == Some((locked, payload)),
{
    lemma_state_parse_enc(locked, payload);
}

/// After a registry flush, a load by the returned content identifier
/// yields a registry with the same nonce and the same entry rows.
///
/// The hypotheses are what the contracts of the registry's `flush` and
/// `load` ensure: the store holds the registry's encoding under its
/// identifier, and what load returned parses from that block.
pub proof fn lemma_registry_flush_load_roundtrip(
    nonce: u64,
    il: Seq<(Seq<u8>, Seq<Seq<u8>>, Seq<u8>)>,
    el: Seq<(Seq<u8>, Seq<u8>)>,
    contents: Map<Seq<u8>, Seq<u8>>,
    cid: Seq<u8>,
    loaded: Option<(u64, Seq<(Seq<u8>, Seq<Seq<u8>>, Seq<u8>)>, Seq<(Seq<u8>, Seq<u8>)>)>,
)
    requires
        registry_bounded(il, el),
        contents.contains_key(cid),
        contents[cid] == registry_enc(nonce, il, el),
        match loaded {
            Some(x) => registry_parse(contents[cid]) == Some(x),
            None => registry_parse(contents[cid]) is None,
        },
    ensures
        loaded == Some((nonce, il, el)),
{
    lemma_registry_parse_enc(nonce, il, el);
}

/// The content identifier of an `AtomicInputState` is exactly the
/// CIDv1 (DAG-CBOR codec, BLAKE2b-256 multihash) over the CBOR encoding
/// of the `(locked, payload)` tuple — the derivation `flush` and `cid`
/// return, stated at the API boundary.
pub proof fn lemma_slice_cid_derivation(s: &AtomicInputState)
    ensures
        s.sl_cid() == cid_of(state_enc(s.sl_locked(), s.sl_payload())),
{
}

/// The content identifier of an `AtomicInputState` is a function of its
/// lock bit and payload alone: two semantically equal slices have equal
/// identifiers.
pub proof fn lemma_cid_of_equal_slices(a: &AtomicInputState, b: &AtomicInputState)
    requires
        a.sl_locked() == b.sl_locked(),
        a.sl_payload() == b.sl_payload(),
    ensures
        a.sl_cid() == b.sl_cid(),
{
}

/// Distinct lock bits or payloads give distinct slice encodings, so the
/// inputs hashed into the two content identifiers differ.
pub proof fn lemma_slice_encoding_injective(l1: bool, p1: Seq<u8>, l2: bool, p2: Seq<u8>)
    requires
        p1.len() <= u64::MAX,
        p2.len() <= u64::MAX,
        l1 != l2 || p1 != p2,
    ensures
        state_enc(l1, p1) != state_enc(l2, p2),
{
    if state_enc(l1, p1) == state_enc(l2, p2) {
        lemma_state_parse_enc(l1, p1);
        lemma_state_parse_enc(l2, p2);
    }
}

} // verus!
