//! Wire vocabulary of the protocol: addresses, cross-subnet messages,
//! and the parameters of the coordinator's methods.
//!
//! An address is held as its canonical byte encoding; two addresses are
//! the same participant exactly when their bytes are equal, and the
//! byte-wise order of addresses is the canonical order used wherever a
//! deterministic traversal is needed.

use vstd::prelude::*;

use crate::atomic::cat_cbor_bytes;
use crate::bytes::bytes_eq;
use crate::cbor::{
    bytes_at, cbor_bytes, cbor_header, cbor_u64, decode_bytes, decode_header, decode_u64,
    encode_bytes, encode_header, encode_u64, header_at, header_len, lemma_bytes_at,
    lemma_header_at, lemma_header_len, lemma_u64_at, u64_at, MAJOR_ARRAY,
};

verus! {

/// An actor's address across the hierarchical network: a (subnet,
/// address) pair, held as its canonical byte encoding.
pub struct IpcAddress {
    bytes: Vec<u8>,
}

impl View for IpcAddress {
    type V = Seq<u8>;

    closed spec fn view(&self) -> Seq<u8> {
        self.bytes@
    }
}

impl IpcAddress {
    /// Wraps the canonical bytes of an address.
    pub fn new(bytes: Vec<u8>) -> (r: Self)
        ensures
            r@ == bytes@,
    {
        IpcAddress { bytes }
    }

    /// The canonical bytes of the address.
    pub fn as_bytes(&self) -> (r: &Vec<u8>)
        ensures
            r@ == self@,
    {
        &self.bytes
    }

    /// Whether two addresses name the same participant.
    pub fn same_as(&self, other: &IpcAddress) -> (r: bool)
        ensures
            r == (self@ == other@),
    {
        bytes_eq(&self.bytes, &other.bytes)
    }
}

impl Clone for IpcAddress {
    fn clone(&self) -> (r: Self)
        ensures
            r@ == self@,
    {
        let b = self.bytes.clone();
        proof {
            assert(b@ =~= self.bytes@);
        }
        IpcAddress { bytes: b }
    }
}

/// Whether an address list holds an address with the given bytes.
pub open spec fn addrs_contain(s: Seq<IpcAddress>, a: Seq<u8>) -> bool {
    exists|i: int| 0 <= i < s.len() && s[i]@ == a
}

/// Whether a list of address byte strings holds the given bytes.
pub open spec fn addrs_contain_v(s: Seq<Seq<u8>>, a: Seq<u8>) -> bool {
    exists|i: int| 0 <= i < s.len() && s[i] == a
}

/// The addresses of a byte-string list are pairwise distinct.
pub open spec fn addrs_distinct_v(s: Seq<Seq<u8>>) -> bool {
    forall|i: int, j: int| 0 <= i < j < s.len() ==> s[i] != s[j]
}

/// Checks whether `addr` is one of the addresses of `s`.
pub fn addrs_find(s: &Vec<IpcAddress>, addr: &IpcAddress) -> (r: bool)
    ensures
        r == addrs_contain(s@, addr@),
{
    let n = s.len();
    for i in 0..n
        invariant
            n == s@.len(),
            forall|j: int| 0 <= j < i ==> s@[j]@ != addr@,
    {
        if s[i].same_as(addr) {
            return true;
        }
    }
    false
}

/// A message addressed to an actor in some subnet, as the gateway
/// stores and forwards it.
pub struct StorableMsg {
    /// The destination actor.
    pub to: IpcAddress,
    /// The originating actor.
    pub from: IpcAddress,
    /// The method number to invoke on the destination.
    pub method: u64,
    /// The parameters to pass, as encoded bytes.
    pub params: Vec<u8>,
    /// The token amount carried along.
    pub value: u64,
    /// The sender's message sequence number.
    pub nonce: u64,
}

/// A cross-subnet message envelope: `wrapped` messages carry the
/// original sender's authenticated address in `from`.
pub struct CrossMsg {
    /// The message itself.
    pub msg: StorableMsg,
    /// Whether the message is delivered wrapped.
    pub wrapped: bool,
}

/// Parameters of the coordinator's constructor.
pub struct ConstructorParams {
    /// The address of the cross-subnet message gateway actor, as a raw
    /// actor identifier in the coordinator's own subnet.
    pub ipc_gateway_address: u64,
}

/// Parameters of the coordinator's `PreCommit` method.
pub struct PreCommitParams {
    /// Actors participating in the atomic execution.
    pub actors: Vec<IpcAddress>,
    /// Atomic execution ID.
    pub exec_id: Vec<u8>,
    /// Method to call back to commit the atomic execution.
    pub commit: u64,
}

/// Parameters of the coordinator's `Revoke` method.
pub struct RevokeParams {
    /// Actors participating in the atomic execution.
    pub actors: Vec<IpcAddress>,
    /// Atomic execution ID.
    pub exec_id: Vec<u8>,
    /// Method to call back to roll the atomic execution back.
    pub rollback: u64,
}

/// The CBOR encoding of an address list: an array of byte strings.
pub open spec fn addrs_enc(actors: Seq<Seq<u8>>) -> Seq<u8> {
    cbor_header(MAJOR_ARRAY, actors.len() as u64) + cat_cbor_bytes(actors)
}

/// The CBOR encoding of the coordinator's method parameters: the
/// participant addresses, the execution identifier, and the method
/// number to call back, as a three-element tuple. `PreCommit` and
/// `Revoke` parameters share this shape.
pub open spec fn params_enc(actors: Seq<Seq<u8>>, exec_id: Seq<u8>, method: u64) -> Seq<u8> {
    cbor_header(MAJOR_ARRAY, 3) + addrs_enc(actors) + cbor_bytes(exec_id) + cbor_u64(method)
}

/// Parses `n` byte strings in a row starting at `pos`.
pub open spec fn bstrs_at(buf: Seq<u8>, pos: int, n: nat) -> Option<(Seq<Seq<u8>>, int)>
    decreases n,
{
    if n == 0 {
        Some((Seq::empty(), pos))
    } else {
        match bytes_at(buf, pos) {
            Some((b, p)) => match bstrs_at(buf, p, (n - 1) as nat) {
                Some((rest, end)) => Some((seq![b] + rest, end)),
                None => None,
            },
            None => None,
        }
    }
}

/// Parses a whole buffer as coordinator method parameters.
pub open spec fn params_parse(buf: Seq<u8>) -> Option<(Seq<Seq<u8>>, Seq<u8>, u64)> {
    match header_at(buf, 0) {
        Some((major, n, p)) => if major == MAJOR_ARRAY && n == 3 {
            match header_at(buf, p) {
                Some((amajor, an, p1)) => if amajor == MAJOR_ARRAY {
                    match bstrs_at(buf, p1, an as nat) {
                        Some((actors, p2)) => match bytes_at(buf, p2) {
                            Some((eid, p3)) => match u64_at(buf, p3) {
                                Some((m, end)) => if end == buf.len() {
                                    Some((actors, eid, m))
                                } else {
                                    None
                                },
                                None => None,
                            },
                            None => None,
                        },
                        None => None,
                    }
                } else {
                    None
                },
                None => None,
            }
        } else {
            None
        },
        None => None,
    }
}

/// Parsing a row of encoded byte strings yields them back.
pub proof fn lemma_bstrs_at(buf: Seq<u8>, pos: int, items: Seq<Seq<u8>>)
    requires
        0 <= pos,
        forall|i: int| 0 <= i < items.len() ==> (#[trigger] items[i]).len() <= u64::MAX,
        pos + cat_cbor_bytes(items).len() <= buf.len(),
        buf.subrange(pos, pos + cat_cbor_bytes(items).len() as int) == cat_cbor_bytes(items),
    ensures
        bstrs_at(buf, pos, items.len() as nat) == Some(
            (items, pos + cat_cbor_bytes(items).len() as int),
        ),
    decreases items.len(),
{
    if items.len() == 0 {
        assert(bstrs_at(buf, pos, 0) == Some((Seq::<Seq<u8>>::empty(), pos)));
        assert(items =~= Seq::<Seq<u8>>::empty());
    } else {
        let first = items[0];
        let rest = items.drop_first();
        // The encoding of the list is the first string's encoding
        // followed by the rest's.
        assert(cat_cbor_bytes(items) =~= cbor_bytes(first) + cat_cbor_bytes(rest)) by {
            lemma_cat_cbor_bytes_first(items);
        }
        let flen = cbor_bytes(first).len() as int;
        let total = cat_cbor_bytes(items).len() as int;
        assert(buf.subrange(pos, pos + flen) =~= cbor_bytes(first)) by {
            assert forall|k: int| 0 <= k < flen implies buf.subrange(pos, pos + flen)[k]
                == cbor_bytes(first)[k] by {
                assert(buf.subrange(pos, pos + flen)[k] == buf[pos + k]);
                assert(buf.subrange(pos, pos + total)[k] == buf[pos + k]);
                assert(cat_cbor_bytes(items)[k] == cbor_bytes(first)[k]);
            }
        }
        lemma_bytes_at(buf, pos, first);
        let p = pos + flen;
        assert(buf.subrange(p, p + cat_cbor_bytes(rest).len() as int) =~= cat_cbor_bytes(rest))
            by {
            assert forall|k: int|
                0 <= k < cat_cbor_bytes(rest).len() implies buf.subrange(
                p,
                p + cat_cbor_bytes(rest).len() as int,
            )[k] == cat_cbor_bytes(rest)[k] by {
                assert(buf.subrange(p, p + cat_cbor_bytes(rest).len() as int)[k] == buf[p + k]);
                assert(buf.subrange(pos, pos + total)[flen + k] == buf[p + k]);
                assert(cat_cbor_bytes(items)[flen + k] == cat_cbor_bytes(rest)[k]);
            }
        }
        assert forall|i: int| 0 <= i < rest.len() implies (#[trigger] rest[i]).len()
            <= u64::MAX by {
            assert(rest[i] == items[i + 1]);
        }
        lemma_bstrs_at(buf, p, rest);
        assert(seq![first] + rest =~= items);
    }
}

/// The encoding of a byte-string list splits at its first element.
pub proof fn lemma_cat_cbor_bytes_first(items: Seq<Seq<u8>>)
    requires
        items.len() > 0,
    ensures
        cat_cbor_bytes(items) == cbor_bytes(items[0]) + cat_cbor_bytes(items.drop_first()),
    decreases items.len(),
{
    if items.len() == 1 {
        assert(items.drop_last() =~= Seq::<Seq<u8>>::empty());
        assert(items.drop_first() =~= Seq::<Seq<u8>>::empty());
        assert(cat_cbor_bytes(items) =~= cbor_bytes(items[0]) + cat_cbor_bytes(
            items.drop_first(),
        ));
    } else {
        lemma_cat_cbor_bytes_first(items.drop_last());
        assert(items.drop_last()[0] == items[0]);
        assert(items.drop_first().drop_last() =~= items.drop_last().drop_first());
        assert(items.drop_first().last() == items.last());
        assert(cat_cbor_bytes(items.drop_first()) == cat_cbor_bytes(
            items.drop_first().drop_last(),
        ) + cbor_bytes(items.drop_first().last()));
        assert(cat_cbor_bytes(items) =~= cbor_bytes(items[0]) + cat_cbor_bytes(
            items.drop_first(),
        ));
    }
}

/// Parsing inverts encoding for coordinator method parameters.
#[verifier::rlimit(100)]
#[verifier::spinoff_prover]
pub proof fn lemma_params_parse_enc(actors: Seq<Seq<u8>>, exec_id: Seq<u8>, method: u64)
    requires
        forall|i: int| 0 <= i < actors.len() ==> (#[trigger] actors[i]).len() <= u64::MAX,
        exec_id.len() <= u64::MAX,
        actors.len() <= u64::MAX,
    ensures
        params_parse(params_enc(actors, exec_id, method)) == Some((actors, exec_id, method)),
{
    let buf = params_enc(actors, exec_id, method);
    lemma_header_len(MAJOR_ARRAY, 3);
    assert(buf.subrange(0, 1) =~= cbor_header(MAJOR_ARRAY, 3));
    lemma_header_at(buf, 0, MAJOR_ARRAY, 3);
    let n = actors.len() as u64;
    let hl = header_len(n);
    lemma_header_len(MAJOR_ARRAY, n);
    assert(buf.subrange(1, 1 + hl) =~= cbor_header(MAJOR_ARRAY, n));
    lemma_header_at(buf, 1, MAJOR_ARRAY, n);
    let p1 = 1 + hl;
    let clen = cat_cbor_bytes(actors).len() as int;
    assert(buf.subrange(p1, p1 + clen) =~= cat_cbor_bytes(actors));
    lemma_bstrs_at(buf, p1, actors);
    let p2 = p1 + clen;
    let elen = cbor_bytes(exec_id).len() as int;
    assert(buf.subrange(p2, p2 + elen) =~= cbor_bytes(exec_id));
    lemma_bytes_at(buf, p2, exec_id);
    let p3 = p2 + elen;
    let mlen = cbor_u64(method).len() as int;
    lemma_header_len(crate::cbor::MAJOR_UINT, method);
    assert(buf.subrange(p3, p3 + mlen) =~= cbor_u64(method));
    lemma_u64_at(buf, p3, method);
    assert(p3 + mlen == buf.len());
}

/// Encodes coordinator method parameters.
pub fn encode_params(actors: &Vec<IpcAddress>, exec_id: &Vec<u8>, method: u64) -> (r: Vec<u8>)
    ensures
        r@ == params_enc(addr_views(actors@), exec_id@, method),
{
    let mut out: Vec<u8> = Vec::new();
    encode_header(&mut out, MAJOR_ARRAY, 3);
    let n = actors.len();
    encode_header(&mut out, MAJOR_ARRAY, n as u64);
    let ghost prefix = cbor_header(MAJOR_ARRAY, 3) + cbor_header(MAJOR_ARRAY, n as u64);
    proof {
        assert(addr_views(actors@).len() == actors@.len());
        assert(cat_cbor_bytes(addr_views(actors@).take(0)) =~= Seq::<u8>::empty());
        assert(out@ =~= prefix + cat_cbor_bytes(addr_views(actors@).take(0)));
    }
    for i in 0..n
        invariant
            n == actors@.len(),
            prefix == cbor_header(MAJOR_ARRAY, 3) + cbor_header(MAJOR_ARRAY, n as u64),
            out@ == prefix + cat_cbor_bytes(addr_views(actors@).take(i as int)),
    {
        encode_bytes(&mut out, actors[i].as_bytes());
        proof {
            let part = addr_views(actors@).take(i + 1);
            assert(addr_views(actors@).len() == actors@.len());
            assert(part.drop_last() =~= addr_views(actors@).take(i as int));
            assert(part.last() == actors@[i as int]@);
            assert(out@ =~= prefix + cat_cbor_bytes(part));
        }
    }
    proof {
        assert(addr_views(actors@).take(n as int) =~= addr_views(actors@));
    }
    encode_bytes(&mut out, exec_id);
    encode_u64(&mut out, method);
    proof {
        assert(out@ =~= params_enc(addr_views(actors@), exec_id@, method));
    }
    out
}

/// View of an address list as its byte strings.
pub open spec fn addr_views(s: Seq<IpcAddress>) -> Seq<Seq<u8>> {
    s.map_values(|a: IpcAddress| a@)
}

/// Reads `n` byte strings in a row from `buf` at `pos`.
pub fn decode_bstrs(buf: &Vec<u8>, pos: usize, n: u64) -> (r: Option<(Vec<Vec<u8>>, usize)>)
    ensures
        match r {
            Some((items, end)) => bstrs_at(buf@, pos as int, n as nat) == Some(
                (crate::bytes::deep(items@), end as int),
            ) && items@.len() == n,
            None => bstrs_at(buf@, pos as int, n as nat) is None,
        },
{
    let mut items: Vec<Vec<u8>> = Vec::new();
    let mut cur = pos;
    let mut i: u64 = 0;
    while i < n
        invariant
            0 <= i <= n,
            crate::bytes::deep(items@).len() == i,
            items@.len() == i,
            match bstrs_at(buf@, cur as int, (n - i) as nat) {
                Some((rest, end)) => bstrs_at(buf@, pos as int, n as nat) == Some(
                    (crate::bytes::deep(items@) + rest, end),
                ),
                None => bstrs_at(buf@, pos as int, n as nat) is None,
            },
        decreases n - i,
    {
        let (b, np) = match decode_bytes(buf, cur) {
            Some(x) => x,
            None => {
                return None;
            },
        };
        let ghost pre = items@;
        let ghost bv = b@;
        items.push(b);
        proof {
            assert(crate::bytes::deep(items@) =~= crate::bytes::deep(pre).push(bv)) by {
                assert(crate::bytes::deep(pre).len() == pre.len());
                assert forall|k: int|
                    0 <= k < items@.len() implies crate::bytes::deep(items@)[k]
                    == crate::bytes::deep(pre).push(bv)[k] by {
                    if k < pre.len() {
                        assert(items@[k] == pre[k]);
                        assert(crate::bytes::deep(pre)[k] == pre[k]@);
                    }
                }
            }
            if bstrs_at(buf@, np as int, (n - i - 1) as nat) is Some {
                let (rest2, end2) = bstrs_at(buf@, np as int, (n - i - 1) as nat)->Some_0;
                assert(bstrs_at(buf@, cur as int, (n - i) as nat) == Some(
                    (seq![bv] + rest2, end2),
                ));
                assert(crate::bytes::deep(pre) + (seq![bv] + rest2) =~= crate::bytes::deep(
                    items@,
                ) + rest2);
            } else {
                assert(bstrs_at(buf@, cur as int, (n - i) as nat) is None);
            }
        }
        cur = np;
        i = i + 1;
    }
    proof {
        assert(bstrs_at(buf@, cur as int, 0) == Some((Seq::<Seq<u8>>::empty(), cur as int)));
        assert(crate::bytes::deep(items@) + Seq::<Seq<u8>>::empty() =~= crate::bytes::deep(
            items@,
        ));
    }
    Some((items, cur))
}

/// Decodes a whole buffer as coordinator method parameters: the
/// participant addresses, the execution identifier, and the callback
/// method number.
pub fn decode_params(buf: &Vec<u8>) -> (r: Option<(Vec<IpcAddress>, Vec<u8>, u64)>)
    ensures
        match r {
            Some((actors, eid, m)) => params_parse(buf@) == Some((addr_views(actors@), eid@, m)),
            None => params_parse(buf@) is None,
        },
{
    let (major, three, p) = match decode_header(buf, 0) {
        Some(h) => h,
        None => {
            return None;
        },
    };
    if !(major == MAJOR_ARRAY && three == 3) {
        return None;
    }
    let (amajor, an, p1) = match decode_header(buf, p) {
        Some(h) => h,
        None => {
            return None;
        },
    };
    if amajor != MAJOR_ARRAY {
        return None;
    }
    let (raw, pos) = match decode_bstrs(buf, p1, an) {
        Some(x) => x,
        None => {
            return None;
        },
    };
    let rn = raw.len();
    let mut actors: Vec<IpcAddress> = Vec::new();
    let mut raw_iter = raw;
    let ghost all = crate::bytes::deep(raw_iter@);
    for i in 0..rn
        invariant
            rn == raw_iter@.len(),
            all == crate::bytes::deep(raw_iter@),
            addr_views(actors@) == all.take(i as int),
    {
        let b = crate::bytes::bytes_clone(&raw_iter[i]);
        let ghost pre = actors@;
        actors.push(IpcAddress::new(b));
        proof {
            assert(addr_views(pre).len() == pre.len());
            assert(crate::bytes::deep(raw_iter@).len() == raw_iter@.len());
            assert forall|k: int|
                0 <= k < actors@.len() implies addr_views(actors@)[k] == all.take(i + 1)[k] by {
                if k < pre.len() {
                    assert(actors@[k] == pre[k]);
                    assert(addr_views(pre)[k] == pre[k]@);
                } else {
                    assert(all[k] == raw_iter@[k]@);
                }
            }
            assert(addr_views(actors@) =~= all.take(i + 1));
        }
    }
    proof {
        assert(all.take(rn as int) =~= all);
    }
    let (eid, p3) = match decode_bytes(buf, pos) {
        Some(x) => x,
        None => {
            return None;
        },
    };
    let (m, end) = match decode_u64(buf, p3) {
        Some(x) => x,
        None => {
            return None;
        },
    };
    if end != buf.len() {
        return None;
    }
    Some((actors, eid, m))
}

/// The CBOR encoding of the coordinator constructor's parameters: the
/// gateway address as a one-element tuple.
pub open spec fn ctor_params_enc(gateway: u64) -> Seq<u8> {
    cbor_header(MAJOR_ARRAY, 1) + cbor_u64(gateway)
}

/// Parses a whole buffer as constructor parameters.
pub open spec fn ctor_params_parse(buf: Seq<u8>) -> Option<u64> {
    match header_at(buf, 0) {
        Some((major, n, p)) => if major == MAJOR_ARRAY && n == 1 {
            match u64_at(buf, p) {
                Some((g, end)) => if end == buf.len() {
                    Some(g)
                } else {
                    None
                },
                None => None,
            }
        } else {
            None
        },
        None => None,
    }
}

/// Parsing inverts encoding for constructor parameters.
pub proof fn lemma_ctor_params_parse_enc(gateway: u64)
    ensures
        ctor_params_parse(ctor_params_enc(gateway)) == Some(gateway),
{
    let buf = ctor_params_enc(gateway);
    lemma_header_len(MAJOR_ARRAY, 1);
    assert(buf.subrange(0, 1) =~= cbor_header(MAJOR_ARRAY, 1));
    lemma_header_at(buf, 0, MAJOR_ARRAY, 1);
    lemma_header_len(crate::cbor::MAJOR_UINT, gateway);
    assert(buf.subrange(1, 1 + cbor_u64(gateway).len() as int) =~= cbor_u64(gateway));
    lemma_u64_at(buf, 1, gateway);
}

/// Encodes constructor parameters.
pub fn encode_ctor_params(gateway: u64) -> (r: Vec<u8>)
    ensures
        r@ == ctor_params_enc(gateway),
{
    let mut out: Vec<u8> = Vec::new();
    encode_header(&mut out, MAJOR_ARRAY, 1);
    encode_u64(&mut out, gateway);
    proof {
        assert(out@ =~= ctor_params_enc(gateway));
    }
    out
}

/// Decodes a whole buffer as constructor parameters.
pub fn decode_ctor_params(buf: &Vec<u8>) -> (r: Option<u64>)
    ensures
        r == ctor_params_parse(buf@),
{
    let (major, one, p) = match decode_header(buf, 0) {
        Some(h) => h,
        None => {
            return None;
        },
    };
    if !(major == MAJOR_ARRAY && one == 1) {
        return None;
    }
    let (g, end) = match decode_u64(buf, p) {
        Some(x) => x,
        None => {
            return None;
        },
    };
    if end != buf.len() {
        return None;
    }
    Some(g)
}

} // verus!
