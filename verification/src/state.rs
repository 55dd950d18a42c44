//! The coordinator's state: a registry of collected pre-commitments.
//!
//! The registry is keyed by the pair of an execution identifier and the
//! participant set; entries for distinct participant sets are
//! independent even under the same execution identifier. A key is held
//! as its canonical encoding: the execution identifier and the
//! participants' addresses sorted byte-wise.

use vstd::prelude::*;

use crate::atomic::cat_cbor_bytes;
use crate::bytes::bytes_clone;
use crate::cbor::{cbor_bytes, cbor_header, encode_bytes, encode_header, MAJOR_ARRAY};
use crate::exec_id::{sort_kv, sort_pairs};
use crate::kvlist::{kv_find, kv_map, kv_remove, kv_set, kv_unique, lemma_kv_contains,
    lemma_kv_remove_at, lemma_kv_view_equiv};
use crate::types::{ConstructorParams, IpcAddress};

verus! {

/// The addresses of an actor list are pairwise distinct.
pub open spec fn addrs_distinct(s: Seq<IpcAddress>) -> bool {
    forall|i: int, j: int| 0 <= i < j < s.len() ==> s[i]@ != s[j]@
}

/// Checks that the addresses of an actor list are pairwise distinct.
pub fn check_addrs_distinct(s: &Vec<IpcAddress>) -> (r: bool)
    ensures
        r == addrs_distinct(s@),
{
    let n = s.len();
    for i in 0..n
        invariant
            n == s@.len(),
            forall|p: int, q: int| 0 <= p < q < s@.len() && q < i ==> s@[p]@ != s@[q]@,
    {
        let mut j: usize = 0;
        while j < i
            invariant
                0 <= j <= i < n,
                n == s@.len(),
                forall|p: int| 0 <= p < j ==> s@[p]@ != s@[i as int]@,
            decreases i - j,
        {
            if s[j].same_as(&s[i]) {
                return false;
            }
            j = j + 1;
        }
    }
    true
}

/// An actor list as key-value pairs with empty values, ready to sort.
pub open spec fn addr_pairs(actors: Seq<IpcAddress>) -> Seq<(Seq<u8>, Seq<u8>)> {
    actors.map_values(|a: IpcAddress| (a@, Seq::<u8>::empty()))
}

/// An address byte-string list as key-value pairs with empty values.
pub open spec fn view_pairs(addrs: Seq<Seq<u8>>) -> Seq<(Seq<u8>, Seq<u8>)> {
    addrs.map_values(|a: Seq<u8>| (a, Seq::<u8>::empty()))
}

/// The canonical form of a participant set given as address bytes: the
/// addresses sorted byte-wise.
pub open spec fn canon_views(addrs: Seq<Seq<u8>>) -> Seq<Seq<u8>> {
    sort_pairs(view_pairs(addrs)).map_values(|p: (Seq<u8>, Seq<u8>)| p.0)
}

/// The canonical form of a participant set: its addresses sorted
/// byte-wise.
pub open spec fn canon_actors(actors: Seq<IpcAddress>) -> Seq<Seq<u8>> {
    sort_pairs(addr_pairs(actors)).map_values(|p: (Seq<u8>, Seq<u8>)| p.0)
}

/// The two canonical forms agree: an actor list and its address bytes
/// sort the same.
pub proof fn lemma_canon_agree(actors: Seq<IpcAddress>)
    ensures
        canon_actors(actors) == canon_views(crate::types::addr_views(actors)),
{
    assert(addr_pairs(actors) =~= view_pairs(crate::types::addr_views(actors))) by {
        assert(crate::types::addr_views(actors).len() == actors.len());
        assert forall|i: int|
            0 <= i < actors.len() implies addr_pairs(actors)[i] == view_pairs(
            crate::types::addr_views(actors),
        )[i] by {
            assert(crate::types::addr_views(actors)[i] == actors[i]@);
        }
    }
}

/// The canonical encoding of a registry key: the execution identifier
/// and the sorted participant addresses, as a CBOR tuple.
pub open spec fn registry_key_enc(exec_id: Seq<u8>, actors: Seq<Seq<u8>>) -> Seq<u8> {
    cbor_header(MAJOR_ARRAY, 2) + cbor_bytes(exec_id) + cbor_header(
        MAJOR_ARRAY,
        actors.len() as u64,
    ) + cat_cbor_bytes(actors)
}

/// The registry key of an execution identifier and a participant set.
pub open spec fn registry_key_of(exec_id: Seq<u8>, actors: Seq<IpcAddress>) -> Seq<u8> {
    registry_key_enc(exec_id, canon_actors(actors))
}

/// Parses a whole byte string as a registry key: the execution
/// identifier and the sorted participant addresses.
pub open spec fn registry_key_parse(buf: Seq<u8>) -> Option<(Seq<u8>, Seq<Seq<u8>>)> {
    match crate::cbor::header_at(buf, 0) {
        Some((major, two, p)) => if major == MAJOR_ARRAY && two == 2 {
            match crate::cbor::bytes_at(buf, p) {
                Some((exec_id, p1)) => match crate::cbor::header_at(buf, p1) {
                    Some((amajor, n, p2)) => if amajor == MAJOR_ARRAY {
                        match crate::types::bstrs_at(buf, p2, n as nat) {
                            Some((actors, end)) => if end == buf.len() {
                                Some((exec_id, actors))
                            } else {
                                None
                            },
                            None => None,
                        }
                    } else {
                        None
                    },
                    None => None,
                },
                None => None,
            }
        } else {
            None
        },
        None => None,
    }
}

/// Parsing inverts encoding for registry keys.
#[verifier::rlimit(100)]
#[verifier::spinoff_prover]
pub proof fn lemma_registry_key_parse_enc(exec_id: Seq<u8>, actors: Seq<Seq<u8>>)
    requires
        exec_id.len() <= u64::MAX,
        actors.len() <= u64::MAX,
        forall|i: int| 0 <= i < actors.len() ==> (#[trigger] actors[i]).len() <= u64::MAX,
    ensures
        registry_key_parse(registry_key_enc(exec_id, actors)) == Some((exec_id, actors)),
{
    let buf = registry_key_enc(exec_id, actors);
    crate::cbor::lemma_header_len(MAJOR_ARRAY, 2);
    assert(buf.subrange(0, 1) =~= cbor_header(MAJOR_ARRAY, 2));
    crate::cbor::lemma_header_at(buf, 0, MAJOR_ARRAY, 2);
    let elen = cbor_bytes(exec_id).len() as int;
    assert(buf.subrange(1, 1 + elen) =~= cbor_bytes(exec_id));
    crate::cbor::lemma_bytes_at(buf, 1, exec_id);
    let p1 = 1 + elen;
    let n = actors.len() as u64;
    let hl = crate::cbor::header_len(n);
    crate::cbor::lemma_header_len(MAJOR_ARRAY, n);
    assert(buf.subrange(p1, p1 + hl) =~= cbor_header(MAJOR_ARRAY, n));
    crate::cbor::lemma_header_at(buf, p1, MAJOR_ARRAY, n);
    let p2 = p1 + hl;
    let clen = cat_cbor_bytes(actors).len() as int;
    assert(buf.subrange(p2, p2 + clen) =~= cat_cbor_bytes(actors));
    crate::types::lemma_bstrs_at(buf, p2, actors);
    assert(p2 + clen == buf.len());
}

/// The coordinator keys its entries on the pair of the execution
/// identifier and the participant set: two equal keys carry the same
/// identifier and the same canonical set, so entries for distinct
/// participant sets are independent even under one execution
/// identifier.
pub proof fn lemma_registry_key_injective(
    e1: Seq<u8>,
    a1: Seq<Seq<u8>>,
    e2: Seq<u8>,
    a2: Seq<Seq<u8>>,
)
    requires
        e1.len() <= u64::MAX,
        e2.len() <= u64::MAX,
        a1.len() <= u64::MAX,
        a2.len() <= u64::MAX,
        forall|i: int| 0 <= i < a1.len() ==> (#[trigger] a1[i]).len() <= u64::MAX,
        forall|i: int| 0 <= i < a2.len() ==> (#[trigger] a2[i]).len() <= u64::MAX,
        registry_key_enc(e1, a1) == registry_key_enc(e2, a2),
    ensures
        e1 == e2,
        a1 == a2,
{
    lemma_registry_key_parse_enc(e1, a1);
    lemma_registry_key_parse_enc(e2, a2);
}

/// The pair keying a coordinator registry entry: an execution
/// identifier and the set of participating actors.
pub struct RegistryKey {
    /// Atomic execution ID.
    pub exec_id: Vec<u8>,
    /// Actors participating in the atomic execution.
    pub actors: Vec<IpcAddress>,
}

impl RegistryKey {
    /// The canonical encoding of this key.
    pub fn encode(&self) -> (r: Vec<u8>)
        ensures
            r@ == registry_key_of(self.exec_id@, self.actors@),
    {
        encode_registry_key(&self.exec_id, &self.actors)
    }
}

/// Encodes the registry key of an execution identifier and a
/// participant set.
pub fn encode_registry_key(exec_id: &Vec<u8>, actors: &Vec<IpcAddress>) -> (r: Vec<u8>)
    ensures
        r@ == registry_key_of(exec_id@, actors@),
{
    let n = actors.len();
    let mut flat: Vec<(Vec<u8>, Vec<u8>)> = Vec::new();
    for i in 0..n
        invariant
            n == actors@.len(),
            crate::exec_id::raw_view(flat@) == addr_pairs(actors@).take(i as int),
    {
        let ghost pre = flat@;
        let key = bytes_clone(actors[i].as_bytes());
        flat.push((key, Vec::new()));
        proof {
            assert(crate::exec_id::raw_view(pre).len() == pre.len());
            assert(addr_pairs(actors@).len() == actors@.len());
            assert forall|k: int|
                0 <= k < flat@.len() implies crate::exec_id::raw_view(flat@)[k] == addr_pairs(
                actors@,
            ).take(i + 1)[k] by {
                assert(crate::exec_id::raw_view(flat@)[k] == (flat@[k].0@, flat@[k].1@));
                if k < i {
                    assert(flat@[k] == pre[k]);
                    assert(crate::exec_id::raw_view(pre)[k] == (pre[k].0@, pre[k].1@));
                    assert(crate::exec_id::raw_view(pre)[k] == addr_pairs(actors@).take(
                        i as int,
                    )[k]);
                } else {
                    assert(addr_pairs(actors@)[k] == (actors@[k]@, Seq::<u8>::empty()));
                }
            }
            assert(crate::exec_id::raw_view(flat@) =~= addr_pairs(actors@).take(i + 1));
        }
    }
    proof {
        assert(addr_pairs(actors@).take(n as int) =~= addr_pairs(actors@));
    }
    let sorted = sort_kv(&flat);
    let ghost canon = canon_actors(actors@);
    proof {
        assert(canon.len() == sort_pairs(addr_pairs(actors@)).len());
        assert(crate::exec_id::raw_view(sorted@).len() == sorted@.len());
    }
    let m = sorted.len();
    let mut out: Vec<u8> = Vec::new();
    encode_header(&mut out, MAJOR_ARRAY, 2);
    encode_bytes(&mut out, exec_id);
    encode_header(&mut out, MAJOR_ARRAY, m as u64);
    let ghost prefix = cbor_header(MAJOR_ARRAY, 2) + cbor_bytes(exec_id@) + cbor_header(
        MAJOR_ARRAY,
        m as u64,
    );
    proof {
        assert(cat_cbor_bytes(canon.take(0)) =~= Seq::<u8>::empty());
        assert(out@ =~= prefix + cat_cbor_bytes(canon.take(0)));
    }
    for i in 0..m
        invariant
            m == sorted@.len(),
            canon == canon_actors(actors@),
            canon.len() == m,
            prefix == cbor_header(MAJOR_ARRAY, 2) + cbor_bytes(exec_id@) + cbor_header(
                MAJOR_ARRAY,
                m as u64,
            ),
            forall|k: int|
                0 <= k < m ==> canon[k] == crate::exec_id::raw_view(sorted@)[k].0,
            crate::exec_id::raw_view(sorted@) == sort_pairs(addr_pairs(actors@)),
            out@ == prefix + cat_cbor_bytes(canon.take(i as int)),
    {
        encode_bytes(&mut out, &sorted[i].0);
        proof {
            let part = canon.take(i + 1);
            assert(part.drop_last() =~= canon.take(i as int));
            assert(part.last() == canon[i as int]);
            assert(crate::exec_id::raw_view(sorted@)[i as int].0 == sorted@[i as int].0@);
            assert(out@ =~= prefix + cat_cbor_bytes(part));
        }
    }
    proof {
        assert(canon.take(m as int) =~= canon);
        assert(out@ =~= registry_key_of(exec_id@, actors@));
    }
    out
}

/// One registry entry of the coordinator: the pre-commitments collected
/// so far, as pairs of a participant's address bytes and the method
/// number it asked to be called back on.
pub struct RegistryEntry {
    slots: Vec<(Vec<u8>, u64)>,
}

impl View for RegistryEntry {
    type V = Map<Seq<u8>, u64>;

    closed spec fn view(&self) -> Map<Seq<u8>, u64> {
        kv_map(self.slots@)
    }
}

/// Clones a slot list, preserving order, keys and values.
fn clone_slots(v: &Vec<(Vec<u8>, u64)>) -> (r: Vec<(Vec<u8>, u64)>)
    ensures
        r@.len() == v@.len(),
        forall|i: int| 0 <= i < v@.len() ==> r@[i].0@ == v@[i].0@ && r@[i].1 == v@[i].1,
        kv_map(r@) == kv_map(v@),
        kv_unique(r@) == kv_unique(v@),
{
    let n = v.len();
    let mut r: Vec<(Vec<u8>, u64)> = Vec::new();
    for i in 0..n
        invariant
            n == v@.len(),
            r@.len() == i,
            forall|j: int| 0 <= j < i ==> r@[j].0@ == v@[j].0@ && r@[j].1 == v@[j].1,
    {
        let k = bytes_clone(&v[i].0);
        r.push((k, v[i].1));
    }
    proof {
        lemma_kv_view_equiv(r@, v@);
    }
    r
}

/// The coordinator actor's state: the gateway's address and the
/// registry of pre-commitments collected per (execution, participant
/// set) pair.
pub struct State {
    /// The address of the cross-subnet message gateway actor.
    pub ipc_gateway_address: u64,
    registry: Vec<(Vec<u8>, RegistryEntry)>,
}

impl State {
    /// The gateway address the coordinator was constructed with.
    pub closed spec fn gateway(&self) -> u64 {
        self.ipc_gateway_address
    }

    /// The registry: encoded (execution, participants) key to the map
    /// from a participant's address bytes to its commit method.
    pub closed spec fn registry_map(&self) -> Map<Seq<u8>, Map<Seq<u8>, u64>> {
        kv_map(self.registry@)
    }

    /// Registry keys and each entry's slot keys are pairwise distinct.
    pub closed spec fn wf(&self) -> bool {
        &&& kv_unique(self.registry@)
        &&& forall|i: int|
            0 <= i < self.registry@.len() ==> kv_unique(#[trigger] self.registry@[i].1.slots@)
    }

    /// The gateway address the coordinator was constructed with.
    pub fn gateway_addr(&self) -> (r: u64)
        ensures
            r == self.gateway(),
    {
        self.ipc_gateway_address
    }

    /// Creates the coordinator state, with an empty registry.
    pub fn new(params: ConstructorParams) -> (r: State)
        ensures
            r.wf(),
            r.gateway() == params.ipc_gateway_address,
            r.registry_map() == Map::<Seq<u8>, Map<Seq<u8>, u64>>::empty(),
    {
        State { ipc_gateway_address: params.ipc_gateway_address, registry: Vec::new() }
    }

    /// Modifies the entry associated with the execution ID and the
    /// participant set: records the pre-commitment of `addr` under
    /// `method`, or deletes `addr`'s slot when `method` is `None`. An
    /// absent entry is created empty first. Returns the resulting
    /// slots, in the entry's order.
    pub fn modify_atomic_exec(
        &mut self,
        exec_id: &Vec<u8>,
        actors: &Vec<IpcAddress>,
        addr: &IpcAddress,
        method: Option<u64>,
    ) -> (r: Vec<(Vec<u8>, u64)>)
        requires
            old(self).wf(),
        ensures
            final(self).wf(),
            final(self).gateway() == old(self).gateway(),
            ({
                let key = registry_key_of(exec_id@, actors@);
                let m0 = if old(self).registry_map().contains_key(key) {
                    old(self).registry_map()[key]
                } else {
                    Map::<Seq<u8>, u64>::empty()
                };
                let m1 = match method {
                    Some(v) => m0.insert(addr@, v),
                    None => m0.remove(addr@),
                };
                &&& final(self).registry_map() == old(self).registry_map().insert(key, m1)
                &&& kv_unique(r@)
                &&& kv_map(r@) == m1
            }),
    {
        let key = encode_registry_key(exec_id, actors);
        let mut entry: RegistryEntry = match kv_find(&self.registry, &key) {
            Some(i) => {
                let ghost pre = self.registry@;
                let (_, e) = self.registry.remove(i);
                proof {
                    lemma_kv_remove_at(pre, i as int);
                    lemma_kv_contains(pre, key@);
                    assert(e == pre[i as int].1);
                    assert(kv_unique(e.slots@));
                    assert forall|j: int|
                        0 <= j < self.registry@.len() implies kv_unique(
                        #[trigger] self.registry@[j].1.slots@,
                    ) by {
                        if j < i {
                            assert(self.registry@[j] == pre[j]);
                        } else {
                            assert(self.registry@[j] == pre[j + 1]);
                        }
                    }
                }
                e
            },
            None => {
                proof {
                    lemma_kv_contains(self.registry@, key@);
                    assert(kv_map(self.registry@).remove(key@) =~= kv_map(self.registry@));
                }
                RegistryEntry { slots: Vec::new() }
            },
        };
        match method {
            Some(v) => {
                let ak = bytes_clone(addr.as_bytes());
                kv_set(&mut entry.slots, ak, v);
            },
            None => {
                let ak = bytes_clone(addr.as_bytes());
                let _ = kv_remove(&mut entry.slots, &ak);
            },
        }
        let snapshot = clone_slots(&entry.slots);
        let ghost mid = self.registry@;
        let ghost newpair_slots = entry.slots@;
        kv_set(&mut self.registry, key, entry);
        proof {
            assert forall|j: int|
                0 <= j < self.registry@.len() implies kv_unique(
                #[trigger] self.registry@[j].1.slots@,
            ) by {
                if mid.contains(self.registry@[j]) {
                    let m = choose|m: int| 0 <= m < mid.len() && mid[m] == self.registry@[j];
                    assert(kv_unique(mid[m].1.slots@));
                } else {
                    assert(self.registry@[j].1.slots@ == newpair_slots);
                }
            }
            assert(old(self).registry_map().remove(key@).insert(key@, kv_map(newpair_slots))
                =~= old(self).registry_map().insert(key@, kv_map(newpair_slots)));
        }
        snapshot
    }

    /// Removes the entry associated with the execution ID and the
    /// participant set.
    pub fn rm_atomic_exec(&mut self, exec_id: &Vec<u8>, actors: &Vec<IpcAddress>)
        requires
            old(self).wf(),
        ensures
            final(self).wf(),
            final(self).gateway() == old(self).gateway(),
            final(self).registry_map() == old(self).registry_map().remove(
                registry_key_of(exec_id@, actors@),
            ),
    {
        let key = encode_registry_key(exec_id, actors);
        let ghost pre = self.registry@;
        let _ = kv_remove(&mut self.registry, &key);
        proof {
            assert forall|j: int|
                0 <= j < self.registry@.len() implies kv_unique(
                #[trigger] self.registry@[j].1.slots@,
            ) by {
                let m = choose|m: int| 0 <= m < pre.len() && pre[m] == self.registry@[j];
                assert(kv_unique(pre[m].1.slots@));
            }
        }
    }
}

} // verus!
