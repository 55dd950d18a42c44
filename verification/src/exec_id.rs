//! Atomic execution identifiers.
//!
//! An execution is identified by the BLAKE2b-256 digest of the CBOR
//! encoding of the participants' input-ID map. So that independent
//! participants derive the same identifier from the same map, the map
//! is encoded canonically: entries sorted by the byte-wise order of the
//! encoded keys.

use vstd::prelude::*;

use crate::bytes::{bytes_clone, bytes_lt, lemma_lex_transitive, lemma_lex_trichotomy, lex_lt};
use crate::cbor::{cbor_bytes, cbor_header, encode_bytes, encode_header, MAJOR_MAP};
use crate::hash::{blake2b256, blake2b256_of};
use crate::types::IpcAddress;

verus! {

/// View of a list of (address, input-ID) pairs.
pub open spec fn pairs_view(s: Seq<(IpcAddress, Vec<u8>)>) -> Seq<(Seq<u8>, Seq<u8>)> {
    s.map_values(|p: (IpcAddress, Vec<u8>)| (p.0@, p.1@))
}

/// View of a list of raw key-value byte pairs.
pub open spec fn raw_view(s: Seq<(Vec<u8>, Vec<u8>)>) -> Seq<(Seq<u8>, Seq<u8>)> {
    s.map_values(|p: (Vec<u8>, Vec<u8>)| (p.0@, p.1@))
}

/// The keys of the pair list are pairwise distinct.
pub open spec fn keys_distinct(s: Seq<(Seq<u8>, Seq<u8>)>) -> bool {
    forall|i: int, j: int| 0 <= i < j < s.len() ==> s[i].0 != s[j].0
}

/// The keys of the pair list are strictly increasing.
pub open spec fn sorted_strict(s: Seq<(Seq<u8>, Seq<u8>)>) -> bool {
    forall|i: int, j: int| 0 <= i < j < s.len() ==> lex_lt(s[i].0, s[j].0)
}

/// The finite map a pair list describes (earlier pairs win).
pub open spec fn pairs_map(s: Seq<(Seq<u8>, Seq<u8>)>) -> Map<Seq<u8>, Seq<u8>>
    decreases s.len(),
{
    if s.len() == 0 {
        Map::empty()
    } else {
        pairs_map(s.drop_first()).insert(s[0].0, s[0].1)
    }
}

/// A key is in the map exactly when some pair of the list holds it.
pub proof fn lemma_pairs_contains(s: Seq<(Seq<u8>, Seq<u8>)>, k: Seq<u8>)
    ensures
        pairs_map(s).contains_key(k) <==> exists|i: int| 0 <= i < s.len() && s[i].0 == k,
    decreases s.len(),
{
    if s.len() > 0 {
        lemma_pairs_contains(s.drop_first(), k);
        if exists|i: int| 0 <= i < s.drop_first().len() && s.drop_first()[i].0 == k {
            let i = choose|i: int| 0 <= i < s.drop_first().len() && s.drop_first()[i].0 == k;
            assert(s[i + 1].0 == k);
        }
        if exists|i: int| 0 <= i < s.len() && s[i].0 == k {
            let i = choose|i: int| 0 <= i < s.len() && s[i].0 == k;
            if i > 0 {
                assert(s.drop_first()[i - 1].0 == k);
            }
        }
    }
}

/// Inserts a pair into a list sorted by key, keeping it sorted.
pub open spec fn insert_sorted(p: (Seq<u8>, Seq<u8>), s: Seq<(Seq<u8>, Seq<u8>)>) -> Seq<
    (Seq<u8>, Seq<u8>),
>
    decreases s.len(),
{
    if s.len() == 0 {
        seq![p]
    } else if lex_lt(p.0, s[0].0) {
        seq![p] + s
    } else {
        seq![s[0]] + insert_sorted(p, s.drop_first())
    }
}

/// Sorts a pair list by key.
pub open spec fn sort_pairs(s: Seq<(Seq<u8>, Seq<u8>)>) -> Seq<(Seq<u8>, Seq<u8>)>
    decreases s.len(),
{
    if s.len() == 0 {
        Seq::empty()
    } else {
        insert_sorted(s[0], sort_pairs(s.drop_first()))
    }
}

/// Sorted insertion of a fresh key keeps the list sorted and inserts
/// exactly that binding into the map.
pub proof fn lemma_insert_sorted(p: (Seq<u8>, Seq<u8>), s: Seq<(Seq<u8>, Seq<u8>)>)
    requires
        sorted_strict(s),
        forall|i: int| 0 <= i < s.len() ==> s[i].0 != p.0,
    ensures
        sorted_strict(insert_sorted(p, s)),
        insert_sorted(p, s).len() == s.len() + 1,
        pairs_map(insert_sorted(p, s)) == pairs_map(s).insert(p.0, p.1),
        forall|i: int| #![trigger insert_sorted(p, s)[i]]
            0 <= i < s.len() + 1 ==> (insert_sorted(p, s)[i] == p || exists|j: int|
                0 <= j < s.len() && s[j] == insert_sorted(p, s)[i]),
    decreases s.len(),
{
    let r = insert_sorted(p, s);
    if s.len() == 0 {
        assert(r == seq![p]);
        assert(r.drop_first() =~= Seq::<(Seq<u8>, Seq<u8>)>::empty());
        assert(pairs_map(r) == pairs_map(r.drop_first()).insert(r[0].0, r[0].1));
        assert(pairs_map(r) =~= pairs_map(s).insert(p.0, p.1));
    } else if lex_lt(p.0, s[0].0) {
        assert(r == seq![p] + s);
        assert forall|i: int, j: int| 0 <= i < j < r.len() implies lex_lt(r[i].0, r[j].0) by {
            if i == 0 {
                if j > 1 {
                    lemma_lex_transitive(p.0, s[0].0, s[j - 1].0);
                }
            }
        }
        assert(r.drop_first() =~= s);
        assert(pairs_map(r) == pairs_map(s).insert(p.0, p.1));
        assert forall|i: int| 0 <= i < s.len() + 1 implies (#[trigger] r[i] == p || exists|j: int|
            0 <= j < s.len() && s[j] == r[i]) by {
            if i > 0 {
                assert(s[i - 1] == r[i]);
            }
        }
    } else {
        lemma_lex_trichotomy(p.0, s[0].0);
        assert(lex_lt(s[0].0, p.0));
        assert(sorted_strict(s.drop_first()));
        assert forall|i: int| 0 <= i < s.drop_first().len() implies s.drop_first()[i].0 != p.0 by {
            assert(s.drop_first()[i] == s[i + 1]);
        }
        lemma_insert_sorted(p, s.drop_first());
        let inner = insert_sorted(p, s.drop_first());
        assert(r == seq![s[0]] + inner);
        assert(r.len() == s.len() + 1);
        assert forall|i: int| 0 <= i < r.len() implies (#[trigger] r[i] == p || exists|j: int|
            0 <= j < s.len() && s[j] == r[i]) by {
            if i == 0 {
                assert(s[0] == r[0]);
            } else {
                assert(r[i] == inner[i - 1]);
                if inner[i - 1] != p {
                    let j = choose|j: int|
                        0 <= j < s.drop_first().len() && s.drop_first()[j] == inner[i - 1];
                    assert(s[j + 1] == r[i]);
                }
            }
        }
        assert forall|i: int, j: int| 0 <= i < j < r.len() implies lex_lt(r[i].0, r[j].0) by {
            if i == 0 {
                assert(r[j] == inner[j - 1]);
                if inner[j - 1] == p {
                    assert(lex_lt(s[0].0, p.0));
                } else {
                    let m = choose|m: int|
                        0 <= m < s.drop_first().len() && s.drop_first()[m] == inner[j - 1];
                    assert(s.drop_first()[m] == s[m + 1]);
                    assert(lex_lt(s[0].0, s[m + 1].0));
                }
            } else {
                assert(r[i] == inner[i - 1] && r[j] == inner[j - 1]);
            }
        }
        assert(r.drop_first() =~= inner);
        assert(pairs_map(r) == pairs_map(inner).insert(s[0].0, s[0].1));
        assert(pairs_map(inner) == pairs_map(s.drop_first()).insert(p.0, p.1));
        assert(pairs_map(s.drop_first()).insert(p.0, p.1).insert(s[0].0, s[0].1) =~= pairs_map(
            s.drop_first(),
        ).insert(s[0].0, s[0].1).insert(p.0, p.1));
    }
}

/// Sorting a distinct-key pair list keeps its map and makes the keys
/// strictly increasing.
pub proof fn lemma_sort_pairs(s: Seq<(Seq<u8>, Seq<u8>)>)
    requires
        keys_distinct(s),
    ensures
        sorted_strict(sort_pairs(s)),
        sort_pairs(s).len() == s.len(),
        pairs_map(sort_pairs(s)) == pairs_map(s),
        forall|i: int| #![trigger sort_pairs(s)[i]]
            0 <= i < s.len() ==> exists|j: int| 0 <= j < s.len() && s[j] == sort_pairs(s)[i],
    decreases s.len(),
{
    if s.len() > 0 {
        let t = s.drop_first();
        assert(keys_distinct(t)) by {
            assert forall|i: int, j: int| 0 <= i < j < t.len() implies t[i].0 != t[j].0 by {
                assert(t[i] == s[i + 1] && t[j] == s[j + 1]);
            }
        }
        lemma_sort_pairs(t);
        let st = sort_pairs(t);
        assert forall|i: int| 0 <= i < st.len() implies st[i].0 != s[0].0 by {
            let j = choose|j: int| 0 <= j < t.len() && t[j] == st[i];
            assert(t[j] == s[j + 1]);
        }
        lemma_insert_sorted(s[0], st);
        assert forall|i: int| 0 <= i < s.len() implies (exists|j: int|
            0 <= j < s.len() && s[j] == #[trigger] sort_pairs(s)[i]) by {
            let r = sort_pairs(s);
            assert(r == insert_sorted(s[0], st));
            if r[i] == s[0] {
                assert(s[0] == r[i]);
            } else {
                let m = choose|m: int| 0 <= m < st.len() && st[m] == r[i];
                let j = choose|j: int| 0 <= j < t.len() && t[j] == st[m];
                assert(s[j + 1] == r[i]);
            }
        }
    }
}

/// Strictly sorted pair lists are determined by their maps: two sorted
/// lists describing the same map are the same list.
pub proof fn lemma_sorted_unique(a: Seq<(Seq<u8>, Seq<u8>)>, b: Seq<(Seq<u8>, Seq<u8>)>)
    requires
        sorted_strict(a),
        sorted_strict(b),
        pairs_map(a) == pairs_map(b),
    ensures
        a == b,
    decreases a.len(),
{
    lemma_pairs_contains(a, if a.len() > 0 {
        a[0].0
    } else {
        Seq::empty()
    });
    if a.len() == 0 {
        if b.len() > 0 {
            lemma_pairs_contains(b, b[0].0);
            assert(pairs_map(b).contains_key(b[0].0));
            lemma_pairs_contains(a, b[0].0);
            assert(false);
        }
        assert(a =~= b);
    } else {
        if b.len() == 0 {
            lemma_pairs_contains(a, a[0].0);
            lemma_pairs_contains(b, a[0].0);
            assert(false);
        }
        // The two head keys are mutual lower bounds, so they are equal.
        lemma_pairs_contains(a, b[0].0);
        lemma_pairs_contains(b, a[0].0);
        let i = choose|i: int| 0 <= i < a.len() && a[i].0 == b[0].0;
        let j = choose|j: int| 0 <= j < b.len() && b[j].0 == a[0].0;
        lemma_lex_trichotomy(a[0].0, b[0].0);
        if a[0].0 != b[0].0 {
            assert(i > 0 && j > 0);
            assert(lex_lt(a[0].0, a[i].0));
            assert(lex_lt(b[0].0, b[j].0));
            assert(false);
        }
        // Equal heads: values agree because the head binding wins.
        assert(pairs_map(a)[a[0].0] == a[0].1);
        assert(pairs_map(b)[b[0].0] == b[0].1);
        assert(a[0] == b[0]) by {
            assert(a[0].0 == b[0].0 && a[0].1 == b[0].1);
        }
        // Tail maps are the head-free remainders of the same map.
        let k = a[0].0;
        assert(sorted_strict(a.drop_first())) by {
            assert forall|p: int, q: int|
                0 <= p < q < a.drop_first().len() implies lex_lt(
                a.drop_first()[p].0,
                a.drop_first()[q].0,
            ) by {
                assert(a.drop_first()[p] == a[p + 1] && a.drop_first()[q] == a[q + 1]);
            }
        }
        assert(sorted_strict(b.drop_first())) by {
            assert forall|p: int, q: int|
                0 <= p < q < b.drop_first().len() implies lex_lt(
                b.drop_first()[p].0,
                b.drop_first()[q].0,
            ) by {
                assert(b.drop_first()[p] == b[p + 1] && b.drop_first()[q] == b[q + 1]);
            }
        }
        assert(pairs_map(a.drop_first()) =~= pairs_map(a).remove(k)) by {
            lemma_pairs_contains(a.drop_first(), k);
            assert forall|m: int| 0 <= m < a.drop_first().len() implies a.drop_first()[m].0
                != k by {
                assert(a.drop_first()[m] == a[m + 1]);
                lemma_lex_trichotomy(k, a[m + 1].0);
            }
            assert(!pairs_map(a.drop_first()).contains_key(k));
        }
        assert(pairs_map(b.drop_first()) =~= pairs_map(b).remove(k)) by {
            lemma_pairs_contains(b.drop_first(), k);
            assert forall|m: int| 0 <= m < b.drop_first().len() implies b.drop_first()[m].0
                != k by {
                assert(b.drop_first()[m] == b[m + 1]);
                lemma_lex_trichotomy(k, b[m + 1].0);
            }
            assert(!pairs_map(b.drop_first()).contains_key(k));
        }
        lemma_sorted_unique(a.drop_first(), b.drop_first());
        assert(a =~= b) by {
            assert forall|m: int| 0 <= m < a.len() implies a[m] == b[m] by {
                if m > 0 {
                    assert(a.drop_first()[m - 1] == b.drop_first()[m - 1]);
                    assert(a[m] == a.drop_first()[m - 1]);
                    assert(b[m] == b.drop_first()[m - 1]);
                }
            }
        }
    }
}

/// The canonical CBOR body of a pair list: each key and value as a byte
/// string, in list order.
pub open spec fn map_body(s: Seq<(Seq<u8>, Seq<u8>)>) -> Seq<u8>
    decreases s.len(),
{
    if s.len() == 0 {
        Seq::empty()
    } else {
        map_body(s.drop_last()) + cbor_bytes(s.last().0) + cbor_bytes(s.last().1)
    }
}

/// The canonical CBOR encoding of a pair list as a map.
pub open spec fn map_enc(s: Seq<(Seq<u8>, Seq<u8>)>) -> Seq<u8> {
    cbor_header(MAJOR_MAP, s.len() as u64) + map_body(s)
}

/// The atomic execution identifier derived from an input-ID map: the
/// digest of the canonical encoding of the map, sorted by key.
pub open spec fn exec_id_of(s: Seq<(Seq<u8>, Seq<u8>)>) -> Seq<u8> {
    blake2b256_of(map_enc(sort_pairs(s)))
}

/// Sorted insertion places the pair exactly before the first larger key.
pub proof fn lemma_insert_sorted_at(p: (Seq<u8>, Seq<u8>), s: Seq<(Seq<u8>, Seq<u8>)>, j: int)
    requires
        0 <= j <= s.len(),
        forall|m: int| 0 <= m < j ==> !lex_lt(p.0, s[m].0),
        j < s.len() ==> lex_lt(p.0, s[j].0),
    ensures
        insert_sorted(p, s) == s.take(j) + seq![p] + s.skip(j),
    decreases j,
{
    if j == 0 {
        if s.len() == 0 {
            assert(insert_sorted(p, s) =~= s.take(0) + seq![p] + s.skip(0));
        } else {
            assert(insert_sorted(p, s) == seq![p] + s);
            assert(seq![p] + s =~= s.take(0) + seq![p] + s.skip(0));
        }
    } else {
        assert(!lex_lt(p.0, s[0].0));
        let t = s.drop_first();
        assert forall|m: int| 0 <= m < j - 1 implies !lex_lt(p.0, t[m].0) by {
            assert(t[m] == s[m + 1]);
        }
        if j - 1 < t.len() {
            assert(t[j - 1] == s[j]);
        }
        lemma_insert_sorted_at(p, t, j - 1);
        assert(insert_sorted(p, s) == seq![s[0]] + (t.take(j - 1) + seq![p] + t.skip(j - 1)));
        assert(seq![s[0]] + (t.take(j - 1) + seq![p] + t.skip(j - 1)) =~= s.take(j) + seq![p]
            + s.skip(j));
    }
}

/// Sorts a key-value list of byte strings by key.
pub fn sort_kv(v: &Vec<(Vec<u8>, Vec<u8>)>) -> (r: Vec<(Vec<u8>, Vec<u8>)>)
    ensures
        raw_view(r@) == sort_pairs(raw_view(v@)),
{
    let mut acc: Vec<(Vec<u8>, Vec<u8>)> = Vec::new();
    let n = v.len();
    let mut i = n;
    proof {
        assert(raw_view(v@).skip(n as int) =~= Seq::<(Seq<u8>, Seq<u8>)>::empty());
        assert(raw_view(acc@) =~= sort_pairs(raw_view(v@).skip(n as int)));
    }
    while i > 0
        invariant
            0 <= i <= n,
            n == v@.len(),
            raw_view(acc@) == sort_pairs(raw_view(v@).skip(i as int)),
        decreases i,
    {
        i = i - 1;
        let key = bytes_clone(&v[i].0);
        let val = bytes_clone(&v[i].1);
        let mut j: usize = 0;
        while j < acc.len() && !bytes_lt(&key, &acc[j].0)
            invariant
                0 <= j <= acc@.len(),
                forall|m: int| 0 <= m < j ==> !lex_lt(key@, raw_view(acc@)[m].0),
            decreases acc@.len() - j,
        {
            proof {
                assert(raw_view(acc@)[j as int].0 == acc@[j as int].0@);
            }
            j = j + 1;
        }
        let ghost pre = acc@;
        let ghost p = (key@, val@);
        proof {
            if j < acc@.len() {
                assert(raw_view(pre)[j as int].0 == pre[j as int].0@);
            }
        }
        acc.insert(j, (key, val));
        proof {
            lemma_insert_sorted_at(p, raw_view(pre), j as int);
            assert(raw_view(acc@) =~= raw_view(pre).take(j as int) + seq![p] + raw_view(pre).skip(
                j as int,
            ));
            let rest = raw_view(v@).skip(i as int);
            assert(rest[0] == p);
            assert(rest.drop_first() =~= raw_view(v@).skip(i + 1));
            assert(sort_pairs(rest) == insert_sorted(p, sort_pairs(rest.drop_first())));
        }
    }
    proof {
        assert(raw_view(v@).skip(0) =~= raw_view(v@));
    }
    acc
}

/// Computes the atomic execution identifier of an input-ID map, given
/// as a list of (address, input-ID) pairs with distinct addresses.
pub fn compute_exec_id(input_ids: &Vec<(IpcAddress, Vec<u8>)>) -> (r: Vec<u8>)
    ensures
        r@ == exec_id_of(pairs_view(input_ids@)),
        r@.len() == 32,
{
    let mut flat: Vec<(Vec<u8>, Vec<u8>)> = Vec::new();
    let n = input_ids.len();
    for i in 0..n
        invariant
            n == input_ids@.len(),
            raw_view(flat@) == pairs_view(input_ids@).take(i as int),
    {
        let ghost pre = flat@;
        let key = bytes_clone(input_ids[i].0.as_bytes());
        let val = bytes_clone(&input_ids[i].1);
        flat.push((key, val));
        proof {
            assert(flat@ == pre.push((key, val)));
            assert(raw_view(pre).len() == pre.len());
            assert(pre.len() == i);
            assert(pairs_view(input_ids@).len() == input_ids@.len());
            assert forall|k: int| 0 <= k < flat@.len() implies raw_view(flat@)[k] == pairs_view(
                input_ids@,
            ).take(i + 1)[k] by {
                assert(raw_view(flat@)[k] == (flat@[k].0@, flat@[k].1@));
                if k < i {
                    assert(flat@[k] == pre[k]);
                    assert(raw_view(pre)[k] == (pre[k].0@, pre[k].1@));
                    assert(raw_view(pre)[k] == pairs_view(input_ids@).take(i as int)[k]);
                } else {
                    assert(flat@[k] == (key, val));
                    assert(pairs_view(input_ids@)[k] == (input_ids@[k].0@, input_ids@[k].1@));
                }
            }
            assert(raw_view(flat@) =~= pairs_view(input_ids@).take(i + 1));
        }
    }
    proof {
        assert(pairs_view(input_ids@).take(n as int) =~= pairs_view(input_ids@));
    }
    let sorted = sort_kv(&flat);
    let m = sorted.len();
    let mut out: Vec<u8> = Vec::new();
    encode_header(&mut out, MAJOR_MAP, m as u64);
    proof {
        assert(map_body(raw_view(sorted@).take(0)) =~= Seq::<u8>::empty());
        assert(out@ =~= cbor_header(MAJOR_MAP, m as u64) + map_body(raw_view(sorted@).take(0)));
    }
    for i in 0..m
        invariant
            m == sorted@.len(),
            out@ == cbor_header(MAJOR_MAP, m as u64) + map_body(raw_view(sorted@).take(i as int)),
    {
        encode_bytes(&mut out, &sorted[i].0);
        encode_bytes(&mut out, &sorted[i].1);
        proof {
            let part = raw_view(sorted@).take(i + 1);
            assert(part.drop_last() =~= raw_view(sorted@).take(i as int));
            assert(part.last() == (sorted@[i as int].0@, sorted@[i as int].1@));
            assert(out@ =~= cbor_header(MAJOR_MAP, m as u64) + map_body(part));
        }
    }
    proof {
        assert(raw_view(sorted@).take(m as int) =~= raw_view(sorted@));
        assert(map_enc(sort_pairs(pairs_view(input_ids@))) == out@);
    }
    blake2b256(&out)
}

/// Two participants that agree on the input-ID map derive the same
/// execution identifier, in whatever order they hold the map's entries.
pub proof fn lemma_exec_id_agreement(a: Seq<(Seq<u8>, Seq<u8>)>, b: Seq<(Seq<u8>, Seq<u8>)>)
    requires
        keys_distinct(a),
        keys_distinct(b),
        pairs_map(a) == pairs_map(b),
    ensures
        exec_id_of(a) == exec_id_of(b),
{
    lemma_sort_pairs(a);
    lemma_sort_pairs(b);
    lemma_sorted_unique(sort_pairs(a), sort_pairs(b));
}

} // verus!
