//! Association lists keyed by byte strings, with a `Map` view.
//!
//! The registries of this crate hold their entries as vectors of
//! key-value pairs with pairwise distinct keys; contracts speak of the
//! corresponding finite map.

use vstd::prelude::*;

use crate::bytes::bytes_eq;

verus! {

/// The finite map described by a key-value list (later pairs win).
pub open spec fn kv_map<V: View>(s: Seq<(Vec<u8>, V)>) -> Map<Seq<u8>, V::V>
    decreases s.len(),
{
    if s.len() == 0 {
        Map::empty()
    } else {
        kv_map(s.drop_last()).insert(s.last().0@, s.last().1@)
    }
}

/// All keys of the list are pairwise distinct.
pub open spec fn kv_unique<V: View>(s: Seq<(Vec<u8>, V)>) -> bool {
    forall|i: int, j: int| 0 <= i < j < s.len() ==> s[i].0@ != s[j].0@
}

/// A key is in the map exactly when some pair of the list holds it, and
/// under distinct keys the map returns that pair's value.
pub proof fn lemma_kv_contains<V: View>(s: Seq<(Vec<u8>, V)>, k: Seq<u8>)
    ensures
        kv_map(s).contains_key(k) <==> exists|i: int| 0 <= i < s.len() && s[i].0@ == k,
        kv_unique(s) ==> forall|i: int|
            0 <= i < s.len() && s[i].0@ == k ==> kv_map(s)[k] == s[i].1@,
    decreases s.len(),
{
    if s.len() > 0 {
        lemma_kv_contains(s.drop_last(), k);
        assert forall|i: int| 0 <= i < s.len() - 1 && s[i].0@ == k implies
            exists|j: int| 0 <= j < s.drop_last().len() && s.drop_last()[j].0@ == k by {
            assert(s.drop_last()[i].0@ == k);
        }
        if kv_unique(s) {
            assert(kv_unique(s.drop_last()));
        }
    }
}

/// Removing the pair at index `i` removes exactly its key from the map.
pub proof fn lemma_kv_remove_at<V: View>(s: Seq<(Vec<u8>, V)>, i: int)
    requires
        kv_unique(s),
        0 <= i < s.len(),
    ensures
        kv_unique(s.remove(i)),
        kv_map(s.remove(i)) == kv_map(s).remove(s[i].0@),
    decreases s.len(),
{
    let k = s[i].0@;
    if i == s.len() - 1 {
        assert(s.remove(i) =~= s.drop_last());
        lemma_kv_contains(s.drop_last(), k);
        assert(!kv_map(s.drop_last()).contains_key(k));
        assert(kv_map(s.drop_last()).remove(k) =~= kv_map(s.drop_last()));
        assert(kv_map(s).remove(k) =~= kv_map(s.drop_last()).insert(k, s.last().1@).remove(k));
        assert(kv_map(s.drop_last()).insert(k, s.last().1@).remove(k) =~= kv_map(
            s.drop_last(),
        ).remove(k));
    } else {
        lemma_kv_remove_at(s.drop_last(), i);
        assert(s.remove(i).drop_last() =~= s.drop_last().remove(i));
        assert(s.remove(i).last() == s.last());
        assert(kv_map(s.remove(i)) == kv_map(s.drop_last().remove(i)).insert(
            s.last().0@,
            s.last().1@,
        ));
        assert(s.last().0@ != k);
        assert(kv_map(s.drop_last()).remove(k).insert(s.last().0@, s.last().1@) =~= kv_map(
            s.drop_last(),
        ).insert(s.last().0@, s.last().1@).remove(k));
    }
}

/// Two lists equal pair-wise up to views describe the same map.
pub proof fn lemma_kv_view_equiv<V: View>(a: Seq<(Vec<u8>, V)>, b: Seq<(Vec<u8>, V)>)
    requires
        a.len() == b.len(),
        forall|i: int| 0 <= i < a.len() ==> a[i].0@ == b[i].0@ && a[i].1@ == b[i].1@,
    ensures
        kv_map(a) == kv_map(b),
        kv_unique(a) == kv_unique(b),
    decreases a.len(),
{
    if a.len() > 0 {
        assert forall|i: int|
            0 <= i < a.drop_last().len() implies a.drop_last()[i].0@ == b.drop_last()[i].0@
            && a.drop_last()[i].1@ == b.drop_last()[i].1@ by {
            assert(a.drop_last()[i] == a[i] && b.drop_last()[i] == b[i]);
        }
        lemma_kv_view_equiv(a.drop_last(), b.drop_last());
        assert(a.last() == a[a.len() - 1] && b.last() == b[b.len() - 1]);
        assert(kv_map(a) =~= kv_map(b));
    } else {
        assert(kv_map(a) =~= kv_map(b));
    }
}

/// Finds the index of the pair holding the given key, if any.
pub fn kv_find<V: View>(v: &Vec<(Vec<u8>, V)>, key: &Vec<u8>) -> (r: Option<usize>)
    ensures
        match r {
            Some(i) => i < v@.len() && v@[i as int].0@ == key@,
            None => forall|i: int| 0 <= i < v@.len() ==> v@[i].0@ != key@,
        },
{
    let n = v.len();
    for i in 0..n
        invariant
            n == v@.len(),
            forall|j: int| 0 <= j < i ==> v@[j].0@ != key@,
    {
        if bytes_eq(&v[i].0, key) {
            return Some(i);
        }
    }
    None
}

/// Checks that the keys of a key-value list are pairwise distinct.
pub fn kv_unique_check<V: View>(v: &Vec<(Vec<u8>, V)>) -> (r: bool)
    ensures
        r == kv_unique(v@),
{
    let n = v.len();
    for i in 0..n
        invariant
            n == v@.len(),
            forall|p: int, q: int| 0 <= p < q < v@.len() && q < i ==> v@[p].0@ != v@[q].0@,
    {
        let mut j: usize = 0;
        while j < i
            invariant
                0 <= j <= i < n,
                n == v@.len(),
                forall|p: int| 0 <= p < j ==> v@[p].0@ != v@[i as int].0@,
            decreases i - j,
        {
            if bytes_eq(&v[j].0, &v[i].0) {
                return false;
            }
            j = j + 1;
        }
    }
    true
}

/// Looks a key up in the list, returning a reference to its value.
pub fn kv_get<'a, V: View>(v: &'a Vec<(Vec<u8>, V)>, key: &Vec<u8>) -> (r: Option<&'a V>)
    requires
        kv_unique(v@),
    ensures
        match r {
            Some(val) => kv_map(v@).contains_key(key@) && val@ == kv_map(v@)[key@],
            None => !kv_map(v@).contains_key(key@),
        },
{
    proof {
        lemma_kv_contains(v@, key@);
    }
    match kv_find(v, key) {
        Some(i) => Some(&v[i].1),
        None => None,
    }
}

/// Binds a key to a value, replacing any earlier binding.
pub fn kv_set<V: View>(v: &mut Vec<(Vec<u8>, V)>, key: Vec<u8>, val: V)
    requires
        kv_unique(old(v)@),
    ensures
        kv_unique(final(v)@),
        kv_map(final(v)@) == kv_map(old(v)@).insert(key@, val@),
        forall|j: int|
            0 <= j < final(v)@.len() ==> final(v)@[j] == (key, val) || old(v)@.contains(
                final(v)@[j],
            ),
{
    proof {
        lemma_kv_contains(v@, key@);
    }
    match kv_find(v, &key) {
        Some(i) => {
            let _ = v.remove(i);
            proof {
                lemma_kv_remove_at(old(v)@, i as int);
                assert forall|j: int| 0 <= j < v@.len() implies old(v)@.contains(#[trigger] v@[j]) by {
                    if j < i {
                        assert(v@[j] == old(v)@[j]);
                    } else {
                        assert(v@[j] == old(v)@[j + 1]);
                    }
                }
            }
        },
        None => {
            proof {
                assert(kv_map(v@).remove(key@) =~= kv_map(v@));
                assert forall|j: int| 0 <= j < v@.len() implies old(v)@.contains(#[trigger] v@[j]) by {
                    assert(v@[j] == old(v)@[j]);
                }
            }
        },
    }
    proof {
        lemma_kv_contains(v@, key@);
        assert(!kv_map(v@).contains_key(key@));
        assert(forall|i: int| 0 <= i < v@.len() ==> v@[i].0@ != key@) by {
            lemma_kv_contains(v@, key@);
        }
        assert(kv_map(old(v)@).remove(key@).insert(key@, val@) =~= kv_map(old(v)@).insert(
            key@,
            val@,
        ));
    }
    let ghost pre = v@;
    v.push((key, val));
    proof {
        assert(v@.drop_last() =~= pre);
        assert forall|j: int|
            0 <= j < v@.len() implies v@[j] == (key, val) || old(v)@.contains(#[trigger] v@[j]) by {
            if j < pre.len() {
                assert(v@[j] == pre[j]);
                assert(old(v)@.contains(pre[j]));
            }
        }
    }
}

/// Unbinds a key, returning the value it was bound to.
pub fn kv_remove<V: View>(v: &mut Vec<(Vec<u8>, V)>, key: &Vec<u8>) -> (r: Option<V>)
    requires
        kv_unique(old(v)@),
    ensures
        kv_unique(final(v)@),
        kv_map(final(v)@) == kv_map(old(v)@).remove(key@),
        forall|j: int| 0 <= j < final(v)@.len() ==> old(v)@.contains(final(v)@[j]),
        match r {
            Some(val) => kv_map(old(v)@).contains_key(key@) && val@ == kv_map(old(v)@)[key@],
            None => !kv_map(old(v)@).contains_key(key@) && final(v)@ == old(v)@,
        },
{
    proof {
        lemma_kv_contains(v@, key@);
    }
    match kv_find(v, key) {
        Some(i) => {
            let (_, val) = v.remove(i);
            proof {
                lemma_kv_remove_at(old(v)@, i as int);
                assert forall|j: int| 0 <= j < v@.len() implies old(v)@.contains(v@[j]) by {
                    if j < i {
                        assert(old(v)@[j] == v@[j]);
                    } else {
                        assert(old(v)@[j + 1] == v@[j]);
                    }
                }
            }
            Some(val)
        },
        None => {
            proof {
                assert(kv_map(v@).remove(key@) =~= kv_map(v@));
            }
            None
        },
    }
}

} // verus!
