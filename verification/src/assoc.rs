//! Finite maps kept as lists of pairs in which no key occurs twice.

use vstd::prelude::*;

verus! {

/// Whether some pair of `s` has the key `k`.
pub open spec fn has_key<K, V>(s: Seq<(K, V)>, k: K) -> bool {
    exists|i: int| 0 <= i < s.len() && (#[trigger] s[i]).0 == k
}

/// A position of `s` whose pair has the key `k`, where there is one.
pub open spec fn index_of_key<K, V>(s: Seq<(K, V)>, k: K) -> int {
    choose|i: int| 0 <= i < s.len() && (#[trigger] s[i]).0 == k
}

/// No key occurs in two pairs of `s`.
pub open spec fn distinct_keys<K, V>(s: Seq<(K, V)>) -> bool {
    forall|i: int, j: int| 0 <= i < j < s.len() ==> (#[trigger] s[i]).0 != (#[trigger] s[j]).0
}

/// The map that the list of pairs `s` stands for.
pub open spec fn assoc_map<K, V>(s: Seq<(K, V)>) -> Map<K, V> {
    Map::new(|k: K| has_key(s, k), |k: K| s[index_of_key(s, k)].1)
}

/// The pair at position `i` is what the map holds for its key.
pub proof fn lemma_assoc_at<K, V>(s: Seq<(K, V)>, i: int)
    requires
        distinct_keys(s),
        0 <= i < s.len(),
    ensures
        has_key(s, s[i].0),
        index_of_key(s, s[i].0) == i,
        assoc_map(s).dom().contains(s[i].0),
        assoc_map(s)[s[i].0] == s[i].1,
{
    let k = s[i].0;
    assert(has_key(s, k));
    let w = index_of_key(s, k);
    assert(0 <= w < s.len() && s[w].0 == k);
    if w < i {
        assert(s[w].0 != s[i].0);
    } else if i < w {
        assert(s[i].0 != s[w].0);
    }
}

/// A key that no pair has is not in the map.
pub proof fn lemma_assoc_absent<K, V>(s: Seq<(K, V)>, k: K)
    requires
        forall|i: int| 0 <= i < s.len() ==> (#[trigger] s[i]).0 != k,
    ensures
        !has_key(s, k),
        !assoc_map(s).dom().contains(k),
{
}

/// The empty list stands for the empty map.
pub proof fn lemma_assoc_empty<K, V>()
    ensures
        distinct_keys(Seq::<(K, V)>::empty()),
        assoc_map(Seq::<(K, V)>::empty()) == Map::<K, V>::empty(),
{
    assert(assoc_map(Seq::<(K, V)>::empty()) =~= Map::<K, V>::empty());
}

/// Appending a pair with a new key inserts it into the map.
pub proof fn lemma_assoc_push<K, V>(s: Seq<(K, V)>, k: K, v: V)
    requires
        distinct_keys(s),
        !has_key(s, k),
    ensures
        distinct_keys(s.push((k, v))),
        assoc_map(s.push((k, v))) == assoc_map(s).insert(k, v),
{
    let t = s.push((k, v));
    assert forall|i: int, j: int| 0 <= i < j < t.len() implies (#[trigger] t[i]).0 != (
    #[trigger] t[j]).0 by {
        if j < s.len() {
            assert(s[i].0 != s[j].0);
        } else {
            assert(s[i].0 != k);
        }
    }
    assert forall|h: K| has_key(t, h) == (h == k || has_key(s, h)) by {
        if has_key(s, h) {
            let w = index_of_key(s, h);
            assert(t[w].0 == h);
        }
        if has_key(t, h) {
            let w = index_of_key(t, h);
            if w < s.len() {
                assert(s[w].0 == h);
            }
        }
        if h == k {
            assert(t[s.len() as int].0 == k);
        }
    }
    assert forall|h: K| has_key(t, h) implies #[trigger] assoc_map(t)[h] == assoc_map(s).insert(
        k,
        v,
    )[h] by {
        let w = index_of_key(t, h);
        lemma_assoc_at(t, w);
        if h != k {
            assert(s[w].0 == h);
            lemma_assoc_at(s, w);
        }
    }
    assert(assoc_map(t) =~= assoc_map(s).insert(k, v));
}

/// Replacing what a pair holds updates the map at its key.
pub proof fn lemma_assoc_update<K, V>(s: Seq<(K, V)>, i: int, v: V)
    requires
        distinct_keys(s),
        0 <= i < s.len(),
    ensures
        distinct_keys(s.update(i, (s[i].0, v))),
        assoc_map(s.update(i, (s[i].0, v))) == assoc_map(s).insert(s[i].0, v),
{
    let k = s[i].0;
    let t = s.update(i, (k, v));
    assert forall|a: int, b: int| 0 <= a < b < t.len() implies (#[trigger] t[a]).0 != (
    #[trigger] t[b]).0 by {
        assert(s[a].0 != s[b].0);
    }
    assert forall|h: K| has_key(t, h) == has_key(s, h) by {
        if has_key(s, h) {
            let w = index_of_key(s, h);
            assert(t[w].0 == h);
        }
        if has_key(t, h) {
            let w = index_of_key(t, h);
            assert(s[w].0 == h);
        }
    }
    lemma_assoc_at(s, i);
    assert forall|h: K| has_key(t, h) implies #[trigger] assoc_map(t)[h] == assoc_map(s).insert(
        k,
        v,
    )[h] by {
        let w = index_of_key(t, h);
        lemma_assoc_at(t, w);
        assert(s[w].0 == h);
        lemma_assoc_at(s, w);
    }
    assert(assoc_map(t) =~= assoc_map(s).insert(k, v));
}

/// Taking a pair out removes its key from the map.
pub proof fn lemma_assoc_remove<K, V>(s: Seq<(K, V)>, i: int)
    requires
        distinct_keys(s),
        0 <= i < s.len(),
    ensures
        distinct_keys(s.remove(i)),
        assoc_map(s.remove(i)) == assoc_map(s).remove(s[i].0),
{
    let k = s[i].0;
    let t = s.remove(i);
    assert forall|a: int, b: int| 0 <= a < b < t.len() implies (#[trigger] t[a]).0 != (
    #[trigger] t[b]).0 by {
        let a0 = if a < i {
            a
        } else {
            a + 1
        };
        let b0 = if b < i {
            b
        } else {
            b + 1
        };
        assert(s[a0].0 != s[b0].0);
    }
    assert forall|h: K| has_key(t, h) == (h != k && has_key(s, h)) by {
        if has_key(s, h) && h != k {
            let w = index_of_key(s, h);
            let w1 = if w < i {
                w
            } else {
                w - 1
            };
            assert(t[w1].0 == h);
        }
        if has_key(t, h) {
            let w = index_of_key(t, h);
            let w0 = if w < i {
                w
            } else {
                w + 1
            };
            assert(s[w0].0 == h);
            if h == k {
                if w0 < i {
                    assert(s[w0].0 != s[i].0);
                } else {
                    assert(s[i].0 != s[w0].0);
                }
            }
        }
    }
    assert forall|h: K| has_key(t, h) implies #[trigger] assoc_map(t)[h] == assoc_map(s).remove(
        k,
    )[h] by {
        let w = index_of_key(t, h);
        lemma_assoc_at(t, w);
        let w0 = if w < i {
            w
        } else {
            w + 1
        };
        assert(s[w0].0 == h);
        lemma_assoc_at(s, w0);
    }
    assert(assoc_map(t) =~= assoc_map(s).remove(k));
}

/// A map of finitely many pairs is finite, and has as many keys as the list has pairs.
pub proof fn lemma_assoc_len<K, V>(s: Seq<(K, V)>)
    requires
        distinct_keys(s),
    ensures
        assoc_map(s).dom().finite(),
        assoc_map(s).dom().len() == s.len(),
    decreases s.len(),
{
    if s.len() == 0 {
        assert(assoc_map(s).dom() =~= Set::<K>::empty());
    } else {
        let t = s.drop_last();
        let (k, v) = s.last();
        assert(distinct_keys(t)) by {
            assert forall|i: int, j: int| 0 <= i < j < t.len() implies (#[trigger] t[i]).0 != (
            #[trigger] t[j]).0 by {
                assert(s[i].0 != s[j].0);
            }
        }
        lemma_assoc_len(t);
        assert(!has_key(t, k)) by {
            if has_key(t, k) {
                let w = index_of_key(t, k);
                assert(s[w].0 != s[s.len() - 1].0);
            }
        }
        lemma_assoc_push(t, k, v);
        assert(t.push((k, v)) =~= s);
        assert(assoc_map(s).dom() =~= assoc_map(t).dom().insert(k));
    }
}

} // verus!
