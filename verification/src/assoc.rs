//! Association lists: sequences of key/value pairs in which the first entry
//! with a key holds its value. Records of a `PACKAGES` file and the groups of
//! a package index are kept this way.

use vstd::prelude::*;

verus! {

/// The index of the first entry with key `k`, or `-1`.
pub open spec fn assoc_find<K, V>(s: Seq<(K, V)>, k: K) -> int
    decreases s.len(),
{
    if s.len() == 0 {
        -1
    } else {
        let r = assoc_find(s.drop_last(), k);
        if r >= 0 {
            r
        } else if s.last().0 == k {
            s.len() - 1
        } else {
            -1
        }
    }
}

/// The value stored under `k`.
pub open spec fn assoc_get<K, V>(s: Seq<(K, V)>, k: K) -> Option<V> {
    let i = assoc_find(s, k);
    if i >= 0 {
        Some(s[i].1)
    } else {
        None
    }
}

/// `s` with `k` mapped to `v`: the entry of `k` replaced in place, or a new
/// entry at the end.
pub open spec fn assoc_insert<K, V>(s: Seq<(K, V)>, k: K, v: V) -> Seq<(K, V)> {
    let i = assoc_find(s, k);
    if i >= 0 {
        s.update(i, (k, v))
    } else {
        s.push((k, v))
    }
}

/// The keys, in order.
pub open spec fn assoc_keys<K, V>(s: Seq<(K, V)>) -> Seq<K> {
    s.map_values(|p: (K, V)| p.0)
}

pub proof fn lemma_assoc_find_range<K, V>(s: Seq<(K, V)>, k: K)
    ensures
        -1 <= assoc_find(s, k) < s.len(),
        assoc_find(s, k) >= 0 ==> s[assoc_find(s, k)].0 == k,
        assoc_find(s, k) >= 0 ==> forall|j: int| 0 <= j < assoc_find(s, k) ==> s[j].0 != k,
        assoc_find(s, k) < 0 ==> forall|j: int| 0 <= j < s.len() ==> s[j].0 != k,
    decreases s.len(),
{
    if s.len() > 0 {
        let d = s.drop_last();
        lemma_assoc_find_range(d, k);
        assert forall|j: int| 0 <= j < d.len() implies d[j] == s[j] by {}
    }
}

pub proof fn lemma_assoc_find_prefix<K, V>(s: Seq<(K, V)>, k: K, j: int)
    requires
        0 <= j <= s.len(),
        assoc_find(s.take(j), k) >= 0,
    ensures
        assoc_find(s, k) == assoc_find(s.take(j), k),
    decreases s.len() - j,
{
    if j < s.len() {
        assert(s.take(j + 1).drop_last() =~= s.take(j));
        lemma_assoc_find_prefix(s, k, j + 1);
    } else {
        assert(s.take(j) =~= s);
    }
}

/// The first entry with key `k` is at `i` exactly when it holds `k` and no
/// earlier entry does.
pub proof fn lemma_assoc_find_char<K, V>(s: Seq<(K, V)>, k: K, i: int)
    requires
        0 <= i < s.len(),
        s[i].0 == k,
        forall|j: int| 0 <= j < i ==> s[j].0 != k,
    ensures
        assoc_find(s, k) == i,
{
    lemma_assoc_find_range(s, k);
    if assoc_find(s, k) != i {
        assert(s[assoc_find(s, k)].0 == k);
    }
}

/// With no entry for `k`, the search finds nothing.
pub proof fn lemma_assoc_find_none<K, V>(s: Seq<(K, V)>, k: K)
    requires
        forall|j: int| 0 <= j < s.len() ==> s[j].0 != k,
    ensures
        assoc_find(s, k) == -1,
{
    lemma_assoc_find_range(s, k);
    if assoc_find(s, k) >= 0 {
        assert(s[assoc_find(s, k)].0 == k);
    }
}

/// A read after a write: the key written gives the value written, every
/// other key what it gave before.
pub proof fn lemma_assoc_get_insert<K, V>(s: Seq<(K, V)>, k: K, v: V, k2: K)
    ensures
        assoc_get(assoc_insert(s, k, v), k2) == (if k2 == k {
            Some(v)
        } else {
            assoc_get(s, k2)
        }),
{
    let t = assoc_insert(s, k, v);
    lemma_assoc_find_range(s, k);
    lemma_assoc_find_range(s, k2);
    lemma_assoc_find_range(t, k2);
    let i = assoc_find(s, k);
    let i2 = assoc_find(s, k2);
    if k2 == k {
        if i >= 0 {
            lemma_assoc_find_char(t, k2, i);
        } else {
            lemma_assoc_find_char(t, k2, s.len() as int);
        }
    } else {
        if i2 >= 0 {
            lemma_assoc_find_char(t, k2, i2);
        } else {
            assert forall|j: int| 0 <= j < t.len() implies t[j].0 != k2 by {}
            lemma_assoc_find_none(t, k2);
        }
    }
}

/// Writing keeps keys distinct when they were distinct.
pub proof fn lemma_assoc_insert_keys<K, V>(s: Seq<(K, V)>, k: K, v: V)
    ensures
        assoc_keys(s).no_duplicates() ==> assoc_keys(assoc_insert(s, k, v)).no_duplicates(),
{
    lemma_assoc_find_range(s, k);
    let t = assoc_insert(s, k, v);
    if assoc_keys(s).no_duplicates() {
        let i = assoc_find(s, k);
        assert forall|a: int, b: int|
            0 <= a < assoc_keys(t).len() && 0 <= b < assoc_keys(t).len() && a != b implies
            assoc_keys(t)[a] != assoc_keys(t)[b] by {
            if a < s.len() && a != i {
                assert(assoc_keys(t)[a] == assoc_keys(s)[a]);
            }
            if b < s.len() && b != i {
                assert(assoc_keys(t)[b] == assoc_keys(s)[b]);
            }
            if i >= 0 {
                assert(assoc_keys(s)[i] == k);
            }
        }
    }
}

} // verus!
