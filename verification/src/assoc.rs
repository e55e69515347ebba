//! Association lists: sequences of key–value pairs read by first match.

use vstd::prelude::*;

verus! {

/// The value of the first pair with key `k`.
pub open spec fn assoc_get<K, V>(s: Seq<(K, V)>, k: K) -> Option<V>
    decreases s.len(),
{
    if s.len() == 0 {
        None
    } else if s[0].0 == k {
        Some(s[0].1)
    } else {
        assoc_get(s.drop_first(), k)
    }
}

/// Whether some pair has key `k`.
pub open spec fn assoc_has<K, V>(s: Seq<(K, V)>, k: K) -> bool {
    exists|i: int| 0 <= i < s.len() && #[trigger] s[i].0 == k
}

/// Whether no two pairs have the same key.
pub open spec fn keys_distinct<K, V>(s: Seq<(K, V)>) -> bool {
    forall|i: int, j: int| 0 <= i < j < s.len() ==> s[i].0 != s[j].0
}

/// Removing every pair with a key keeps the keys distinct, and keeps only
/// keys that were there.
pub proof fn lemma_remove_all_distinct<K, V>(s: Seq<(K, V)>, k: K)
    requires
        keys_distinct(s),
    ensures
        keys_distinct(assoc_remove_all(s, k)),
        forall|i: int| 0 <= i < assoc_remove_all(s, k).len() ==>
            exists|j: int| 0 <= j < s.len() && s[j].0 == #[trigger] assoc_remove_all(s, k)[i].0,
    decreases s.len(),
{
    if s.len() > 0 {
        let d = s.drop_last();
        lemma_remove_all_distinct(d, k);
        let r = assoc_remove_all(s, k);
        let rd = assoc_remove_all(d, k);
        assert forall|i: int| 0 <= i < rd.len() implies exists|j: int| 0 <= j < s.len() && s[j].0 == #[trigger] rd[i].0 by {
            let j = choose|j: int| 0 <= j < d.len() && d[j].0 == rd[i].0;
            assert(s[j].0 == rd[i].0);
        }
        if s.last().0 != k {
            assert(r == rd.push(s.last()));
            assert forall|a: int, b: int| 0 <= a < b < r.len() implies r[a].0 != r[b].0 by {
                if b == r.len() - 1 {
                    let j = choose|j: int| 0 <= j < d.len() && d[j].0 == #[trigger] rd[a].0;
                    assert(s[j].0 != s[s.len() - 1].0);
                } else {
                    assert(r[a] == rd[a] && r[b] == rd[b]);
                }
            }
            assert forall|i: int| 0 <= i < r.len() implies exists|j: int| 0 <= j < s.len() && s[j].0 == #[trigger] r[i].0 by {
                if i == r.len() - 1 {
                    assert(s[s.len() - 1].0 == r[i].0);
                } else {
                    assert(r[i] == rd[i]);
                }
            }
        }
    }
}

/// The first pair with a key is the one read.
pub proof fn lemma_assoc_found<K, V>(s: Seq<(K, V)>, i: int, k: K)
    requires
        0 <= i < s.len(),
        s[i].0 == k,
        forall|j: int| 0 <= j < i ==> s[j].0 != k,
    ensures
        assoc_get(s, k) == Some(s[i].1),
    decreases i,
{
    if i > 0 {
        lemma_assoc_found(s.drop_first(), i - 1, k);
    }
}

/// With no pair of a key, nothing is read.
pub proof fn lemma_assoc_absent<K, V>(s: Seq<(K, V)>, k: K)
    requires
        forall|j: int| 0 <= j < s.len() ==> s[j].0 != k,
    ensures
        assoc_get(s, k) is None,
    decreases s.len(),
{
    if s.len() > 0 {
        lemma_assoc_absent(s.drop_first(), k);
    }
}

/// Something is read exactly when some pair has the key.
pub proof fn lemma_assoc_some<K, V>(s: Seq<(K, V)>, k: K)
    ensures
        assoc_get(s, k) is Some <==> assoc_has(s, k),
        assoc_get(s, k) matches Some(v) ==> exists|i: int| 0 <= i < s.len() && s[i].0 == k && #[trigger] s[i].1 == v,
    decreases s.len(),
{
    if s.len() > 0 {
        lemma_assoc_some(s.drop_first(), k);
        if s[0].0 != k {
            if assoc_has(s, k) {
                let i = choose|i: int| 0 <= i < s.len() && #[trigger] s[i].0 == k;
                assert(s.drop_first()[i - 1].0 == k);
            }
            if assoc_has(s.drop_first(), k) {
                let i = choose|i: int| 0 <= i < s.drop_first().len() && #[trigger] s.drop_first()[i].0 == k;
                assert(s[i + 1].0 == k);
            }
            if let Some(v) = assoc_get(s, k) {
                let i = choose|i: int| 0 <= i < s.drop_first().len() && s.drop_first()[i].0 == k && #[trigger] s.drop_first()[i].1 == v;
                assert(s[i + 1].1 == v);
            }
        } else {
            assert(s[0].1 == s[0].1);
        }
    }
}

/// Replacing the value of the first pair with a key.
pub proof fn lemma_assoc_update<K, V>(s: Seq<(K, V)>, i: int, v: V, n: K)
    requires
        0 <= i < s.len(),
        forall|j: int| 0 <= j < i ==> s[j].0 != s[i].0,
    ensures
        assoc_get(s.update(i, (s[i].0, v)), n) == (if n == s[i].0 { Some(v) } else { assoc_get(s, n) }),
    decreases i,
{
    let u = s.update(i, (s[i].0, v));
    if i == 0 {
        assert(u.drop_first() =~= s.drop_first());
    } else {
        assert(u.drop_first() =~= s.drop_first().update(i - 1, (s[i].0, v)));
        lemma_assoc_update(s.drop_first(), i - 1, v, n);
    }
}

/// Adding a pair with a new key at the end.
pub proof fn lemma_assoc_push<K, V>(s: Seq<(K, V)>, k: K, v: V, n: K)
    requires
        forall|j: int| 0 <= j < s.len() ==> s[j].0 != k,
    ensures
        assoc_get(s.push((k, v)), n) == (if n == k { Some(v) } else { assoc_get(s, n) }),
    decreases s.len(),
{
    if s.len() == 0 {
        assert(s.push((k, v)).drop_first() =~= s);
    } else {
        assert(s.push((k, v)).drop_first() =~= s.drop_first().push((k, v)));
        lemma_assoc_push(s.drop_first(), k, v, n);
    }
}


/// Appending a pair: its key reads it only when no earlier pair has it.
pub proof fn lemma_assoc_push_any<K, V>(s: Seq<(K, V)>, x: (K, V), n: K)
    ensures
        assoc_get(s.push(x), n) == (match assoc_get(s, n) {
            Some(v) => Some(v),
            None => if x.0 == n { Some(x.1) } else { None },
        }),
    decreases s.len(),
{
    if s.len() == 0 {
        assert(s.push(x).drop_first() =~= s);
    } else {
        assert(s.push(x).drop_first() =~= s.drop_first().push(x));
        lemma_assoc_push_any(s.drop_first(), x, n);
    }
}

/// The pairs whose key is not `k`, in order.
pub open spec fn assoc_remove_all<K, V>(s: Seq<(K, V)>, k: K) -> Seq<(K, V)>
    decreases s.len(),
{
    if s.len() == 0 {
        Seq::empty()
    } else if s.last().0 == k {
        assoc_remove_all(s.drop_last(), k)
    } else {
        assoc_remove_all(s.drop_last(), k).push(s.last())
    }
}

/// Removing every pair with a key.
pub proof fn lemma_assoc_remove_all<K, V>(s: Seq<(K, V)>, k: K, n: K)
    ensures
        assoc_get(assoc_remove_all(s, k), n) == (if n == k { None } else { assoc_get(s, n) }),
    decreases s.len(),
{
    if s.len() > 0 {
        lemma_assoc_remove_all(s.drop_last(), k, n);
        assert(s.drop_last().push(s.last()) =~= s);
        lemma_assoc_push_any(s.drop_last(), s.last(), n);
        if s.last().0 != k {
            lemma_assoc_push_any(assoc_remove_all(s.drop_last(), k), s.last(), n);
        }
    }
}

/// Lookups in a list whose values are changed, each by a function of its
/// key and value.
pub proof fn lemma_assoc_map<K, V>(s: Seq<(K, V)>, f: spec_fn(K, V) -> V, k: K)
    ensures
        assoc_get(Seq::new(s.len(), |i: int| (s[i].0, f(s[i].0, s[i].1))), k) == (match assoc_get(s, k) {
            Some(v) => Some(f(k, v)),
            None => None,
        }),
    decreases s.len(),
{
    let t = Seq::new(s.len(), |i: int| (s[i].0, f(s[i].0, s[i].1)));
    if s.len() > 0 {
        let d = s.drop_first();
        lemma_assoc_map(d, f, k);
        assert(t.drop_first() =~= Seq::new(d.len(), |i: int| (d[i].0, f(d[i].0, d[i].1))));
    }
}

} // verus!
