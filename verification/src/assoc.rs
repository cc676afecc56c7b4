//! Association sequences: the mathematical model behind both stores.
//!
//! A store is modelled as a sequence of key/value pairs whose keys are
//! pairwise distinct; the sequence order is the store's iteration order.

use vstd::prelude::*;

verus! {

/// The pair sequence holds an entry whose key is `k`.
pub open spec fn assoc_has<K, V>(s: Seq<(K, V)>, k: K) -> bool {
    exists|i: int| 0 <= i < s.len() && (#[trigger] s[i]).0 == k
}

/// The index of the entry whose key is `k` (meaningful under
/// [`assoc_has`] and [`keys_distinct`]).
pub open spec fn assoc_at<K, V>(s: Seq<(K, V)>, k: K) -> int {
    choose|i: int| 0 <= i < s.len() && (#[trigger] s[i]).0 == k
}

/// The value stored under `k` (meaningful under [`assoc_has`]).
pub open spec fn assoc_get<K, V>(s: Seq<(K, V)>, k: K) -> V {
    s[assoc_at(s, k)].1
}

/// The value stored under `k`, or `dflt` when `k` is absent.
pub open spec fn assoc_get_or<K, V>(s: Seq<(K, V)>, k: K, dflt: V) -> V {
    if assoc_has(s, k) {
        assoc_get(s, k)
    } else {
        dflt
    }
}

/// No two entries share a key.
pub open spec fn keys_distinct<K, V>(s: Seq<(K, V)>) -> bool {
    forall|i: int, j: int|
        0 <= i < j < s.len() ==> (#[trigger] s[i]).0 != (#[trigger] s[j]).0
}

/// Overwrite the value under `k` when present, append the pair when not:
/// last-writer-wins registration.
pub open spec fn assoc_put<K, V>(s: Seq<(K, V)>, k: K, v: V) -> Seq<(K, V)> {
    if assoc_has(s, k) {
        s.update(assoc_at(s, k), (k, v))
    } else {
        s.push((k, v))
    }
}

/// Drop the entry under `k` when present; leave the sequence unchanged
/// when not.
pub open spec fn assoc_del<K, V>(s: Seq<(K, V)>, k: K) -> Seq<(K, V)> {
    if assoc_has(s, k) {
        s.remove(assoc_at(s, k))
    } else {
        s
    }
}

/// Under distinct keys, the index an entry stands at is the index
/// [`assoc_at`] picks for its key.
pub proof fn lemma_assoc_at_unique<K, V>(s: Seq<(K, V)>, i: int)
    requires
        keys_distinct(s),
        0 <= i < s.len(),
    ensures
        assoc_has(s, s[i].0),
        assoc_at(s, s[i].0) == i,
{
    let k = s[i].0;
    assert(assoc_has(s, k));
    let j = assoc_at(s, k);
    if j < i {
        assert(s[j].0 != s[i].0);
    } else if i < j {
        assert(s[i].0 != s[j].0);
    }
}

/// [`assoc_put`] keeps keys distinct, stores `v` under `k`, and touches
/// no other key.
pub proof fn lemma_assoc_put<K, V>(s: Seq<(K, V)>, k: K, v: V)
    requires
        keys_distinct(s),
    ensures
        keys_distinct(assoc_put(s, k, v)),
        assoc_has(assoc_put(s, k, v), k),
        assoc_get(assoc_put(s, k, v), k) == v,
        forall|k2: K| k2 != k ==> #[trigger] assoc_has(assoc_put(s, k, v), k2) == assoc_has(s, k2),
        forall|k2: K|
            k2 != k && assoc_has(s, k2) ==> #[trigger] assoc_get(assoc_put(s, k, v), k2)
                == assoc_get(s, k2),
{
    let t = assoc_put(s, k, v);
    if assoc_has(s, k) {
        let i = assoc_at(s, k);
        lemma_assoc_at_unique(s, i);
        assert(t[i].0 == k);
        lemma_assoc_at_unique(t, i);
        assert forall|k2: K| k2 != k implies #[trigger] assoc_has(t, k2) == assoc_has(s, k2) by {
            if assoc_has(s, k2) {
                let j = assoc_at(s, k2);
                assert(t[j] == s[j]);
                assert(assoc_has(t, k2));
            }
            if assoc_has(t, k2) {
                let j = assoc_at(t, k2);
                assert(s[j] == t[j]);
                assert(assoc_has(s, k2));
            }
        }
        assert forall|k2: K| k2 != k && assoc_has(s, k2) implies #[trigger] assoc_get(t, k2)
            == assoc_get(s, k2) by {
            let j = assoc_at(s, k2);
            lemma_assoc_at_unique(s, j);
            assert(t[j] == s[j]);
            lemma_assoc_at_unique(t, j);
        }
    } else {
        let i = s.len() as int;
        assert(t[i].0 == k);
        assert forall|a: int, b: int| 0 <= a < b < t.len() implies (#[trigger] t[a]).0
            != (#[trigger] t[b]).0 by {
            if b < i {
                assert(t[a] == s[a] && t[b] == s[b]);
            } else {
                assert(t[a] == s[a]);
                assert(!assoc_has(s, k) ==> s[a].0 != k) by {
                    if s[a].0 == k {
                        assert(assoc_has(s, k));
                    }
                }
            }
        }
        lemma_assoc_at_unique(t, i);
        assert forall|k2: K| k2 != k implies #[trigger] assoc_has(t, k2) == assoc_has(s, k2) by {
            if assoc_has(s, k2) {
                let j = assoc_at(s, k2);
                assert(t[j] == s[j]);
                assert(assoc_has(t, k2));
            }
            if assoc_has(t, k2) {
                let j = assoc_at(t, k2);
                assert(t[j].0 == k2 && k2 != k);
                assert(j < i);
                assert(s[j] == t[j]);
                assert(assoc_has(s, k2));
            }
        }
        assert forall|k2: K| k2 != k && assoc_has(s, k2) implies #[trigger] assoc_get(t, k2)
            == assoc_get(s, k2) by {
            let j = assoc_at(s, k2);
            lemma_assoc_at_unique(s, j);
            assert(t[j] == s[j]);
            lemma_assoc_at_unique(t, j);
        }
    }
}

/// [`assoc_del`] keeps keys distinct, leaves `k` absent, and keeps every
/// other key with its value.
pub proof fn lemma_assoc_del<K, V>(s: Seq<(K, V)>, k: K)
    requires
        keys_distinct(s),
    ensures
        keys_distinct(assoc_del(s, k)),
        !assoc_has(assoc_del(s, k), k),
        forall|k2: K| k2 != k ==> #[trigger] assoc_has(assoc_del(s, k), k2) == assoc_has(s, k2),
        forall|k2: K|
            k2 != k && assoc_has(s, k2) ==> #[trigger] assoc_get(assoc_del(s, k), k2)
                == assoc_get(s, k2),
{
    let t = assoc_del(s, k);
    if assoc_has(s, k) {
        let i = assoc_at(s, k);
        lemma_assoc_at_unique(s, i);
        assert(forall|j: int|
            0 <= j < t.len() ==> #[trigger] t[j] == (if j < i {
                s[j]
            } else {
                s[j + 1]
            }));
        assert forall|a: int, b: int| 0 <= a < b < t.len() implies (#[trigger] t[a]).0
            != (#[trigger] t[b]).0 by {}
        if assoc_has(t, k) {
            let j = assoc_at(t, k);
            if j < i {
                assert(s[j].0 == k);
                lemma_assoc_at_unique(s, j);
            } else {
                assert(s[j + 1].0 == k);
                lemma_assoc_at_unique(s, j + 1);
            }
        }
        assert forall|k2: K| k2 != k implies #[trigger] assoc_has(t, k2) == assoc_has(s, k2) by {
            if assoc_has(s, k2) {
                let j = assoc_at(s, k2);
                if j < i {
                    assert(t[j].0 == k2);
                } else {
                    assert(j > i);
                    assert(t[j - 1].0 == k2);
                }
                assert(assoc_has(t, k2));
            }
            if assoc_has(t, k2) {
                let j = assoc_at(t, k2);
                if j < i {
                    assert(s[j].0 == k2);
                } else {
                    assert(s[j + 1].0 == k2);
                }
                assert(assoc_has(s, k2));
            }
        }
        assert forall|k2: K| k2 != k && assoc_has(s, k2) implies #[trigger] assoc_get(t, k2)
            == assoc_get(s, k2) by {
            let j = assoc_at(s, k2);
            lemma_assoc_at_unique(s, j);
            if j < i {
                assert(t[j].0 == k2);
                lemma_assoc_at_unique(t, j);
            } else {
                assert(j > i);
                assert(t[j - 1].0 == k2);
                lemma_assoc_at_unique(t, j - 1);
            }
        }
    }
}

} // verus!
