//! Association lists keyed by 16-bit identifiers: the lookup function the
//! router's tables are specified with, and the lemmas that track a lookup
//! across updates.

use vstd::prelude::*;

verus! {

/// First position whose key is `k`, or the length if there is none.
pub open spec fn key_idx<T>(s: Seq<(u16, T)>, k: u16) -> int
    decreases s.len(),
{
    if s.len() == 0 {
        0
    } else if s[0].0 == k {
        0
    } else {
        1 + key_idx(s.drop_first(), k)
    }
}

/// The value stored under `k`, if any.
pub open spec fn assoc_get<T>(s: Seq<(u16, T)>, k: u16) -> Option<T> {
    if key_idx(s, k) < s.len() {
        Some(s[key_idx(s, k)].1)
    } else {
        None
    }
}

pub open spec fn distinct_keys<T>(s: Seq<(u16, T)>) -> bool {
    forall|i: int, j: int| 0 <= i < j < s.len() ==> s[i].0 != s[j].0
}

/// The first position with key `k` is exactly that: nothing before it has
/// the key, and it has the key if it is in range.
pub proof fn lemma_key_idx<T>(s: Seq<(u16, T)>, k: u16)
    ensures
        0 <= key_idx(s, k) <= s.len(),
        forall|j: int| 0 <= j < key_idx(s, k) ==> s[j].0 != k,
        key_idx(s, k) < s.len() ==> s[key_idx(s, k)].0 == k,
    decreases s.len(),
{
    if s.len() > 0 && s[0].0 != k {
        lemma_key_idx(s.drop_first(), k);
        assert forall|j: int| 0 <= j < key_idx(s, k) implies s[j].0 != k by {
            if j > 0 {
                assert(s.drop_first()[j - 1] == s[j]);
            }
        }
        if key_idx(s, k) < s.len() {
            assert(s.drop_first()[key_idx(s.drop_first(), k)] == s[key_idx(s, k)]);
        }
    }
}

/// Replacing an entry without changing its key moves no lookup.
pub proof fn lemma_key_idx_update<T>(s: Seq<(u16, T)>, i: int, v: (u16, T), k: u16)
    requires
        0 <= i < s.len(),
        v.0 == s[i].0,
    ensures
        key_idx(s.update(i, v), k) == key_idx(s, k),
    decreases s.len(),
{
    let t = s.update(i, v);
    if i == 0 {
        if s[0].0 != k {
            assert(t.drop_first() =~= s.drop_first());
        }
    } else {
        assert(t[0] == s[0]);
        if s[0].0 != k {
            assert(t.drop_first() =~= s.drop_first().update(i - 1, v));
            lemma_key_idx_update(s.drop_first(), i - 1, v, k);
        }
    }
}

/// Appending an entry leaves every present key where it was; the appended
/// key is found at the end if it was absent; other absent keys stay absent.
pub proof fn lemma_key_idx_push<T>(s: Seq<(u16, T)>, v: (u16, T), k: u16)
    ensures
        key_idx(s, k) < s.len() ==> key_idx(s.push(v), k) == key_idx(s, k),
        key_idx(s, k) == s.len() && v.0 == k ==> key_idx(s.push(v), k) == s.len(),
        key_idx(s, k) == s.len() && v.0 != k ==> key_idx(s.push(v), k) == s.len() + 1,
    decreases s.len(),
{
    lemma_key_idx(s, k);
    if s.len() == 0 {
        assert(s.push(v).len() == 1);
        if v.0 != k {
            assert(s.push(v).drop_first() =~= s);
        }
    } else {
        assert(s.push(v)[0] == s[0]);
        if s[0].0 != k {
            assert(s.push(v).drop_first() =~= s.drop_first().push(v));
            lemma_key_idx_push(s.drop_first(), v, k);
        }
    }
}

/// Membership in a sequence extended by one element.
pub proof fn lemma_push_contains<T>(s: Seq<T>, v: T, x: T)
    ensures
        s.push(v).contains(x) <==> s.contains(x) || x == v,
{
    if s.contains(x) {
        let k = choose|k: int| 0 <= k < s.len() && s[k] == x;
        assert(s.push(v)[k] == x);
    }
    if x == v {
        assert(s.push(v)[s.len() as int] == x);
    }
    if s.push(v).contains(x) && x != v {
        let k = choose|k: int| 0 <= k < s.push(v).len() && s.push(v)[k] == x;
        assert(s[k] == x);
    }
}

/// Taking one entry out of a duplicate-free list removes exactly its key
/// from the lookup.
pub proof fn lemma_assoc_remove<T>(s: Seq<(u16, T)>, i: int, k: u16)
    requires
        distinct_keys(s),
        0 <= i < s.len(),
        s[i].0 == k,
    ensures
        assoc_get(s.remove(i), k) is None,
        forall|x: u16| x != k ==> assoc_get(s.remove(i), x) == assoc_get(s, x),
        distinct_keys(s.remove(i)),
    decreases s.len(),
{
    let t = s.remove(i);
    assert forall|a: int, b: int| 0 <= a < b < t.len() implies t[a].0 != t[b].0 by {
        let a0: int = if a < i {
            a
        } else {
            a + 1
        };
        let b0: int = if b < i {
            b
        } else {
            b + 1
        };
        assert(t[a] == s[a0]);
        assert(t[b] == s[b0]);
    }
    lemma_key_idx(s, k);
    assert(key_idx(s, k) == i);
    if assoc_get(t, k) is Some {
        lemma_key_idx(t, k);
        let j = key_idx(t, k);
        let j0: int = if j < i {
            j
        } else {
            j + 1
        };
        assert(t[j] == s[j0]);
        assert(s[j0].0 == k);
        assert(false);
    }
    assert forall|x: u16| x != k implies assoc_get(t, x) == assoc_get(s, x) by {
        lemma_key_idx(s, x);
        lemma_key_idx(t, x);
        if key_idx(s, x) < s.len() {
            let j = key_idx(s, x);
            let jt: int = if j < i {
                j
            } else {
                j - 1
            };
            assert(t[jt] == s[j]);
            assert(t[jt].0 == x);
            if key_idx(t, x) < jt {
                let p = key_idx(t, x);
                let p0: int = if p < i {
                    p
                } else {
                    p + 1
                };
                assert(t[p] == s[p0]);
                assert(s[p0].0 == x);
                assert(p0 != j);
                assert(false);
            }
            assert(key_idx(t, x) == jt);
            assert(assoc_get(t, x) == Some(s[j].1));
        } else {
            if key_idx(t, x) < t.len() {
                let p = key_idx(t, x);
                let p0: int = if p < i {
                    p
                } else {
                    p + 1
                };
                assert(t[p] == s[p0]);
                assert(s[p0].0 == x);
                assert(false);
            }
        }
    }
}

} // verus!
