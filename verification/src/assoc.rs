//! Association lists as maps.

use vstd::prelude::*;

verus! {

/// The map that a list of pairs stands for; a later pair overrides an earlier
/// one.
pub open spec fn assoc<K, V>(s: Seq<(K, V)>) -> Map<K, V>
    decreases s.len(),
{
    if s.len() == 0 {
        Map::empty()
    } else {
        assoc(s.drop_last()).insert(s.last().0, s.last().1)
    }
}

/// Whether some pair has the key `k`.
pub open spec fn has_key<K, V>(s: Seq<(K, V)>, k: K) -> bool {
    exists|i: int| 0 <= i < s.len() && (#[trigger] s[i]).0 == k
}

/// Whether no key occurs twice.
pub open spec fn distinct<K, V>(s: Seq<(K, V)>) -> bool {
    forall|i: int, j: int|
        0 <= i < j < s.len() ==> (#[trigger] s[i]).0 != (#[trigger] s[j]).0
}

pub proof fn lemma_assoc_has<K, V>(s: Seq<(K, V)>, k: K)
    ensures
        assoc(s).contains_key(k) <==> has_key(s, k),
    decreases s.len(),
{
    if s.len() > 0 {
        let front = s.drop_last();
        lemma_assoc_has(front, k);
        if has_key(front, k) {
            let i = choose|i: int| 0 <= i < front.len() && (#[trigger] front[i]).0 == k;
            assert(s[i].0 == k);
        }
        if has_key(s, k) && s.last().0 != k {
            let i = choose|i: int| 0 <= i < s.len() && (#[trigger] s[i]).0 == k;
            assert(front[i].0 == k);
        }
        if s.last().0 == k {
            assert(s[s.len() - 1].0 == k);
        }
    }
}

pub proof fn lemma_assoc_at<K, V>(s: Seq<(K, V)>, i: int)
    requires
        distinct(s),
        0 <= i < s.len(),
    ensures
        assoc(s).contains_key(s[i].0),
        assoc(s)[s[i].0] == s[i].1,
    decreases s.len(),
{
    if i < s.len() - 1 {
        let front = s.drop_last();
        assert(distinct(front)) by {
            assert forall|a: int, b: int| 0 <= a < b < front.len() implies (
            #[trigger] front[a]).0 != (#[trigger] front[b]).0 by {
                assert(s[a].0 != s[b].0);
            }
        }
        lemma_assoc_at(front, i);
        assert(s[i].0 != s[s.len() - 1].0);
        assert(front[i] == s[i]);
    }
}

/// Two lists with the same pairs stand for the same map.
pub proof fn lemma_assoc_same<K, V>(s: Seq<(K, V)>, m: Map<K, V>)
    requires
        distinct(s),
        forall|k: K| m.contains_key(k) ==> #[trigger] has_key(s, k),
        forall|i: int|
            0 <= i < s.len() ==> m.contains_key((#[trigger] s[i]).0) && m[s[i].0] == s[i].1,
    ensures
        assoc(s) == m,
{
    assert forall|k: K| assoc(s).contains_key(k) == m.contains_key(k) by {
        lemma_assoc_has(s, k);
        if has_key(s, k) {
            let i = choose|i: int| 0 <= i < s.len() && (#[trigger] s[i]).0 == k;
            assert(m.contains_key(s[i].0));
        }
    }
    assert forall|k: K| assoc(s).contains_key(k) implies assoc(s)[k] == m[k] by {
        lemma_assoc_has(s, k);
        let i = choose|i: int| 0 <= i < s.len() && (#[trigger] s[i]).0 == k;
        lemma_assoc_at(s, i);
    }
    assert(assoc(s) =~= m);
}

/// Replacing the value of a pair replaces it in the map.
pub proof fn lemma_assoc_update<K, V>(s: Seq<(K, V)>, i: int, v: V)
    requires
        distinct(s),
        0 <= i < s.len(),
    ensures
        distinct(s.update(i, (s[i].0, v))),
        assoc(s.update(i, (s[i].0, v))) == assoc(s).insert(s[i].0, v),
{
    let t = s.update(i, (s[i].0, v));
    let m = assoc(s).insert(s[i].0, v);
    assert forall|a: int, b: int| 0 <= a < b < t.len() implies (#[trigger] t[a]).0 != (
    #[trigger] t[b]).0 by {
        assert(s[a].0 != s[b].0);
    }
    assert forall|k: K| m.contains_key(k) implies #[trigger] has_key(t, k) by {
        if k == s[i].0 {
            assert(t[i].0 == k);
        } else {
            lemma_assoc_has(s, k);
            let a = choose|a: int| 0 <= a < s.len() && (#[trigger] s[a]).0 == k;
            assert(t[a].0 == k);
        }
    }
    assert forall|a: int| 0 <= a < t.len() implies m.contains_key((#[trigger] t[a]).0) && m[t[a].0]
        == t[a].1 by {
        lemma_assoc_at(s, a);
        if a < i {
            assert(s[a].0 != s[i].0);
        } else if a > i {
            assert(s[i].0 != s[a].0);
        }
    }
    lemma_assoc_same(t, m);
}

/// Inserting a pair with a new key anywhere inserts it in the map.
pub proof fn lemma_assoc_insert<K, V>(s: Seq<(K, V)>, i: int, k: K, v: V)
    requires
        distinct(s),
        !has_key(s, k),
        0 <= i <= s.len(),
    ensures
        distinct(s.insert(i, (k, v))),
        assoc(s.insert(i, (k, v))) == assoc(s).insert(k, v),
{
    let t = s.insert(i, (k, v));
    let m = assoc(s).insert(k, v);
    assert forall|a: int| 0 <= a < t.len() implies #[trigger] t[a] == (if a < i {
        s[a]
    } else if a == i {
        (k, v)
    } else {
        s[a - 1]
    }) by {}
    assert forall|a: int, b: int| 0 <= a < b < t.len() implies (#[trigger] t[a]).0 != (
    #[trigger] t[b]).0 by {
        if a != i && b != i {
            let x = if a < i {
                a
            } else {
                a - 1
            };
            let y = if b < i {
                b
            } else {
                b - 1
            };
            assert(s[x].0 != s[y].0);
        } else if a == i {
            assert(s[b - 1].0 != k);
        } else {
            assert(s[a].0 != k);
        }
    }
    assert forall|q: K| m.contains_key(q) implies #[trigger] has_key(t, q) by {
        if q == k {
            assert(t[i].0 == q);
        } else {
            lemma_assoc_has(s, q);
            let a = choose|a: int| 0 <= a < s.len() && (#[trigger] s[a]).0 == q;
            if a < i {
                assert(t[a].0 == q);
            } else {
                assert(t[a + 1].0 == q);
            }
        }
    }
    assert forall|a: int| 0 <= a < t.len() implies m.contains_key((#[trigger] t[a]).0) && m[t[a].0]
        == t[a].1 by {
        if a != i {
            let x = if a < i {
                a
            } else {
                a - 1
            };
            lemma_assoc_at(s, x);
            assert(s[x].0 != k);
        }
    }
    lemma_assoc_same(t, m);
}

/// Removing a pair removes it from the map.
pub proof fn lemma_assoc_remove<K, V>(s: Seq<(K, V)>, i: int)
    requires
        distinct(s),
        0 <= i < s.len(),
    ensures
        distinct(s.remove(i)),
        assoc(s.remove(i)) == assoc(s).remove(s[i].0),
{
    let t = s.remove(i);
    let m = assoc(s).remove(s[i].0);
    assert forall|a: int| 0 <= a < t.len() implies #[trigger] t[a] == (if a < i {
        s[a]
    } else {
        s[a + 1]
    }) by {}
    assert forall|a: int, b: int| 0 <= a < b < t.len() implies (#[trigger] t[a]).0 != (
    #[trigger] t[b]).0 by {
        let x = if a < i {
            a
        } else {
            a + 1
        };
        let y = if b < i {
            b
        } else {
            b + 1
        };
        assert(s[x].0 != s[y].0);
    }
    assert forall|q: K| m.contains_key(q) implies #[trigger] has_key(t, q) by {
        lemma_assoc_has(s, q);
        let a = choose|a: int| 0 <= a < s.len() && (#[trigger] s[a]).0 == q;
        if a < i {
            assert(t[a].0 == q);
        } else {
            assert(t[a - 1].0 == q);
        }
    }
    assert forall|a: int| 0 <= a < t.len() implies m.contains_key((#[trigger] t[a]).0) && m[t[a].0]
        == t[a].1 by {
        let x = if a < i {
            a
        } else {
            a + 1
        };
        lemma_assoc_at(s, x);
        if x < i {
            assert(s[x].0 != s[i].0);
        } else {
            assert(s[i].0 != s[x].0);
        }
    }
    lemma_assoc_same(t, m);
}

} // verus!
