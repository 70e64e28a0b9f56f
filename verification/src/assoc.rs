//! Association sequences: the mathematical model of every key -> value
//! mapping the library builds.  A mapping is a sequence of (key, value)
//! pairs with pairwise distinct keys, kept in first-insertion order.

use vstd::prelude::*;

verus! {

/// First index of `k` among the keys of `m`, or -1 when `k` is absent.
pub open spec fn key_index<K, V>(m: Seq<(K, V)>, k: K) -> int
    decreases m.len(),
{
    if m.len() == 0 {
        -1
    } else if m[0].0 == k {
        0
    } else if key_index(m.drop_first(), k) == -1 {
        -1
    } else {
        key_index(m.drop_first(), k) + 1
    }
}

/// Whether `k` occurs among the keys of `m`.
pub open spec fn has_key<K, V>(m: Seq<(K, V)>, k: K) -> bool {
    key_index(m, k) >= 0
}

/// The value bound to `k` (at its first occurrence).
pub open spec fn value_of<K, V>(m: Seq<(K, V)>, k: K) -> V
    recommends
        has_key(m, k),
{
    m[key_index(m, k)].1
}

/// The keys of `m`, in order.
pub open spec fn keys_of<K, V>(m: Seq<(K, V)>) -> Seq<K> {
    m.map_values(|e: (K, V)| e.0)
}

/// No key occurs twice.
pub open spec fn distinct_keys<K, V>(m: Seq<(K, V)>) -> bool {
    forall|i: int, j: int| 0 <= i < j < m.len() ==> #[trigger] m[i].0 != #[trigger] m[j].0
}

pub proof fn lemma_key_index<K, V>(m: Seq<(K, V)>, k: K)
    ensures
        -1 <= key_index(m, k) < m.len(),
        key_index(m, k) >= 0 ==> m[key_index(m, k)].0 == k,
        forall|j: int| 0 <= j < key_index(m, k) ==> (#[trigger] m[j].0) != k,
        key_index(m, k) == -1 ==> forall|j: int| 0 <= j < m.len() ==> (#[trigger] m[j].0) != k,
    decreases m.len(),
{
    if m.len() > 0 && m[0].0 != k {
        lemma_key_index(m.drop_first(), k);
        assert forall|j: int| 1 <= j < m.len() implies m[j] == m.drop_first()[j - 1] by {}
    }
}

/// A key that occurs at some position is found by `key_index`.
pub proof fn lemma_key_present<K, V>(m: Seq<(K, V)>, i: int)
    requires
        0 <= i < m.len(),
    ensures
        has_key(m, m[i].0),
        key_index(m, m[i].0) <= i,
{
    lemma_key_index(m, m[i].0);
    if key_index(m, m[i].0) == -1 || key_index(m, m[i].0) > i {
        assert(m[i].0 != m[i].0);
    }
}

/// Appending an entry leaves the index of every present key unchanged and
/// binds a fresh key to the new last position.
pub proof fn lemma_key_index_push<K, V>(m: Seq<(K, V)>, e: (K, V), k: K)
    ensures
        has_key(m, k) ==> key_index(m.push(e), k) == key_index(m, k),
        !has_key(m, k) && e.0 == k ==> key_index(m.push(e), k) == m.len(),
        !has_key(m, k) && e.0 != k ==> key_index(m.push(e), k) == -1,
    decreases m.len(),
{
    lemma_key_index(m, k);
    if m.len() == 0 {
        assert(m.push(e).len() == 1);
        assert(m.push(e)[0] == e);
        if e.0 != k {
            assert(key_index(m.push(e).drop_first(), k) == -1) by {
                assert(m.push(e).drop_first().len() == 0);
            }
        }
    } else if m[0].0 == k {
        assert(m.push(e)[0] == m[0]);
    } else {
        assert(m.push(e)[0] == m[0]);
        lemma_key_index_push(m.drop_first(), e, k);
        assert(m.push(e).drop_first() =~= m.drop_first().push(e));
    }
}

/// `key_index` depends only on the key column.
pub proof fn lemma_key_index_same_keys<K, V, W>(m1: Seq<(K, V)>, m2: Seq<(K, W)>, k: K)
    requires
        m1.len() == m2.len(),
        forall|j: int| 0 <= j < m1.len() ==> (#[trigger] m1[j].0) == (#[trigger] m2[j].0),
    ensures
        key_index(m1, k) == key_index(m2, k),
    decreases m1.len(),
{
    if m1.len() > 0 {
        assert(m1[0].0 == m2[0].0);
        assert forall|j: int| 0 <= j < m1.drop_first().len() implies (#[trigger] m1.drop_first()[
            j
        ].0) == (#[trigger] m2.drop_first()[j].0) by {
            assert(m1.drop_first()[j] == m1[j + 1]);
            assert(m2.drop_first()[j] == m2[j + 1]);
        }
        lemma_key_index_same_keys(m1.drop_first(), m2.drop_first(), k);
    }
}

/// No element occurs twice.
pub open spec fn distinct_seq<A>(s: Seq<A>) -> bool {
    forall|i: int, j: int| 0 <= i < j < s.len() ==> (#[trigger] s[i]) != (#[trigger] s[j])
}

/// First index of `x` in `s`, or -1 when absent.
pub open spec fn first_index<A>(s: Seq<A>, x: A) -> int
    decreases s.len(),
{
    if s.len() == 0 {
        -1
    } else if s[0] == x {
        0
    } else if first_index(s.drop_first(), x) == -1 {
        -1
    } else {
        first_index(s.drop_first(), x) + 1
    }
}

pub proof fn lemma_first_index<A>(s: Seq<A>, x: A)
    ensures
        -1 <= first_index(s, x) < s.len(),
        first_index(s, x) >= 0 ==> s[first_index(s, x)] == x,
        forall|j: int| 0 <= j < first_index(s, x) ==> (#[trigger] s[j]) != x,
        first_index(s, x) >= 0 <==> s.contains(x),
    decreases s.len(),
{
    if s.len() > 0 && s[0] != x {
        lemma_first_index(s.drop_first(), x);
        assert forall|j: int| 1 <= j < s.len() implies s[j] == s.drop_first()[j - 1] by {}
        if s.contains(x) {
            let i = choose|i: int| 0 <= i < s.len() && s[i] == x;
            assert(s.drop_first()[i - 1] == x);
        }
        if s.drop_first().contains(x) {
            let i = choose|i: int| 0 <= i < s.drop_first().len() && s.drop_first()[i] == x;
            assert(s[i + 1] == x);
        }
    }
}

/// Appending leaves the first index of a present element unchanged and gives
/// a fresh element the old length.
pub proof fn lemma_first_index_push<A>(s: Seq<A>, y: A, x: A)
    ensures
        s.contains(x) ==> first_index(s.push(y), x) == first_index(s, x),
        !s.contains(x) && y == x ==> first_index(s.push(y), x) == s.len(),
        !s.contains(x) && y != x ==> first_index(s.push(y), x) == -1,
    decreases s.len(),
{
    lemma_first_index(s, x);
    if s.len() == 0 {
        assert(s.push(y)[0] == y);
        if y != x {
            assert(first_index(s.push(y).drop_first(), x) == -1) by {
                assert(s.push(y).drop_first().len() == 0);
            }
        }
    } else {
        assert(s.push(y)[0] == s[0]);
        if s[0] != x {
            lemma_first_index_push(s.drop_first(), y, x);
            assert(s.push(y).drop_first() =~= s.drop_first().push(y));
            assert(s.contains(x) <==> s.drop_first().contains(x)) by {
                if s.contains(x) {
                    let i = choose|i: int| 0 <= i < s.len() && s[i] == x;
                    assert(s.drop_first()[i - 1] == x);
                }
                if s.drop_first().contains(x) {
                    let i = choose|i: int|
                        0 <= i < s.drop_first().len() && s.drop_first()[i] == x;
                    assert(s[i + 1] == x);
                }
            }
        }
    }
}

/// A key occurs in `m` exactly when it occurs in the key column.
pub proof fn lemma_has_key_contains<K, V>(m: Seq<(K, V)>, k: K)
    ensures
        has_key(m, k) <==> keys_of(m).contains(k),
{
    lemma_key_index(m, k);
    if has_key(m, k) {
        assert(keys_of(m)[key_index(m, k)] == k);
    }
    if keys_of(m).contains(k) {
        let i = choose|i: int| 0 <= i < keys_of(m).len() && keys_of(m)[i] == k;
        assert(m[i].0 == k);
        lemma_key_present(m, i);
    }
}

/// With distinct keys, the key at position `i` is found exactly there.
pub proof fn lemma_key_index_distinct<K, V>(m: Seq<(K, V)>, i: int)
    requires
        distinct_keys(m),
        0 <= i < m.len(),
    ensures
        key_index(m, m[i].0) == i,
{
    lemma_key_present(m, i);
    lemma_key_index(m, m[i].0);
    let ki = key_index(m, m[i].0);
    if ki < i {
        assert(m[ki].0 != m[i].0);
    }
}

/// Updating the value at position `i` (keeping its key) leaves every
/// `key_index` unchanged.
pub proof fn lemma_key_index_update<K, V>(m: Seq<(K, V)>, i: int, v: V, k: K)
    requires
        0 <= i < m.len(),
    ensures
        key_index(m.update(i, (m[i].0, v)), k) == key_index(m, k),
{
    lemma_key_index_same_keys(m.update(i, (m[i].0, v)), m, k);
}

/// Appending a fresh key keeps the keys distinct.
pub proof fn lemma_distinct_push<K, V>(m: Seq<(K, V)>, e: (K, V))
    requires
        distinct_keys(m),
        !has_key(m, e.0),
    ensures
        distinct_keys(m.push(e)),
{
    lemma_key_index(m, e.0);
    let m1 = m.push(e);
    assert forall|i: int, j: int| 0 <= i < j < m1.len() implies (#[trigger] m1[i].0) != (
    #[trigger] m1[j].0) by {
        if j < m.len() {
            assert(m1[i].0 == m[i].0);
            assert(m1[j].0 == m[j].0);
        } else {
            assert(m1[j] == e);
            assert(m1[i].0 == m[i].0);
            assert(m[i].0 != e.0);
        }
    }
}

/// Updating a value in place keeps the keys distinct.
pub proof fn lemma_distinct_update<K, V>(m: Seq<(K, V)>, i: int, v: V)
    requires
        distinct_keys(m),
        0 <= i < m.len(),
    ensures
        distinct_keys(m.update(i, (m[i].0, v))),
{
    let m1 = m.update(i, (m[i].0, v));
    assert forall|x: int, y: int| 0 <= x < y < m1.len() implies (#[trigger] m1[x].0) != (
    #[trigger] m1[y].0) by {
        assert(m1[x].0 == m[x].0);
        assert(m1[y].0 == m[y].0);
    }
}

} // verus!
