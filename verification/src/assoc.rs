//! Association vectors: `Vec<(K, V)>` with pairwise distinct keys, read in
//! specifications through `has_key` / `value_of`. All the stateful components
//! of the coordinator (owner registry, generation cache, physics adapter)
//! store their entries this way.

use vstd::prelude::*;

verus! {

/// No two entries share a key.
pub open spec fn keys_unique<K, V>(s: Seq<(K, V)>) -> bool {
    forall|i: int, j: int|
        0 <= i < s.len() && 0 <= j < s.len() && #[trigger] s[i].0 == #[trigger] s[j].0 ==> i == j
}

/// Some entry carries the key `k`.
pub open spec fn has_key<K, V>(s: Seq<(K, V)>, k: K) -> bool {
    exists|i: int| 0 <= i < s.len() && (#[trigger] s[i]).0 == k
}

/// The value stored under `k`; meaningful when `has_key(s, k)` holds and the
/// keys are distinct.
pub open spec fn value_of<K, V>(s: Seq<(K, V)>, k: K) -> V {
    s[choose|i: int| 0 <= i < s.len() && (#[trigger] s[i]).0 == k].1
}

/// Reading an entry through its own key yields that entry's value.
pub proof fn lemma_value_at<K, V>(s: Seq<(K, V)>, i: int)
    requires
        keys_unique(s),
        0 <= i < s.len(),
    ensures
        has_key(s, s[i].0),
        value_of(s, s[i].0) == s[i].1,
{
    assert(0 <= i < s.len() && s[i].0 == s[i].0);
    let j = choose|j: int| 0 <= j < s.len() && (#[trigger] s[j]).0 == s[i].0;
    assert(s[j].0 == s[i].0);
}

/// Replacing the entry at `i` by one with the same key changes only that key's
/// value.
pub proof fn lemma_update_frame<K, V>(s: Seq<(K, V)>, i: int, x: (K, V))
    requires
        keys_unique(s),
        0 <= i < s.len(),
        x.0 == s[i].0,
    ensures
        keys_unique(s.update(i, x)),
        has_key(s.update(i, x), x.0),
        value_of(s.update(i, x), x.0) == x.1,
        forall|k: K| k != x.0 ==> #[trigger] has_key(s.update(i, x), k) == has_key(s, k),
        forall|k: K|
            k != x.0 && has_key(s, k) ==> #[trigger] value_of(s.update(i, x), k) == value_of(s, k),
{
    let t = s.update(i, x);
    assert forall|a: int, b: int|
        0 <= a < t.len() && 0 <= b < t.len() && #[trigger] t[a].0 == #[trigger] t[b].0 implies a
        == b by {
        assert(s[a].0 == t[a].0 && s[b].0 == t[b].0);
    }
    lemma_value_at(t, i);
    assert forall|k: K| k != x.0 implies #[trigger] has_key(t, k) == has_key(s, k) by {
        if has_key(t, k) {
            let a = choose|a: int| 0 <= a < t.len() && (#[trigger] t[a]).0 == k;
            assert(s[a].0 == k);
        }
        if has_key(s, k) {
            let a = choose|a: int| 0 <= a < s.len() && (#[trigger] s[a]).0 == k;
            assert(a != i && t[a].0 == k);
        }
    }
    assert forall|k: K| k != x.0 && has_key(s, k) implies #[trigger] value_of(t, k) == value_of(
        s,
        k,
    ) by {
        let a = choose|a: int| 0 <= a < s.len() && (#[trigger] s[a]).0 == k;
        assert(a != i && t[a].0 == k);
        lemma_value_at(s, a);
        lemma_value_at(t, a);
    }
}

/// Appending an entry under a fresh key changes only that key's value.
pub proof fn lemma_push_frame<K, V>(s: Seq<(K, V)>, x: (K, V))
    requires
        keys_unique(s),
        !has_key(s, x.0),
    ensures
        keys_unique(s.push(x)),
        has_key(s.push(x), x.0),
        value_of(s.push(x), x.0) == x.1,
        forall|k: K| k != x.0 ==> #[trigger] has_key(s.push(x), k) == has_key(s, k),
        forall|k: K|
            k != x.0 && has_key(s, k) ==> #[trigger] value_of(s.push(x), k) == value_of(s, k),
{
    let t = s.push(x);
    assert forall|a: int, b: int|
        0 <= a < t.len() && 0 <= b < t.len() && #[trigger] t[a].0 == #[trigger] t[b].0 implies a
        == b by {
        if a < s.len() && b < s.len() {
            assert(s[a].0 == t[a].0 && s[b].0 == t[b].0);
        } else if a < s.len() && b == s.len() {
            assert(s[a].0 == x.0 && 0 <= a < s.len());
        } else if b < s.len() && a == s.len() {
            assert(s[b].0 == x.0 && 0 <= b < s.len());
        }
    }
    assert(t[s.len() as int].0 == x.0);
    lemma_value_at(t, s.len() as int);
    assert forall|k: K| k != x.0 implies #[trigger] has_key(t, k) == has_key(s, k) by {
        if has_key(t, k) {
            let a = choose|a: int| 0 <= a < t.len() && (#[trigger] t[a]).0 == k;
            assert(a < s.len() && s[a].0 == k);
        }
        if has_key(s, k) {
            let a = choose|a: int| 0 <= a < s.len() && (#[trigger] s[a]).0 == k;
            assert(t[a].0 == k);
        }
    }
    assert forall|k: K| k != x.0 && has_key(s, k) implies #[trigger] value_of(t, k) == value_of(
        s,
        k,
    ) by {
        let a = choose|a: int| 0 <= a < s.len() && (#[trigger] s[a]).0 == k;
        assert(t[a].0 == k);
        lemma_value_at(s, a);
        lemma_value_at(t, a);
    }
}

/// Removing the entry at `i` drops exactly its key.
pub proof fn lemma_remove_frame<K, V>(s: Seq<(K, V)>, i: int)
    requires
        keys_unique(s),
        0 <= i < s.len(),
    ensures
        keys_unique(s.remove(i)),
        !has_key(s.remove(i), s[i].0),
        forall|k: K| k != s[i].0 ==> #[trigger] has_key(s.remove(i), k) == has_key(s, k),
        forall|k: K|
            k != s[i].0 && has_key(s, k) ==> #[trigger] value_of(s.remove(i), k) == value_of(s, k),
{
    let t = s.remove(i);
    assert forall|a: int| 0 <= a < t.len() implies #[trigger] t[a] == s[if a < i {
        a
    } else {
        a + 1
    }] by {}
    assert forall|a: int, b: int|
        0 <= a < t.len() && 0 <= b < t.len() && #[trigger] t[a].0 == #[trigger] t[b].0 implies a
        == b by {
        let a0 = if a < i { a } else { a + 1 };
        let b0 = if b < i { b } else { b + 1 };
        assert(s[a0].0 == s[b0].0);
    }
    if has_key(t, s[i].0) {
        let a = choose|a: int| 0 <= a < t.len() && (#[trigger] t[a]).0 == s[i].0;
        let a0 = if a < i { a } else { a + 1 };
        assert(s[a0].0 == s[i].0 && a0 != i);
    }
    assert forall|k: K| k != s[i].0 implies #[trigger] has_key(t, k) == has_key(s, k) by {
        if has_key(t, k) {
            let a = choose|a: int| 0 <= a < t.len() && (#[trigger] t[a]).0 == k;
            let a0 = if a < i { a } else { a + 1 };
            assert(s[a0].0 == k);
        }
        if has_key(s, k) {
            let a = choose|a: int| 0 <= a < s.len() && (#[trigger] s[a]).0 == k;
            if a < i {
                assert(t[a].0 == k);
            } else {
                assert(a != i && t[a - 1].0 == k);
            }
        }
    }
    assert forall|k: K| k != s[i].0 && has_key(s, k) implies #[trigger] value_of(t, k) == value_of(
        s,
        k,
    ) by {
        let a = choose|a: int| 0 <= a < s.len() && (#[trigger] s[a]).0 == k;
        lemma_value_at(s, a);
        if a < i {
            assert(t[a].0 == k);
            lemma_value_at(t, a);
        } else {
            assert(a != i && t[a - 1].0 == k);
            lemma_value_at(t, a - 1);
        }
    }
}

} // verus!
