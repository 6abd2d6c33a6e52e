//! Association lists: a sequence of entries, each with a string key, no key
//! twice, read as a map from key to entry. The library keeps its keyed
//! tables in this form and proves every update against the map it stands
//! for.
use vstd::prelude::*;

verus! {

/// No two entries share a key.
pub open spec fn assoc_unique<V>(s: Seq<V>, key: spec_fn(V) -> Seq<char>) -> bool {
    forall|i: int, j: int| 0 <= i < s.len() && 0 <= j < s.len() && i != j ==> key(s[i]) != key(s[j])
}

/// Some entry has key `k`.
pub open spec fn assoc_has<V>(s: Seq<V>, key: spec_fn(V) -> Seq<char>, k: Seq<char>) -> bool {
    exists|i: int| 0 <= i < s.len() && key(s[i]) == k
}

/// The entries as a map from key to entry.
pub open spec fn assoc_map<V>(s: Seq<V>, key: spec_fn(V) -> Seq<char>) -> Map<Seq<char>, V> {
    Map::new(|k: Seq<char>| assoc_has(s, key, k), |k: Seq<char>| s[choose|i: int| 0 <= i < s.len() && key(s[i]) == k])
}

/// Entry `i` is what the map holds under its key.
pub proof fn lemma_assoc_at<V>(s: Seq<V>, key: spec_fn(V) -> Seq<char>, i: int)
    requires
        assoc_unique(s, key),
        0 <= i < s.len(),
    ensures
        assoc_map(s, key).contains_key(key(s[i])),
        assoc_map(s, key)[key(s[i])] == s[i],
{
    assert(assoc_has(s, key, key(s[i])));
    let j = choose|j: int| 0 <= j < s.len() && key(s[j]) == key(s[i]);
    assert(j == i);
}

/// A key that no entry has is not in the map.
pub proof fn lemma_assoc_absent<V>(s: Seq<V>, key: spec_fn(V) -> Seq<char>, k: Seq<char>)
    requires
        forall|i: int| 0 <= i < s.len() ==> key(s[i]) != k,
    ensures
        !assoc_map(s, key).contains_key(k),
{
}

/// Replacing entry `i` by an entry with the same key updates the map there.
pub proof fn lemma_assoc_update<V>(s: Seq<V>, key: spec_fn(V) -> Seq<char>, i: int, v: V)
    requires
        assoc_unique(s, key),
        0 <= i < s.len(),
        key(v) == key(s[i]),
    ensures
        assoc_unique(s.update(i, v), key),
        assoc_map(s.update(i, v), key) == assoc_map(s, key).insert(key(v), v),
{
    let u = s.update(i, v);
    assert(assoc_unique(u, key)) by {
        assert forall|a: int, b: int| 0 <= a < u.len() && 0 <= b < u.len() && a != b implies key(u[a]) != key(u[b]) by {
            if a != i && b != i {
                assert(u[a] == s[a] && u[b] == s[b]);
            } else if a == i {
                assert(u[b] == s[b]);
            } else {
                assert(u[a] == s[a]);
            }
        }
    }
    let m = assoc_map(s, key).insert(key(v), v);
    assert forall|k: Seq<char>| #[trigger] assoc_map(u, key).contains_key(k) == m.contains_key(k) by {
        if assoc_has(s, key, k) {
            let j = choose|j: int| 0 <= j < s.len() && key(s[j]) == k;
            assert(key(u[j]) == k);
        }
        if assoc_has(u, key, k) {
            let j = choose|j: int| 0 <= j < u.len() && key(u[j]) == k;
            if j != i {
                assert(key(s[j]) == k);
            }
        }
    }
    assert forall|k: Seq<char>| #[trigger] assoc_map(u, key).contains_key(k) implies assoc_map(u, key)[k] == m[k] by {
        let j = choose|j: int| 0 <= j < u.len() && key(u[j]) == k;
        lemma_assoc_at(u, key, j);
        if j != i {
            assert(u[j] == s[j]);
            lemma_assoc_at(s, key, j);
        }
    }
    assert(assoc_map(u, key) =~= m);
}

/// Appending an entry with a new key adds it to the map.
pub proof fn lemma_assoc_push<V>(s: Seq<V>, key: spec_fn(V) -> Seq<char>, v: V)
    requires
        assoc_unique(s, key),
        forall|i: int| 0 <= i < s.len() ==> key(s[i]) != key(v),
    ensures
        assoc_unique(s.push(v), key),
        assoc_map(s.push(v), key) == assoc_map(s, key).insert(key(v), v),
{
    let u = s.push(v);
    assert(assoc_unique(u, key)) by {
        assert forall|a: int, b: int| 0 <= a < u.len() && 0 <= b < u.len() && a != b implies key(u[a]) != key(u[b]) by {
            if a < s.len() && b < s.len() {
                assert(u[a] == s[a] && u[b] == s[b]);
            } else if a < s.len() {
                assert(u[a] == s[a]);
            } else {
                assert(u[b] == s[b]);
            }
        }
    }
    let m = assoc_map(s, key).insert(key(v), v);
    assert forall|k: Seq<char>| #[trigger] assoc_map(u, key).contains_key(k) == m.contains_key(k) by {
        if assoc_has(s, key, k) {
            let j = choose|j: int| 0 <= j < s.len() && key(s[j]) == k;
            assert(key(u[j]) == k);
        }
        if k == key(v) {
            assert(key(u[s.len() as int]) == k);
        }
        if assoc_has(u, key, k) {
            let j = choose|j: int| 0 <= j < u.len() && key(u[j]) == k;
            if j < s.len() {
                assert(key(s[j]) == k);
            }
        }
    }
    assert forall|k: Seq<char>| #[trigger] assoc_map(u, key).contains_key(k) implies assoc_map(u, key)[k] == m[k] by {
        let j = choose|j: int| 0 <= j < u.len() && key(u[j]) == k;
        lemma_assoc_at(u, key, j);
        if j < s.len() {
            assert(u[j] == s[j]);
            lemma_assoc_at(s, key, j);
        }
    }
    assert(assoc_map(u, key) =~= m);
}

/// The empty list is the empty map.
pub proof fn lemma_assoc_empty<V>(key: spec_fn(V) -> Seq<char>)
    ensures
        assoc_unique(Seq::<V>::empty(), key),
        assoc_map(Seq::<V>::empty(), key) == Map::<Seq<char>, V>::empty(),
{
    assert(assoc_map(Seq::<V>::empty(), key) =~= Map::<Seq<char>, V>::empty());
}

/// Removing entry `i` removes its key from the map.
pub proof fn lemma_assoc_remove<V>(s: Seq<V>, key: spec_fn(V) -> Seq<char>, i: int)
    requires
        assoc_unique(s, key),
        0 <= i < s.len(),
    ensures
        assoc_unique(s.remove(i), key),
        assoc_map(s.remove(i), key) == assoc_map(s, key).remove(key(s[i])),
{
    let u = s.remove(i);
    assert forall|a: int| 0 <= a < u.len() implies #[trigger] u[a] == s[if a < i { a } else { a + 1 }] by {}
    assert(assoc_unique(u, key)) by {
        assert forall|a: int, b: int| 0 <= a < u.len() && 0 <= b < u.len() && a != b implies key(u[a]) != key(u[b]) by {
            let x = if a < i { a } else { a + 1 };
            let y = if b < i { b } else { b + 1 };
            assert(u[a] == s[x] && u[b] == s[y]);
        }
    }
    let m = assoc_map(s, key).remove(key(s[i]));
    assert forall|k: Seq<char>| #[trigger] assoc_map(u, key).contains_key(k) == m.contains_key(k) by {
        if assoc_has(s, key, k) && k != key(s[i]) {
            let j = choose|j: int| 0 <= j < s.len() && key(s[j]) == k;
            let a = if j < i { j } else { j - 1 };
            assert(u[a] == s[j]);
        }
        if assoc_has(u, key, k) {
            let a = choose|a: int| 0 <= a < u.len() && key(u[a]) == k;
            let x = if a < i { a } else { a + 1 };
            assert(u[a] == s[x]);
            assert(x != i);
        }
    }
    assert forall|k: Seq<char>| #[trigger] assoc_map(u, key).contains_key(k) implies assoc_map(u, key)[k] == m[k] by {
        let a = choose|a: int| 0 <= a < u.len() && key(u[a]) == k;
        lemma_assoc_at(u, key, a);
        let x = if a < i { a } else { a + 1 };
        assert(u[a] == s[x]);
        lemma_assoc_at(s, key, x);
    }
    assert(assoc_map(u, key) =~= m);
}

} // verus!
