//! Sequences of key–value entries that stand for maps: no key occurs
//! twice, and an entry is replaced in place or added after the others.

use vstd::prelude::*;

verus! {

/// Whether an entry of `s` has key `k`.
pub open spec fn has_key<K, V>(s: Seq<(K, V)>, k: K) -> bool {
    exists|i: int| 0 <= i < s.len() && s[i].0 == k
}

/// Where the entry with key `k` stands in `s`.
pub open spec fn key_slot<K, V>(s: Seq<(K, V)>, k: K) -> int {
    choose|i: int| 0 <= i < s.len() && s[i].0 == k
}

/// No two entries of `s` share a key.
pub open spec fn keys_distinct<K, V>(s: Seq<(K, V)>) -> bool {
    forall|i: int, j: int| 0 <= i < j < s.len() ==> s[i].0 != s[j].0
}

/// `s` with `(k, v)` in place of the entry with key `k`, or with `(k, v)`
/// after the others when none has it.
pub open spec fn upsert_entry<K, V>(s: Seq<(K, V)>, k: K, v: V) -> Seq<(K, V)> {
    if has_key(s, k) {
        s.update(key_slot(s, k), (k, v))
    } else {
        s.push((k, v))
    }
}

/// `s` without the entry with key `k`.
pub open spec fn without_key<K, V>(s: Seq<(K, V)>, k: K) -> Seq<(K, V)> {
    if has_key(s, k) {
        s.remove(key_slot(s, k))
    } else {
        s
    }
}

/// Where no key occurs twice, the entry found for the key at position `i`
/// is the one at `i`.
pub proof fn lemma_key_slot<K, V>(s: Seq<(K, V)>, i: int)
    requires
        keys_distinct(s),
        0 <= i < s.len(),
    ensures
        has_key(s, s[i].0),
        key_slot(s, s[i].0) == i,
{
    let j = key_slot(s, s[i].0);
    assert(0 <= j < s.len() && s[j].0 == s[i].0);
}

} // verus!
