use std::collections::BTreeSet;
use vstd::prelude::*;

verus! {

broadcast use vstd::std_specs::btree::group_btree_axioms;

/// Some key at or after `cursor` is not in `used`: the probe has somewhere to stop.
pub open spec fn has_free_from(used: Set<u64>, cursor: u64) -> bool {
    exists|k: u64| cursor <= k && !used.contains(k)
}

/// `key` is the first key at or after `cursor` that `used` does not hold.
pub open spec fn is_first_free(used: Set<u64>, cursor: u64, key: u64) -> bool {
    &&& cursor <= key
    &&& !used.contains(key)
    &&& forall|j: u64| cursor <= j < key ==> used.contains(j)
}

/// Sequential probe: scans forward from the cursor for the first key that is not
/// in use, leaves the cursor on it and returns it.
pub fn keygen(used: &BTreeSet<u64>, next: &mut u64) -> (key: u64)
    requires
        has_free_from(used@, *old(next)),
    ensures
        is_first_free(used@, *old(next), key),
        *final(next) == key,
{
    let ghost start = *next;
    let ghost free = choose|k: u64| start <= k && !used@.contains(k);
    while used.contains(&*next)
        invariant
            start <= *next <= free,
            !used@.contains(free),
            forall|j: u64| start <= j < *next ==> used@.contains(j),
        decreases free - *next,
    {
        *next = *next + 1;
    }
    *next
}

/// The first free key is unique: at most one key meets `is_first_free`.
pub proof fn lemma_first_free_unique(used: Set<u64>, cursor: u64, a: u64, b: u64)
    requires
        is_first_free(used, cursor, a),
        is_first_free(used, cursor, b),
    ensures
        a == b,
{
}

/// With the used keys exactly the prefix `0..n` and the cursor inside it or at its
/// end, the probe returns `n`: no used key is handed out and the cursor never
/// moves back.
pub proof fn lemma_prefix_probe(used: Set<u64>, n: u64, cursor: u64, key: u64)
    requires
        forall|j: u64| used.contains(j) <==> j < n,
        cursor <= n,
        is_first_free(used, cursor, key),
    ensures
        key == n,
        !used.contains(key),
        cursor <= key,
{
    if key < n {
        assert(used.contains(key));
    }
    if key > n {
        assert(used.contains(n));
    }
}

/// Once a handed-out key is marked used, the next probe from the cursor left on it
/// returns a strictly larger key, and that key is the very next one when every key
/// below the cursor is in use: a single extra probe per call.
pub proof fn lemma_probe_after_issue(used: Set<u64>, cursor: u64, key: u64, key2: u64)
    requires
        is_first_free(used, cursor, key),
        is_first_free(used.insert(key), key, key2),
        forall|j: u64| used.contains(j) ==> j < key,
    ensures
        key < key2,
        key2 == key + 1,
        !used.contains(key2),
{
    if key2 > key + 1 {
        assert(used.insert(key).contains((key + 1) as u64));
    }
}

} // verus!
