//! Deterministic pair-once iteration over entities, identified by the 64-bit
//! value of their id.
use vstd::prelude::*;

verus! {

/// `s` is in ascending order.
pub open spec fn ascending(s: Seq<u64>) -> bool {
    forall|i: int, j: int| 0 <= i <= j < s.len() ==> s[i] <= s[j]
}

/// Sorts ids in ascending order with `slice::sort`.
#[verifier::external_body]
fn sort_ids(ids: &mut Vec<u64>)
    ensures
        final(ids)@.to_multiset() == old(ids)@.to_multiset(),
        ascending(final(ids)@),
{
    ids.sort();
}

/// Pair-once check: returns true only if `b` should be processed when iterating from `a`.
pub fn is_forward_entity_pair(a: u64, b: u64) -> (forward: bool)
    ensures
        forward == (b > a),
{
    b > a
}

/// Of two distinct entities, exactly one sees the other as a forward partner,
/// and no entity is its own forward partner: every unordered pair is
/// processed once.
pub proof fn lemma_pair_once(a: u64, b: u64)
    ensures
        a != b ==> ((b > a) != (a > b)),
        !(a > a),
{
}

/// Build a deterministic entity iteration order from keys: the buffer is
/// refilled with exactly the keys, in ascending order.
pub fn prepare_sorted_entities_from_keys(sorted_entities: &mut Vec<u64>, keys: Vec<u64>)
    ensures
        final(sorted_entities)@.to_multiset() == keys@.to_multiset(),
        ascending(final(sorted_entities)@),
{
    sorted_entities.clear();
    let n = keys.len();
    for i in 0..n
        invariant
            n == keys@.len(),
            sorted_entities@ == keys@.take(i as int),
    {
        sorted_entities.push(keys[i]);
        assert(keys@.take(i + 1) == keys@.take(i as int).push(keys@[i as int]));
    }
    assert(keys@.take(n as int) == keys@);
    sort_ids(sorted_entities);
}

} // verus!
