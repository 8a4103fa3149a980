//! The order of the sorted set's keys, read off the tuple order of std.

use crate::interval::{ascending, interval_of, key_lt, Interval, IntervalKey};
use core::cmp::Ordering;
use vstd::prelude::*;
use vstd::std_specs::btree::increasing_seq;
use vstd::std_specs::cmp::OrdSpec;

verus! {

/// A tuple key sorts before another exactly where its interval does.
pub(crate) proof fn lemma_key_order(a: IntervalKey, b: IntervalKey)
    ensures
        (a.cmp_spec(&b) == Ordering::Less) <==> key_lt(interval_of(a), interval_of(b)),
{
}

/// Keys that a sorted set hands out in increasing order are intervals in
/// ascending order.
pub(crate) proof fn lemma_increasing_keys_ascend(keys: Seq<&IntervalKey>, ivs: Seq<Interval>)
    requires
        increasing_seq(keys),
        ivs.len() <= keys.len(),
        forall|i: int| 0 <= i < ivs.len() ==> ivs[i] == interval_of(*keys[i]),
    ensures
        ascending(ivs),
{
    assert(vstd::laws_cmp::obeys_cmp::<IntervalKey>());
    assert(vstd::laws_cmp::obeys_cmp::<&IntervalKey>());
    vstd::std_specs::btree::axiom_increasing_seq_meaning::<&IntervalKey>(keys);
    assert forall|i: int, j: int| 0 <= i < j < ivs.len() implies key_lt(ivs[i], ivs[j]) by {
        assert(OrdSpec::cmp_spec(&keys[i], &keys[j]) is Less);
        lemma_key_order(*keys[i], *keys[j]);
    }
}

} // verus!
