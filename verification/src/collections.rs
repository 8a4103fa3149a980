//! The contents of the hash sets and maps of the manager as vectors, so
//! that the loops over them can go by index.

use crate::interval::ScheduleId;
use crate::lapper::Lapper;
use crate::schedule::ScheduleLevel;
use std::collections::BTreeMap;
use std::collections::HashMap;
use std::collections::HashSet;
use vstd::prelude::*;
use vstd::std_specs::iter::IteratorSpec;

verus! {

/// The ids in `s`, each once, in the order the set hands them out.
pub(crate) fn set_items(s: &HashSet<ScheduleId>) -> (v: Vec<ScheduleId>)
    ensures
        v@.no_duplicates(),
        v@.to_set() == s@,
{
    let mut v: Vec<ScheduleId> = Vec::new();
    let ghost items = s.iter().remaining();
    for x in it: s.iter()
        invariant
            it.seq() == items,
            items.unref().to_set() == s@,
            items.no_duplicates(),
            v@.len() == it.index(),
            forall|i: int| 0 <= i < v@.len() ==> v@[i] == *items[i],
    {
        v.push(*x);
    }
    proof {
        assert(v@ =~= items.unref());
        assert forall|i: int, j: int| 0 <= i < v@.len() && 0 <= j < v@.len() && i != j implies v@[i]
            != v@[j] by {
            assert(items[i] != items[j]);
        }
    }
    v
}

/// The ids that `m` has an entry for, each once.
pub(crate) fn map_ids<V>(m: &HashMap<ScheduleId, V>) -> (v: Vec<ScheduleId>)
    ensures
        v@.no_duplicates(),
        v@.to_set() == m@.dom(),
{
    let mut v: Vec<ScheduleId> = Vec::new();
    let ghost items = m.keys().remaining();
    for x in it: m.keys()
        invariant
            it.seq() == items,
            items.unref().to_set() == m@.dom(),
            items.no_duplicates(),
            v@.len() == it.index(),
            forall|i: int| 0 <= i < v@.len() ==> v@[i] == *items[i],
    {
        v.push(*x);
    }
    proof {
        assert(v@ =~= items.unref());
        assert forall|i: int, j: int| 0 <= i < v@.len() && 0 <= j < v@.len() && i != j implies v@[i]
            != v@[j] by {
            assert(items[i] != items[j]);
        }
    }
    v
}

/// The levels that have an entry in the index `m`, each once.
pub(crate) fn index_levels(m: &BTreeMap<ScheduleLevel, Lapper>) -> (v: Vec<ScheduleLevel>)
    ensures
        v@.no_duplicates(),
        v@.to_set() == m@.dom(),
{
    let mut v: Vec<ScheduleLevel> = Vec::new();
    let ghost items = m.keys().remaining();
    for x in it: m.keys()
        invariant
            it.seq() == items,
            items.unref().to_set() == m@.dom(),
            items.no_duplicates(),
            v@.len() == it.index(),
            forall|i: int| 0 <= i < v@.len() ==> v@[i] == *items[i],
    {
        v.push(*x);
    }
    proof {
        assert(v@ =~= items.unref());
        assert forall|i: int, j: int| 0 <= i < v@.len() && 0 <= j < v@.len() && i != j implies v@[i]
            != v@[j] by {
            assert(items[i] != items[j]);
        }
    }
    v
}


/// The set of the ids in `v`.
pub(crate) fn items_set(v: &Vec<ScheduleId>) -> (s: HashSet<ScheduleId>)
    ensures
        s@ == v@.to_set(),
{
    let mut s: HashSet<ScheduleId> = HashSet::new();
    let mut i: usize = 0;
    proof {
        assert(v@.take(0).to_set() =~= Set::empty());
    }
    while i < v.len()
        invariant
            i <= v.len(),
            s@ == v@.take(i as int).to_set(),
        decreases v.len() - i,
    {
        s.insert(v[i]);
        proof {
            assert(v@.take(i + 1) =~= v@.take(i as int).push(v@[i as int]));
            v@.take(i as int).lemma_push_to_set_commute(v@[i as int]);
        }
        i = i + 1;
    }
    proof {
        assert(v@.take(v@.len() as int) =~= v@);
    }
    s
}

/// Adds the ids in `v` to `s`.
pub(crate) fn add_items(s: &mut HashSet<ScheduleId>, v: &Vec<ScheduleId>)
    ensures
        final(s)@ == old(s)@.union(v@.to_set()),
{
    let ghost had = s@;
    let mut i: usize = 0;
    proof {
        assert(v@.take(0).to_set() =~= Set::empty());
        assert(s@ =~= had.union(v@.take(0).to_set()));
    }
    while i < v.len()
        invariant
            i <= v.len(),
            s@ == had.union(v@.take(i as int).to_set()),
        decreases v.len() - i,
    {
        s.insert(v[i]);
        proof {
            assert(v@.take(i + 1) =~= v@.take(i as int).push(v@[i as int]));
            v@.take(i as int).lemma_push_to_set_commute(v@[i as int]);
            assert(s@ =~= had.union(v@.take(i + 1).to_set()));
        }
        i = i + 1;
    }
    proof {
        assert(v@.take(v@.len() as int) =~= v@);
    }
}

} // verus!
