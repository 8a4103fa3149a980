//! The maps the manager is made of, each with the single changes the
//! manager makes to it, stated over what the map holds.

use crate::interval::{Interval, ScheduleId};
use crate::lapper::Lapper;
use crate::model::{entered, erased, slot};
use crate::schedule::ScheduleLevel;
use std::collections::BTreeMap;
use std::collections::BTreeSet;
use std::collections::HashMap;
use std::collections::HashSet;
use std::hash::Hash;
use vstd::prelude::*;
use vstd::std_specs::hash::obeys_key_model;

verus! {

/// What a map of indices holds: for each level the set of its intervals.
pub open spec fn index_model(m: Map<ScheduleLevel, Lapper>) -> Map<ScheduleLevel, Set<Interval>> {
    m.map_values(|l: Lapper| l@.to_set())
}

/// What a map of hash sets holds.
pub open spec fn sets_model<K>(m: Map<K, HashSet<ScheduleId>>) -> Map<K, Set<ScheduleId>> {
    m.map_values(|s: HashSet<ScheduleId>| s@)
}

/// Whether every index of the map is valid.
pub open spec fn indices_wf(m: Map<ScheduleLevel, Lapper>) -> bool {
    forall|l: ScheduleLevel| #[trigger] m.contains_key(l) ==> m[l].wf()
}

/// Enters `iv` in the index of `level`, which is created where the level
/// has none yet.
pub(crate) fn index_insert(index: &mut BTreeMap<ScheduleLevel, Lapper>, level: ScheduleLevel, iv: Interval)
    requires
        indices_wf(old(index)@),
    ensures
        indices_wf(final(index)@),
        index_model(final(index)@) == index_model(old(index)@).insert(
            level,
            slot(index_model(old(index)@), level).insert(iv),
        ),
{
    let mut lapper = match index.remove(&level) {
        Some(l) => l,
        None => Lapper::new(BTreeSet::new()),
    };
    proof {
        if !old(index)@.contains_key(level) {
            lapper.lemma_view();
            assert(lapper@.len() == 0);
            assert(lapper@.to_set() =~= Set::empty());
        }
    }
    lapper.insert(iv);
    index.insert(level, lapper);
    proof {
        assert(index_model(index@) =~= index_model(old(index)@).insert(
            level,
            slot(index_model(old(index)@), level).insert(iv),
        ));
    }
}

/// Takes `iv` out of the index of `level`. The index stays, even where it
/// is empty afterwards.
pub(crate) fn index_remove(index: &mut BTreeMap<ScheduleLevel, Lapper>, level: ScheduleLevel, iv: &Interval)
    requires
        indices_wf(old(index)@),
    ensures
        indices_wf(final(index)@),
        index_model(final(index)@) == (if old(index)@.contains_key(level) {
            index_model(old(index)@).insert(level, index_model(old(index)@)[level].remove(*iv))
        } else {
            index_model(old(index)@)
        }),
{
    match index.remove(&level) {
        Some(l) => {
            let mut lapper = l;
            lapper.remove(iv);
            index.insert(level, lapper);
            proof {
                assert(index_model(index@) =~= index_model(old(index)@).insert(
                    level,
                    index_model(old(index)@)[level].remove(*iv),
                ));
            }
        },
        None => {
            proof {
                assert(index@ =~= old(index)@);
            }
        },
    }
}

/// Enters `id` in the set under `key`, which is created where the key has
/// none yet.
pub(crate) fn set_insert_at<K: Hash + Eq + Copy>(
    map: &mut HashMap<K, HashSet<ScheduleId>>,
    key: K,
    id: ScheduleId,
)
    requires
        obeys_key_model::<K>(),
    ensures
        sets_model(final(map)@) == sets_model(old(map)@).insert(
            key,
            slot(sets_model(old(map)@), key).insert(id),
        ),
{
    let mut set = match map.remove(&key) {
        Some(s) => s,
        None => HashSet::new(),
    };
    set.insert(id);
    map.insert(key, set);
    proof {
        assert(sets_model(map@) =~= sets_model(old(map)@).insert(
            key,
            slot(sets_model(old(map)@), key).insert(id),
        ));
    }
}

/// Takes `id` out of the set under `key` and says whether the set is empty
/// afterwards. Where the key has no set, nothing changes.
pub(crate) fn set_remove_at<K: Hash + Eq + Copy>(
    map: &mut HashMap<K, HashSet<ScheduleId>>,
    key: K,
    id: ScheduleId,
) -> (emptied: bool)
    requires
        obeys_key_model::<K>(),
    ensures
        sets_model(final(map)@) == (if old(map)@.contains_key(key) {
            sets_model(old(map)@).insert(key, sets_model(old(map)@)[key].remove(id))
        } else {
            sets_model(old(map)@)
        }),
        emptied == (old(map)@.contains_key(key) && sets_model(old(map)@)[key].remove(id)
            =~= Set::empty()),
{
    match map.remove(&key) {
        Some(s) => {
            let mut set = s;
            set.remove(&id);
            let emptied = set.is_empty();
            map.insert(key, set);
            proof {
                assert(sets_model(map@) =~= sets_model(old(map)@).insert(
                    key,
                    sets_model(old(map)@)[key].remove(id),
                ));
            }
            emptied
        },
        None => {
            proof {
                assert(map@ =~= old(map)@);
            }
            false
        },
    }
}


/// Enters `id` in the set under each key of `keys`.
pub(crate) fn enter_under_each(
    map: &mut HashMap<ScheduleId, HashSet<ScheduleId>>,
    keys: &Vec<ScheduleId>,
    id: ScheduleId,
)
    ensures
        sets_model(final(map)@) == entered(sets_model(old(map)@), id, keys@.to_set()),
{
    let ghost before = sets_model(map@);
    let mut i: usize = 0;
    proof {
        assert(keys@.take(0).to_set() =~= Set::empty());
        assert(sets_model(map@) =~= entered(before, id, Set::empty()));
    }
    while i < keys.len()
        invariant
            i <= keys.len(),
            sets_model(map@) == entered(before, id, keys@.take(i as int).to_set()),
        decreases keys.len() - i,
    {
        let ghost seen = keys@.take(i as int).to_set();
        set_insert_at(map, keys[i], id);
        proof {
            let k = keys@[i as int];
            assert(keys@.take(i + 1) =~= keys@.take(i as int).push(k));
            keys@.take(i as int).lemma_push_to_set_commute(k);
            assert(keys@.take(i + 1).to_set() =~= seen.insert(k));
            assert(sets_model(map@) =~~= entered(before, id, seen.insert(k)));
        }
        i = i + 1;
    }
    proof {
        assert(keys@.take(keys@.len() as int) =~= keys@);
    }
}

/// Takes `id` out of the set under each key of `keys` and returns the keys
/// whose set is empty afterwards.
pub(crate) fn erase_under_each(
    map: &mut HashMap<ScheduleId, HashSet<ScheduleId>>,
    keys: &Vec<ScheduleId>,
    id: ScheduleId,
) -> (emptied: Vec<ScheduleId>)
    requires
        keys@.no_duplicates(),
    ensures
        sets_model(final(map)@) == erased(sets_model(old(map)@), id, keys@.to_set()),
        emptied@.no_duplicates(),
        forall|k: ScheduleId|
            #![trigger emptied@.contains(k)]
            #![trigger keys@.contains(k)]
            emptied@.contains(k) <==> (keys@.contains(k) && sets_model(old(map)@).contains_key(k)
                && sets_model(old(map)@)[k].remove(id) =~= Set::empty()),
{
    let ghost before = sets_model(map@);
    let mut emptied: Vec<ScheduleId> = Vec::new();
    let mut i: usize = 0;
    proof {
        assert(keys@.take(0).to_set() =~= Set::empty());
        assert(sets_model(map@) =~= erased(before, id, Set::empty()));
    }
    while i < keys.len()
        invariant
            i <= keys.len(),
            keys@.no_duplicates(),
            sets_model(map@) == erased(before, id, keys@.take(i as int).to_set()),
            emptied@.no_duplicates(),
            forall|k: ScheduleId|
                #![trigger emptied@.contains(k)]
                #![trigger keys@.take(i as int).contains(k)]
                emptied@.contains(k) <==> (keys@.take(i as int).contains(k) && before.contains_key(k)
                    && before[k].remove(id) =~= Set::empty()),
        decreases keys.len() - i,
    {
        let ghost seen = keys@.take(i as int);
        let ghost listed = emptied@;
        let k = keys[i];
        proof {
            assert(!seen.contains(k)) by {
                if seen.contains(k) {
                    let j = choose|j: int| 0 <= j < seen.len() && seen[j] == k;
                    assert(keys@[j] == keys@[i as int]);
                }
            }
            assert(!seen.to_set().contains(k));
            assert(before.contains_key(k) ==> sets_model(map@)[k] == before[k]);
            assert(before.contains_key(k) <==> sets_model(map@).contains_key(k));
            assert(map@.contains_key(k) <==> sets_model(map@).contains_key(k));
        }
        let ghost pre = map@;
        let now_empty = set_remove_at(map, k, id);
        if now_empty {
            emptied.push(k);
        }
        proof {
            let next = seen.push(k);
            assert(keys@.take(i + 1) =~= next);
            seen.lemma_push_to_set_commute(k);
            assert(sets_model(map@) =~~= erased(before, id, next.to_set()));
            assert(now_empty == (pre.contains_key(k) && sets_model(pre)[k].remove(id)
                =~= Set::<ScheduleId>::empty()));
            assert(now_empty == (before.contains_key(k) && before[k].remove(id)
                =~= Set::<ScheduleId>::empty()));
            assert(next[seen.len() as int] == k);
            assert(next.contains(k));
            assert forall|x: ScheduleId|
                #![trigger emptied@.contains(x)]
                #![trigger keys@.take(i + 1).contains(x)]
                emptied@.contains(x) <==> (keys@.take(i + 1).contains(x) && before.contains_key(x)
                    && before[x].remove(id) =~= Set::empty()) by {
                assert(listed.contains(x) <==> (seen.contains(x) && before.contains_key(x)
                    && before[x].remove(id) =~= Set::empty()));
                assert(next.contains(x) <==> (seen.contains(x) || x == k)) by {
                    if next.contains(x) {
                        let j = choose|j: int| 0 <= j < next.len() && next[j] == x;
                        if j < seen.len() {
                            assert(seen[j] == x);
                        }
                    }
                    if seen.contains(x) {
                        let j = choose|j: int| 0 <= j < seen.len() && seen[j] == x;
                        assert(next[j] == x);
                    }
                }
                if now_empty {
                    assert(emptied@ == listed.push(k));
                    assert(emptied@.contains(x) <==> (listed.contains(x) || x == k)) by {
                        assert(emptied@[listed.len() as int] == k);
                        if listed.contains(x) {
                            let j = choose|j: int| 0 <= j < listed.len() && listed[j] == x;
                            assert(emptied@[j] == x);
                        }
                        if emptied@.contains(x) {
                            let j = choose|j: int| 0 <= j < emptied@.len() && emptied@[j] == x;
                            if j < listed.len() {
                                assert(listed[j] == x);
                            }
                        }
                    }
                } else {
                    assert(emptied@ == listed);
                }
            }
            if now_empty {
                assert(!listed.contains(k));
                assert forall|a: int, b: int|
                    0 <= a < emptied@.len() && 0 <= b < emptied@.len() && a != b implies emptied@[a]
                    != emptied@[b] by {
                    if a < listed.len() && b < listed.len() {
                        assert(listed[a] != listed[b]);
                    } else if a < listed.len() {
                        assert(listed.contains(listed[a]));
                    } else if b < listed.len() {
                        assert(listed.contains(listed[b]));
                    }
                }
            }
        }
        i = i + 1;
    }
    proof {
        assert(keys@.take(keys@.len() as int) =~= keys@);
    }
    emptied
}

} // verus!
