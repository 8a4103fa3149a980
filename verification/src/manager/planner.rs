//! Queries: from which schedules a query picks, and which it returns.

use crate::collections::{index_levels, map_ids, set_items};
use crate::interval::{Interval, ScheduleId};
use crate::manager::ScheduleManager;
use crate::query::QueryOptions;
use crate::schedule::Schedule;
use std::collections::HashSet;
use vstd::prelude::*;

verus! {

/// The ids of `ids` that `set` holds, where `want`, or those that it does
/// not hold, in the order of `ids`.
fn keep_where(ids: &Vec<ScheduleId>, set: &HashSet<ScheduleId>, want: bool) -> (kept: Vec<
    ScheduleId,
>)
    requires
        ids@.no_duplicates(),
    ensures
        kept@.no_duplicates(),
        forall|x: ScheduleId|
            #![trigger kept@.contains(x)]
            #![trigger ids@.contains(x)]
            kept@.contains(x) <==> (ids@.contains(x) && set@.contains(x) == want),
{
    let mut kept: Vec<ScheduleId> = Vec::new();
    let mut i: usize = 0;
    while i < ids.len()
        invariant
            i <= ids.len(),
            ids@.no_duplicates(),
            kept@.no_duplicates(),
            forall|x: ScheduleId|
                #![trigger kept@.contains(x)]
                #![trigger ids@.take(i as int).contains(x)]
                kept@.contains(x) <==> (ids@.take(i as int).contains(x) && set@.contains(x)
                    == want),
        decreases ids.len() - i,
    {
        let ghost seen = ids@.take(i as int);
        let ghost listed = kept@;
        let id = ids[i];
        let held = set.contains(&id);
        proof {
            assert(!seen.contains(id)) by {
                if seen.contains(id) {
                    let j = choose|j: int| 0 <= j < seen.len() && seen[j] == id;
                    assert(ids@[j] == ids@[i as int]);
                }
            }
        }
        if held == want {
            kept.push(id);
        }
        proof {
            let next = seen.push(id);
            assert(ids@.take(i + 1) =~= next);
            assert(next[seen.len() as int] == id);
            assert forall|x: ScheduleId|
                #![trigger kept@.contains(x)]
                #![trigger ids@.take(i + 1).contains(x)]
                kept@.contains(x) <==> (ids@.take(i + 1).contains(x) && set@.contains(x)
                    == want) by {
                assert(listed.contains(x) <==> (seen.contains(x) && set@.contains(x) == want));
                assert(next.contains(x) <==> (seen.contains(x) || x == id)) by {
                    if next.contains(x) {
                        let j = choose|j: int| 0 <= j < next.len() && next[j] == x;
                        if j < seen.len() {
                            assert(seen[j] == x);
                        }
                    }
                    if seen.contains(x) {
                        let j = choose|j: int| 0 <= j < seen.len() && seen[j] == x;
                        assert(next[j] == x);
                    }
                }
                if held == want {
                    assert(kept@ == listed.push(id));
                    assert(kept@.contains(x) <==> (listed.contains(x) || x == id)) by {
                        assert(kept@[listed.len() as int] == id);
                        if listed.contains(x) {
                            let j = choose|j: int| 0 <= j < listed.len() && listed[j] == x;
                            assert(kept@[j] == x);
                        }
                        if kept@.contains(x) {
                            let j = choose|j: int| 0 <= j < kept@.len() && kept@[j] == x;
                            if j < listed.len() {
                                assert(listed[j] == x);
                            }
                        }
                    }
                } else {
                    assert(kept@ == listed);
                }
            }
            if held == want {
                assert(!listed.contains(id));
                assert forall|a: int, b: int|
                    0 <= a < kept@.len() && 0 <= b < kept@.len() && a != b implies kept@[a]
                    != kept@[b] by {
                    if a < listed.len() && b < listed.len() {
                        assert(listed[a] != listed[b]);
                    } else if a < listed.len() {
                        assert(listed.contains(listed[a]));
                    } else if b < listed.len() {
                        assert(listed.contains(listed[b]));
                    }
                }
            }
        }
        i = i + 1;
    }
    proof {
        assert(ids@.take(ids@.len() as int) =~= ids@);
    }
    kept
}

impl ScheduleManager {
    /// The ids of the exclusive schedules, gathered from the exclusive
    /// indices of all levels.
    fn exclusive_ids(&self) -> (ids: HashSet<ScheduleId>)
        requires
            self.wf(),
        ensures
            forall|id: ScheduleId|
                ids@.contains(id) <==> (#[trigger] self@.schedules.contains_key(id)
                    && self@.schedules[id].exclusive),
    {
        let mut ids: HashSet<ScheduleId> = HashSet::new();
        let levels = index_levels(&self.exclusive_index);
        let mut i: usize = 0;
        while i < levels.len()
            invariant
                i <= levels.len(),
                self.wf(),
                levels@.to_set() == self.exclusive_index@.dom(),
                forall|id: ScheduleId| #[trigger]
                    ids@.contains(id) <==> exists|j: int, iv: Interval|
                        0 <= j < i && #[trigger] self.exclusive_index@[levels@[j]]@.contains(iv)
                            && iv.val == id,
            decreases levels.len() - i,
        {
            let level = levels[i];
            proof {
                assert(levels@.to_set().contains(level));
            }
            match self.exclusive_index.get(&level) {
                Some(lapper) => {
                    let ivs = lapper.intervals();
                    let ghost base = ids@;
                    let mut k: usize = 0;
                    while k < ivs.len()
                        invariant
                            k <= ivs.len(),
                            forall|id: ScheduleId| #[trigger]
                                ids@.contains(id) <==> (base.contains(id) || exists|n: int|
                                    0 <= n < k && (#[trigger] ivs@[n]).val == id),
                        decreases ivs.len() - k,
                    {
                        let ghost pre = ids@;
                        ids.insert(ivs[k].val);
                        proof {
                            assert forall|id: ScheduleId| #[trigger]
                                ids@.contains(id) <==> (base.contains(id) || exists|n: int|
                                    0 <= n < k + 1 && (#[trigger] ivs@[n]).val == id) by {
                                assert(ids@.contains(id) <==> (pre.contains(id) || id
                                    == ivs@[k as int].val));
                                if exists|n: int| 0 <= n < k + 1 && (#[trigger] ivs@[n]).val == id {
                                    let n = choose|n: int|
                                        0 <= n < k + 1 && (#[trigger] ivs@[n]).val == id;
                                    if n < k {
                                        assert(pre.contains(id));
                                    }
                                }
                                if pre.contains(id) && !base.contains(id) {
                                    let n = choose|n: int|
                                        0 <= n < k && (#[trigger] ivs@[n]).val == id;
                                    assert(0 <= n < k + 1 && ivs@[n].val == id);
                                }
                                if id == ivs@[k as int].val {
                                    assert(0 <= k < k + 1 && ivs@[k as int].val == id);
                                }
                            }
                        }
                        k = k + 1;
                    }
                    proof {
                        assert forall|id: ScheduleId| #[trigger]
                            ids@.contains(id) <==> exists|j: int, iv: Interval|
                                0 <= j < i + 1 && #[trigger] self.exclusive_index@[levels@[j]]@.contains(
                                    iv,
                                ) && iv.val == id by {
                            if ids@.contains(id) {
                                if base.contains(id) {
                                    let (j, iv) = choose|j: int, iv: Interval|
                                        0 <= j < i && #[trigger] self.exclusive_index@[levels@[j]]@.contains(
                                            iv,
                                        ) && iv.val == id;
                                    assert(0 <= j < i + 1 && self.exclusive_index@[levels@[j]]@.contains(
                                        iv,
                                    ) && iv.val == id);
                                } else {
                                    let n = choose|n: int|
                                        0 <= n < ivs@.len() && (#[trigger] ivs@[n]).val == id;
                                    assert(lapper@.contains(ivs@[n]));
                                    assert(0 <= i < i + 1 && self.exclusive_index@[levels@[i as int]]@.contains(
                                        ivs@[n],
                                    ) && ivs@[n].val == id);
                                }
                            }
                            if exists|j: int, iv: Interval|
                                0 <= j < i + 1 && #[trigger] self.exclusive_index@[levels@[j]]@.contains(
                                    iv,
                                ) && iv.val == id {
                                let (j, iv) = choose|j: int, iv: Interval|
                                    0 <= j < i + 1 && #[trigger] self.exclusive_index@[levels@[j]]@.contains(
                                        iv,
                                    ) && iv.val == id;
                                if j < i {
                                    assert(base.contains(id));
                                } else {
                                    let n = choose|n: int| 0 <= n < ivs@.len() && ivs@[n] == iv;
                                    assert(ivs@[n].val == id);
                                }
                            }
                        }
                    }
                },
                None => {
                    proof {
                        assert(false);
                    }
                },
            }
            i = i + 1;
        }
        proof {
            let m = self@;
            assert forall|id: ScheduleId|
                ids@.contains(id) <==> (#[trigger] m.schedules.contains_key(id)
                    && m.schedules[id].exclusive) by {
                if ids@.contains(id) {
                    let (j, iv) = choose|j: int, iv: Interval|
                        0 <= j < levels@.len() && #[trigger] self.exclusive_index@[levels@[j]]@.contains(
                            iv,
                        ) && iv.val == id;
                    let l = levels@[j];
                    assert(levels@.to_set().contains(l));
                    assert(self.exclusive_index@[l]@.to_set().contains(iv));
                    assert(m.exclusive_index.contains_key(l) && m.exclusive_index[l].contains(iv));
                }
                if m.schedules.contains_key(id) && m.schedules[id].exclusive {
                    let l = m.schedules[id].level;
                    let iv = m.schedules[id].span(id);
                    assert(m.exclusive_index.contains_key(l) && m.exclusive_index[l].contains(iv));
                    assert(levels@.to_set().contains(l));
                    let j = choose|j: int| 0 <= j < levels@.len() && levels@[j] == l;
                    assert(self.exclusive_index@[l]@.to_set().contains(iv));
                    assert(self.exclusive_index@[levels@[j]]@.contains(iv) && iv.val == id);
                }
            }
        }
        ids
    }

    /// The ids among which the query looks: those of the level where the
    /// query names one, narrowed to the exclusive schedules or to the others
    /// where the query asks for that, and all ids where it asks for neither.
    /// `None` where the query names a level at which no schedule stands.
    fn candidates(&self, opts: &QueryOptions) -> (r: Option<Vec<ScheduleId>>)
        requires
            self.wf(),
        ensures
            r is None ==> forall|id: ScheduleId| #[trigger]
                self@.schedules.contains_key(id) ==> !opts.selects_kind(self@.schedules[id]),
            r is Some ==> r->0@.no_duplicates(),
            r is Some ==> forall|id: ScheduleId| #[trigger]
                self@.schedules.contains_key(id) ==> (r->0@.contains(id) <==> opts.selects_kind(
                    self@.schedules[id],
                )),
    {
        let seeded: Option<Vec<ScheduleId>> = match opts.level {
            Some(level) => {
                match self.level_index.get(&level) {
                    Some(set) => Some(set_items(set)),
                    None => {
                        return None;
                    },
                }
            },
            None => None,
        };
        proof {
            if opts.level is Some {
                let l = opts.level->0;
                let v = seeded->0@;
                assert(self@.level_index.contains_key(l));
                assert forall|id: ScheduleId| #[trigger]
                    self@.schedules.contains_key(id) implies (v.contains(id)
                    <==> self@.schedules[id].level == l) by {
                    assert(v.to_set().contains(id) <==> v.contains(id));
                    assert(self@.level_index[l] == v.to_set());
                }
            }
        }
        match opts.exclusive {
            Some(want) => {
                let excl = self.exclusive_ids();
                let base = match seeded {
                    Some(c) => c,
                    None => {
                        if want {
                            set_items(&excl)
                        } else {
                            map_ids(&self.schedules)
                        }
                    },
                };
                let kept = keep_where(&base, &excl, want);
                proof {
                    assert forall|id: ScheduleId| #[trigger]
                        self@.schedules.contains_key(id) implies (kept@.contains(id)
                        <==> opts.selects_kind(self@.schedules[id])) by {
                        assert(base@.to_set().contains(id) <==> base@.contains(id));
                    }
                }
                Some(kept)
            },
            None => {
                let base = match seeded {
                    Some(c) => c,
                    None => map_ids(&self.schedules),
                };
                proof {
                    assert forall|id: ScheduleId| #[trigger]
                        self@.schedules.contains_key(id) implies (base@.contains(id)
                        <==> opts.selects_kind(self@.schedules[id])) by {
                        assert(base@.to_set().contains(id) <==> base@.contains(id));
                    }
                }
                Some(base)
            },
        }
    }

    /// The schedules that pass every filter of `opts` and that `matcher`
    /// accepts, each once, in no particular order. The candidates are read
    /// off the level index and the exclusive indices as far as the query
    /// allows; the filters on name and time and the matcher are then applied
    /// to each candidate.
    pub fn query_schedule_matching<F: Fn(&Schedule) -> bool>(
        &self,
        opts: QueryOptions,
        matcher: F,
    ) -> (out: Vec<(ScheduleId, Schedule)>)
        requires
            self.wf(),
            forall|s: &Schedule| #[trigger] call_requires(matcher, (s,)),
        ensures
            forall|i: int|
                0 <= i < out@.len() ==> self@.schedules.contains_key((#[trigger] out@[i]).0)
                    && out@[i].1 == self@.schedules[out@[i].0] && opts.selects(out@[i].1)
                    && call_ensures(matcher, (&out@[i].1,), true),
            forall|id: ScheduleId| #[trigger]
                self@.schedules.contains_key(id) && opts.selects(self@.schedules[id]) ==> (
                exists|i: int| 0 <= i < out@.len() && (#[trigger] out@[i]).0 == id) || call_ensures(
                    matcher,
                    (&self@.schedules[id],),
                    false,
                ),
            forall|i: int, j: int|
                0 <= i < j < out@.len() ==> (#[trigger] out@[i]).0 != (#[trigger] out@[j]).0,
    {
        let mut out: Vec<(ScheduleId, Schedule)> = Vec::new();
        let ids = match self.candidates(&opts) {
            Some(ids) => ids,
            None => {
                return out;
            },
        };
        let mut i: usize = 0;
        while i < ids.len()
            invariant
                i <= ids.len(),
                ids@.no_duplicates(),
                forall|s: &Schedule| #[trigger] call_requires(matcher, (s,)),
                forall|id: ScheduleId| #[trigger]
                    self@.schedules.contains_key(id) ==> (ids@.contains(id)
                        <==> opts.selects_kind(self@.schedules[id])),
                forall|n: int|
                    0 <= n < out@.len() ==> self@.schedules.contains_key((#[trigger] out@[n]).0)
                        && out@[n].1 == self@.schedules[out@[n].0] && opts.selects(out@[n].1)
                        && call_ensures(matcher, (&out@[n].1,), true) && exists|k: int|
                        0 <= k < i && ids@[k] == out@[n].0,
                forall|k: int|
                    0 <= k < i && self@.schedules.contains_key(#[trigger] ids@[k])
                        && opts.selects_content(self@.schedules[ids@[k]]) ==> (exists|n: int|
                        0 <= n < out@.len() && (#[trigger] out@[n]).0 == ids@[k]) || call_ensures(
                        matcher,
                        (&self@.schedules[ids@[k]],),
                        false,
                    ),
                forall|a: int, b: int|
                    0 <= a < b < out@.len() ==> (#[trigger] out@[a]).0 != (#[trigger] out@[b]).0,
            decreases ids.len() - i,
        {
            let id = ids[i];
            let ghost listed = out@;
            match self.schedules.get(&id) {
                Some(schedule) => {
                    proof {
                        assert(ids@.contains(id));
                    }
                    let wanted = if opts.accepts_content(schedule) {
                        matcher(schedule)
                    } else {
                        false
                    };
                    if wanted {
                        out.push((id, schedule.clone()));
                        proof {
                            assert(out@[listed.len() as int].0 == id);
                            assert(out@[listed.len() as int].1 == self@.schedules[id]);
                            assert(opts.selects_kind(self@.schedules[id]));
                            assert(opts.selects(out@[listed.len() as int].1));
                            assert(call_ensures(matcher, (&out@[listed.len() as int].1,), true));
                            assert forall|n: int| 0 <= n < listed.len() implies out@[n]
                                == listed[n] by {}
                            assert forall|a: int, b: int| 0 <= a < b < out@.len() implies (
                            #[trigger] out@[a]).0 != (#[trigger] out@[b]).0 by {
                                if b == listed.len() {
                                    let k = choose|k: int| 0 <= k < i && ids@[k] == listed[a].0;
                                    assert(ids@[k] != ids@[i as int]);
                                }
                            }
                        }
                    }
                    proof {
                        assert forall|n: int| 0 <= n < out@.len() implies exists|k: int|
                            0 <= k < i + 1 && ids@[k] == (#[trigger] out@[n]).0 by {
                            if n < listed.len() {
                                let k = choose|k: int| 0 <= k < i && ids@[k] == listed[n].0;
                                assert(0 <= k < i + 1 && ids@[k] == out@[n].0);
                            } else {
                                assert(0 <= i < i + 1 && ids@[i as int] == out@[n].0);
                            }
                        }
                        assert forall|k: int|
                            0 <= k < i + 1 && self@.schedules.contains_key(#[trigger] ids@[k])
                                && opts.selects_content(self@.schedules[ids@[k]]) implies (
                        exists|n: int| 0 <= n < out@.len() && (#[trigger] out@[n]).0 == ids@[k])
                            || call_ensures(matcher, (&self@.schedules[ids@[k]],), false) by {
                            if k < i {
                                if exists|n: int|
                                    0 <= n < listed.len() && (#[trigger] listed[n]).0 == ids@[k] {
                                    let n = choose|n: int|
                                        0 <= n < listed.len() && (#[trigger] listed[n]).0
                                            == ids@[k];
                                    assert(out@[n].0 == ids@[k]);
                                }
                            }
                        }
                    }
                },
                None => {
                    proof {
                        assert forall|n: int| 0 <= n < out@.len() implies exists|k: int|
                            0 <= k < i + 1 && ids@[k] == (#[trigger] out@[n]).0 by {
                            let k = choose|k: int| 0 <= k < i && ids@[k] == listed[n].0;
                            assert(0 <= k < i + 1 && ids@[k] == out@[n].0);
                        }
                    }
                },
            }
            i = i + 1;
        }
        proof {
            assert forall|id: ScheduleId| #[trigger]
                self@.schedules.contains_key(id) && opts.selects(self@.schedules[id]) implies (
            exists|n: int| 0 <= n < out@.len() && (#[trigger] out@[n]).0 == id) || call_ensures(
                matcher,
                (&self@.schedules[id],),
                false,
            ) by {
                assert(ids@.contains(id));
                let k = choose|k: int| 0 <= k < ids@.len() && ids@[k] == id;
                assert(self@.schedules.contains_key(ids@[k]));
            }
        }
        out
    }

    /// The schedules that pass every filter of `opts`, each once, in no
    /// particular order.
    pub fn query_schedule(&self, opts: QueryOptions) -> (out: Vec<(ScheduleId, Schedule)>)
        requires
            self.wf(),
        ensures
            forall|i: int|
                0 <= i < out@.len() ==> self@.schedules.contains_key((#[trigger] out@[i]).0)
                    && out@[i].1 == self@.schedules[out@[i].0] && opts.selects(out@[i].1),
            forall|id: ScheduleId| #[trigger]
                self@.schedules.contains_key(id) && opts.selects(self@.schedules[id]) ==> exists|
                    i: int,
                | 0 <= i < out@.len() && (#[trigger] out@[i]).0 == id,
            forall|i: int, j: int|
                0 <= i < j < out@.len() ==> (#[trigger] out@[i]).0 != (#[trigger] out@[j]).0,
    {
        let every = |s: &Schedule| -> (b: bool)
            ensures
                b,
            { true };
        self.query_schedule_matching(opts, every)
    }
}

} // verus!
