//! Deletion of a schedule together with the descendants that lose their
//! last parent.

use crate::collections::set_items;
use crate::interval::ScheduleId;
use crate::manager::ScheduleManager;
use crate::model::{no_elements, slot};
use crate::schedule::ScheduleError;
use crate::tables::{erase_under_each, index_remove, set_remove_at, sets_model};
use std::collections::HashSet;
use vstd::prelude::*;

verus! {

impl ScheduleManager {
    /// Takes the schedule `x` out of every structure and returns the
    /// children that lose their last parent by it.
    fn detach(&mut self, x: ScheduleId) -> (orphans: Vec<ScheduleId>)
        requires
            old(self).wf(),
            old(self)@.schedules.contains_key(x),
        ensures
            final(self).wf(),
            final(self)@ == old(self)@.without(set![x]),
            orphans@.no_duplicates(),
            forall|c: ScheduleId|
                #![trigger orphans@.contains(c)]
                #![trigger old(self)@.parents[c]]
                orphans@.contains(c) <==> (old(self)@.parents.contains_key(c) && old(
                    self,
                )@.parents[c].contains(x) && no_elements(old(self)@.parents[c].remove(x))),
    {
        let ghost before = self@;
        let schedule = match self.schedules.remove(&x) {
            Some(s) => s,
            None => {
                proof {
                    assert(false);
                }
                return Vec::new();
            },
        };
        let span = schedule.interval(x);
        let level = schedule.level;
        index_remove(&mut self.all_index, level, &span);
        if schedule.exclusive {
            index_remove(&mut self.exclusive_index, level, &span);
        }
        let kids = match self.child_relations.remove(&x) {
            Some(set) => set_items(&set),
            None => Vec::new(),
        };
        proof {
            assert(kids@.to_set() =~= slot(before.children, x));
        }
        let orphans = erase_under_each(&mut self.parent_relations, &kids, x);
        let ghost mid_parents = sets_model(self.parent_relations@);
        proof {
            assert(before.parents.contains_key(x));
            assert(!before.parents[x].contains(x));
            assert(mid_parents.contains_key(x));
            assert(mid_parents[x] =~= before.parents[x]);
            assert(self.parent_relations@.contains_key(x));
            assert(self.parent_relations@[x]@ == mid_parents[x]);
        }
        let ps = match self.parent_relations.remove(&x) {
            Some(set) => set_items(&set),
            None => Vec::new(),
        };
        proof {
            assert(before.parents.contains_key(x));
            assert(ps@.to_set() =~= slot(before.parents, x));
        }
        let _ = erase_under_each(&mut self.child_relations, &ps, x);
        let emptied = set_remove_at(&mut self.level_index, level, x);
        let ghost mid_levels = sets_model(self.level_index@);
        if emptied {
            self.level_index.remove(&level);
        }
        proof {
            let after = before.detached(x);
            assert(before.all_index.contains_key(level));
            assert(before.level_index.contains_key(level));
            assert(self@.schedules =~= after.schedules);
            assert(self@.all_index =~= after.all_index);
            assert(self@.exclusive_index =~= after.exclusive_index);
            assert(self@.parents =~= after.parents);
            assert(self@.children =~= after.children) by {
                assert(sets_model(old(self).child_relations@.remove(x)) =~= before.children.remove(
                    x,
                ));
            }
            let rest = slot(before.level_index, level).remove(x);
            assert(emptied == (rest =~= Set::<ScheduleId>::empty()));
            assert(emptied == no_elements(rest)) by {
                if no_elements(rest) {
                    assert(rest =~= Set::<ScheduleId>::empty());
                }
            }
            if emptied {
                assert(self@.level_index =~~= mid_levels.remove(level));
            }
            assert(self@.level_index =~~= after.level_index);
            before.lemma_detached(x);
            before.lemma_without_inv(set![x]);
            assert forall|c: ScheduleId|
                #![trigger orphans@.contains(c)]
                #![trigger before.parents[c]]
                orphans@.contains(c) <==> (before.parents.contains_key(c)
                    && before.parents[c].contains(x) && no_elements(
                    before.parents[c].remove(x),
                )) by {
                if before.parents.contains_key(c) && before.parents[c].contains(x) {
                    assert(before.children.contains_key(x) && before.children[x].contains(c));
                    assert(kids@.to_set().contains(c));
                    assert(kids@.contains(c));
                }
                if kids@.contains(c) {
                    assert(kids@.to_set().contains(c));
                    assert(before.children[x].contains(c));
                    assert(before.parents.contains_key(c) && before.parents[c].contains(x));
                }
                if before.parents.contains_key(c) {
                    if no_elements(before.parents[c].remove(x)) {
                        assert(before.parents[c].remove(x) =~= Set::<ScheduleId>::empty());
                    }
                }
            }
        }
        orphans
    }
}


impl ScheduleManager {
    /// Deletes the schedule `schedule_id` and, transitively, every schedule
    /// that loses its last parent by the deletion. Returns the ids of all
    /// schedules removed. Each of them leaves every structure: the indices,
    /// the relations in both directions, the level index and the schedules.
    pub fn delete_schedule(&mut self, schedule_id: ScheduleId) -> (r: Result<
        HashSet<ScheduleId>,
        ScheduleError,
    >)
        requires
            old(self).wf(),
        ensures
            final(self).wf(),
            r is Ok <==> old(self)@.schedules.contains_key(schedule_id),
            r is Ok ==> r->Ok_0@ == old(self)@.cascade(schedule_id) && final(self)@ == old(
                self,
            )@.without(old(self)@.cascade(schedule_id)),
            r is Err ==> r->Err_0 == ScheduleError::ScheduleNotFound && final(self)@ == old(self)@,
    {
        if !self.schedules.contains_key(&schedule_id) {
            return Err(ScheduleError::ScheduleNotFound);
        }
        let ghost before = self@;
        let mut removed: HashSet<ScheduleId> = HashSet::new();
        let mut work = self.detach(schedule_id);
        removed.insert(schedule_id);
        proof {
            assert(removed@ =~= set![schedule_id]);
            before.lemma_without_inv(set![schedule_id]);
            assert forall|i: int| 0 <= i < work@.len() implies self@.schedules.contains_key(
                #[trigger] work@[i],
            ) && no_elements(self@.parents[work@[i]]) && before.doomed(schedule_id, work@[i]) by {
                let w = work@[i];
                assert(work@.contains(w));
                assert(before.parents.contains_key(w) && before.parents[w].contains(schedule_id));
                assert(w != schedule_id);
                assert(before.schedules.contains_key(w));
                assert forall|p: ScheduleId| #[trigger] before.parents[w].contains(p) implies p
                    == schedule_id by {
                    if p != schedule_id {
                        assert(before.parents[w].remove(schedule_id).contains(p));
                    }
                }
                assert(before.inv());
                assert(before.doomed(schedule_id, schedule_id));
                assert(before.schedules[schedule_id].level < before.schedules[w].level);
                assert(before.doomed(schedule_id, w));
                assert(self@.schedules.contains_key(w));
                assert(self@.parents[w] == before.parents[w].difference(set![schedule_id]));
                assert forall|p: ScheduleId| !self@.parents[w].contains(p) by {}
            }
            assert forall|c: ScheduleId| #[trigger]
                self@.parents.contains_key(c) && no_elements(self@.parents[c]) && !no_elements(
                    before.parents[c],
                ) implies work@.contains(c) by {
                let p = choose|p: ScheduleId| before.parents[c].contains(p);
                if p != schedule_id {
                    assert(self@.parents[c].contains(p));
                }
                assert forall|q: ScheduleId| !before.parents[c].remove(schedule_id).contains(q) by {
                    if before.parents[c].remove(schedule_id).contains(q) {
                        assert(self@.parents[c].contains(q));
                    }
                }
            }
        }
        while work.len() > 0
            invariant
                self.wf(),
                before.inv(),
                self@ == before.without(removed@),
                removed@.contains(schedule_id),
                forall|x: ScheduleId| removed@.contains(x) ==> before.doomed(schedule_id, x),
                work@.no_duplicates(),
                forall|i: int|
                    0 <= i < work@.len() ==> self@.schedules.contains_key(#[trigger] work@[i])
                        && no_elements(self@.parents[work@[i]]) && before.doomed(
                        schedule_id,
                        work@[i],
                    ),
                forall|c: ScheduleId| #[trigger]
                    self@.parents.contains_key(c) && no_elements(self@.parents[c]) && !no_elements(
                        before.parents[c],
                    ) ==> work@.contains(c),
            decreases self@.schedules.dom().len(),
        {
            let ghost mid = self@;
            let ghost gone = removed@;
            let ghost queue = work@;
            let x = match work.pop() {
                Some(x) => x,
                None => {
                    return Ok(removed);
                },
            };
            let ghost rest = work@;
            proof {
                assert(queue[queue.len() - 1] == x);
                assert(mid.schedules.contains_key(x));
                assert(!rest.contains(x)) by {
                    if rest.contains(x) {
                        let j = choose|j: int| 0 <= j < rest.len() && rest[j] == x;
                        assert(queue[j] == queue[queue.len() - 1]);
                    }
                }
            }
            let mut orphans = self.detach(x);
            let ghost orph = orphans@;
            removed.insert(x);
            work.append(&mut orphans);
            proof {
                before.lemma_without_twice(gone, set![x]);
                assert(removed@ =~= gone.union(set![x]));
                mid.lemma_without_inv(set![x]);
                assert(work@ == rest + orph);
                assert forall|c: ScheduleId| work@.contains(c) <==> (rest.contains(c)
                    || orph.contains(c)) by {
                    if work@.contains(c) {
                        let j = choose|j: int| 0 <= j < work@.len() && work@[j] == c;
                        if j < rest.len() {
                            assert(rest[j] == c);
                        } else {
                            assert(orph[j - rest.len()] == c);
                        }
                    }
                    if rest.contains(c) {
                        let j = choose|j: int| 0 <= j < rest.len() && rest[j] == c;
                        assert(work@[j] == c);
                    }
                    if orph.contains(c) {
                        let j = choose|j: int| 0 <= j < orph.len() && orph[j] == c;
                        assert(work@[rest.len() + j] == c);
                    }
                }
                assert forall|c: ScheduleId| rest.contains(c) implies queue.contains(c)
                    && mid.schedules.contains_key(c) && no_elements(mid.parents[c]) && c != x
                    && before.doomed(schedule_id, c) by {
                    let j = choose|j: int| 0 <= j < rest.len() && rest[j] == c;
                    assert(queue[j] == c);
                }
                assert forall|c: ScheduleId| orph.contains(c) implies mid.schedules.contains_key(c)
                    && c != x && before.doomed(schedule_id, c) && !no_elements(mid.parents[c])
                    && no_elements(self@.parents[c]) by {
                    assert(mid.parents.contains_key(c) && mid.parents[c].contains(x));
                    assert(before.parents.contains_key(c) && before.parents[c].contains(x));
                    assert forall|p: ScheduleId| #[trigger]
                        before.parents[c].contains(p) implies before.schedules[p].level
                        < before.schedules[c].level && before.doomed(schedule_id, p) by {
                        if !gone.contains(p) && p != x {
                            assert(mid.parents[c].remove(x).contains(p));
                        }
                    }
                    assert forall|p: ScheduleId| !self@.parents[c].contains(p) by {
                        if self@.parents[c].contains(p) {
                            assert(mid.parents[c].remove(x).contains(p));
                        }
                    }
                }
                assert forall|i: int| 0 <= i < work@.len() implies self@.schedules.contains_key(
                    #[trigger] work@[i],
                ) && no_elements(self@.parents[work@[i]]) && before.doomed(
                    schedule_id,
                    work@[i],
                ) by {
                    let c = work@[i];
                    assert(work@.contains(c));
                    if rest.contains(c) {
                        assert forall|p: ScheduleId| !self@.parents[c].contains(p) by {
                            if self@.parents[c].contains(p) {
                                assert(mid.parents[c].contains(p));
                            }
                        }
                    }
                }
                assert(work@.no_duplicates()) by {
                    assert forall|i: int, j: int|
                        0 <= i < work@.len() && 0 <= j < work@.len() && i != j implies work@[i]
                        != work@[j] by {
                        if i < rest.len() && j < rest.len() {
                            assert(queue[i] != queue[j]);
                        } else if i >= rest.len() && j >= rest.len() {
                            assert(orph[i - rest.len()] != orph[j - rest.len()]);
                        } else if i < rest.len() {
                            assert(rest.contains(rest[i]));
                            assert(orph.contains(orph[j - rest.len()]));
                        } else {
                            assert(rest.contains(rest[j]));
                            assert(orph.contains(orph[i - rest.len()]));
                        }
                    }
                }
                assert forall|c: ScheduleId| #[trigger]
                    self@.parents.contains_key(c) && no_elements(self@.parents[c]) && !no_elements(
                        before.parents[c],
                    ) implies work@.contains(c) by {
                    assert(mid.parents.contains_key(c) && c != x);
                    if no_elements(mid.parents[c]) {
                        assert(queue.contains(c));
                        let j = choose|j: int| 0 <= j < queue.len() && queue[j] == c;
                        assert(rest[j] == c);
                        assert(rest.contains(c));
                    } else {
                        let p = choose|p: ScheduleId| mid.parents[c].contains(p);
                        if p != x {
                            assert(self@.parents[c].contains(p));
                        }
                        assert forall|q: ScheduleId| !mid.parents[c].remove(x).contains(q) by {
                            if mid.parents[c].remove(x).contains(q) {
                                assert(self@.parents[c].contains(q));
                            }
                        }
                        assert(orph.contains(c));
                    }
                }
                assert(self@.schedules.dom() =~= mid.schedules.dom().remove(x));
            }
        }
        proof {
            assert forall|c: ScheduleId|
                #![trigger before.parents.contains_key(c)]
                before.parents.contains_key(c) && !removed@.contains(c) && (exists|p: ScheduleId|
                    before.parents[c].contains(p)) implies exists|p: ScheduleId|
                before.parents[c].contains(p) && !removed@.contains(p) by {
                assert(self@.parents.contains_key(c));
                if no_elements(self@.parents[c]) {
                    assert(work@.contains(c));
                    let j = choose|j: int| 0 <= j < work@.len() && work@[j] == c;
                } else {
                    let p = choose|p: ScheduleId| self@.parents[c].contains(p);
                    assert(before.parents[c].contains(p) && !removed@.contains(p));
                }
            }
            before.lemma_cascade_is(schedule_id, removed@);
        }
        Ok(removed)
    }
}

} // verus!
