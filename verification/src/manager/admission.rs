//! Admission: whether a schedule may enter the manager, and its entry.

use crate::collections::{add_items, index_levels, items_set, set_items};
use crate::ids::fresh_id;
use crate::interval::{Interval, ScheduleId};
use crate::lapper::Lapper;
use crate::manager::ScheduleManager;
use crate::model::slot;
use crate::schedule::{Schedule, ScheduleError, ScheduleLevel};
use crate::tables::{enter_under_each, index_insert, indices_wf, set_insert_at};
use std::collections::BTreeMap;
use std::collections::HashSet;
use vstd::prelude::*;

verus! {

/// Whether `lapper` holds an interval that overlaps the range of `schedule`
/// and belongs to none of `parents`.
fn conflict_in(lapper: &Lapper, schedule: &Schedule, parents: &HashSet<ScheduleId>) -> (b: bool)
    requires
        lapper.wf(),
        schedule.start < schedule.end,
    ensures
        b == exists|iv: Interval|
            #[trigger] lapper@.to_set().contains(iv) && iv.overlaps(schedule.start, schedule.end)
                && !parents@.contains(iv.val),
{
    let ghost found = crate::tree::overlapping(lapper@, schedule.start, schedule.end);
    let ghost mut seen: Seq<Interval> = Seq::empty();
    let mut it = lapper.find_iter(schedule.start, schedule.end);
    proof {
        assert(found =~= seen + it.remaining());
    }
    loop
        invariant
            it.wf(),
            found == crate::tree::overlapping(lapper@, schedule.start, schedule.end),
            found == seen + it.remaining(),
            forall|j: int| 0 <= j < seen.len() ==> parents@.contains(#[trigger] seen[j].val),
        decreases it.remaining().len(),
    {
        let ghost due = it.remaining();
        match it.next() {
            None => {
                proof {
                    assert(found =~= seen);
                    assert forall|iv: Interval|
                        #[trigger] lapper@.to_set().contains(iv) && iv.overlaps(
                            schedule.start,
                            schedule.end,
                        ) implies parents@.contains(iv.val) by {
                        crate::tree::lemma_overlapping_contains(
                            lapper@,
                            schedule.start,
                            schedule.end,
                            iv,
                        );
                        assert(lapper@.contains(iv));
                        assert(found.contains(iv));
                        let j = choose|j: int| 0 <= j < found.len() && found[j] == iv;
                        assert(parents@.contains(seen[j].val));
                    }
                }
                return false;
            },
            Some(iv) => {
                if !parents.contains(&iv.val) {
                    proof {
                        assert(found[seen.len() as int] == *iv);
                        assert(found.contains(*iv));
                        crate::tree::lemma_overlapping_contains(
                            lapper@,
                            schedule.start,
                            schedule.end,
                            *iv,
                        );
                        assert(lapper@.contains(*iv));
                        assert(lapper@.to_set().contains(*iv));
                    }
                    return true;
                }
                proof {
                    let next = seen.push(*iv);
                    assert(found =~= next + due.drop_first());
                    seen = next;
                }
            },
        }
    }
}

/// Whether `l` is a level that the search in the given direction looks at:
/// at most `level` where `upward`, at least `level` otherwise.
spec fn level_in_reach(l: ScheduleLevel, level: ScheduleLevel, upward: bool) -> bool {
    if upward {
        l <= level
    } else {
        l >= level
    }
}

/// Whether some index of `indices`, at a level in reach of the schedule's in
/// the given direction, holds an interval that overlaps the range of
/// `schedule` and belongs to none of `parents`.
fn conflict_among(
    indices: &BTreeMap<ScheduleLevel, Lapper>,
    schedule: &Schedule,
    parents: &HashSet<ScheduleId>,
    upward: bool,
) -> (b: bool)
    requires
        indices_wf(indices@),
        schedule.start < schedule.end,
    ensures
        b == exists|l: ScheduleLevel, iv: Interval|
            indices@.contains_key(l) && level_in_reach(l, schedule.level, upward)
                && #[trigger] indices@[l]@.to_set().contains(iv) && iv.overlaps(
                schedule.start,
                schedule.end,
            ) && !parents@.contains(iv.val),
{
    let levels = index_levels(indices);
    let mut i: usize = 0;
    while i < levels.len()
        invariant
            i <= levels.len(),
            indices_wf(indices@),
            schedule.start < schedule.end,
            levels@.to_set() == indices@.dom(),
            forall|j: int, iv: Interval|
                0 <= j < i && level_in_reach(levels@[j], schedule.level, upward)
                    && #[trigger] indices@[levels@[j]]@.to_set().contains(iv) && iv.overlaps(
                    schedule.start,
                    schedule.end,
                ) ==> parents@.contains(iv.val),
        decreases levels.len() - i,
    {
        let level = levels[i];
        proof {
            assert(levels@.to_set().contains(level));
            assert(indices@.contains_key(level));
        }
        let in_reach = if upward {
            level <= schedule.level
        } else {
            level >= schedule.level
        };
        if in_reach {
            match indices.get(&level) {
                Some(lapper) => {
                    if conflict_in(lapper, schedule, parents) {
                        return true;
                    }
                },
                None => {},
            }
        }
        i = i + 1;
    }
    proof {
        assert forall|l: ScheduleLevel, iv: Interval|
            indices@.contains_key(l) && level_in_reach(l, schedule.level, upward)
                && #[trigger] indices@[l]@.to_set().contains(iv) && iv.overlaps(
                schedule.start,
                schedule.end,
            ) implies parents@.contains(iv.val) by {
            assert(levels@.to_set().contains(l));
            let j = choose|j: int| 0 <= j < levels@.len() && levels@[j] == l;
            assert(indices@[levels@[j]]@.to_set().contains(iv));
        }
    }
    false
}

impl ScheduleManager {
    /// Decides whether the manager admits `schedule` under `parents`. The
    /// checks run in this order and the first that fails decides: the range
    /// is not empty; every parent exists, has a strictly lower level and
    /// contains the range; no exclusive schedule at the same level or above
    /// overlaps the range, unless it is one of the parents; and, where the
    /// schedule is exclusive itself, no schedule at the same level or below
    /// overlaps it, unless it is one of the parents.
    pub fn validate_schedule(&self, schedule: &Schedule, parents: &HashSet<ScheduleId>) -> (r:
        Result<(), ScheduleError>)
        requires
            self.wf(),
        ensures
            r is Ok <==> self@.admits(*schedule, parents@),
            r is Err ==> self@.refuses_with(*schedule, parents@, r->Err_0),
    {
        if schedule.start >= schedule.end {
            return Err(ScheduleError::StartAfterEnd);
        }
        let ps = set_items(parents);
        let mut i: usize = 0;
        while i < ps.len()
            invariant
                i <= ps.len(),
                schedule.start < schedule.end,
                ps@.to_set() == parents@,
                forall|j: int| 0 <= j < i ==> self@.parent_defect(*schedule, #[trigger] ps@[j]) is None,
            decreases ps.len() - i,
        {
            proof {
                assert(ps@.to_set().contains(ps@[i as int]));
            }
            match self.schedules.get(&ps[i]) {
                Some(parent) => {
                    if parent.level >= schedule.level {
                        proof {
                            assert(self@.parent_defect(*schedule, ps@[i as int]) == Some(
                                ScheduleError::LevelExceedsParent,
                            ));
                        }
                        return Err(ScheduleError::LevelExceedsParent);
                    }
                    if parent.start > schedule.start || parent.end < schedule.end {
                        proof {
                            assert(self@.parent_defect(*schedule, ps@[i as int]) == Some(
                                ScheduleError::TimeRangeExceedsParent,
                            ));
                        }
                        return Err(ScheduleError::TimeRangeExceedsParent);
                    }
                },
                None => {
                    proof {
                        assert(self@.parent_defect(*schedule, ps@[i as int]) == Some(
                            ScheduleError::ParentNotFound,
                        ));
                    }
                    return Err(ScheduleError::ParentNotFound);
                },
            }
            i = i + 1;
        }
        proof {
            assert forall|p: ScheduleId| parents@.contains(p) implies self@.parent_defect(
                *schedule,
                p,
            ) is None by {
                assert(ps@.to_set().contains(p));
                let j = choose|j: int| 0 <= j < ps@.len() && ps@[j] == p;
                assert(self@.parent_defect(*schedule, ps@[j]) is None);
            }
        }
        let from_above = conflict_among(&self.exclusive_index, schedule, parents, true);
        proof {
            self.lemma_blocked_from_above(*schedule, parents@);
        }
        if from_above {
            return Err(ScheduleError::TimeRangeOverlaps);
        }
        if schedule.exclusive {
            let below = conflict_among(&self.all_index, schedule, parents, false);
            proof {
                self.lemma_blocks_below(*schedule, parents@);
            }
            if below {
                return Err(ScheduleError::TimeRangeOverlaps);
            }
        }
        Ok(())
    }

    /// An exclusive schedule blocks `s` from above exactly where its
    /// interval is found in the exclusive index of a level up to that of
    /// `s`.
    proof fn lemma_blocked_from_above(&self, s: Schedule, parents: Set<ScheduleId>)
        requires
            self.wf(),
        ensures
            self@.blocked_from_above(s, parents) <==> exists|l: ScheduleLevel, iv: Interval|
                self.exclusive_index@.contains_key(l) && level_in_reach(l, s.level, true)
                    && #[trigger] self.exclusive_index@[l]@.to_set().contains(iv) && iv.overlaps(
                    s.start,
                    s.end,
                ) && !parents.contains(iv.val),
    {
        let m = self@;
        if m.blocked_from_above(s, parents) {
            let id = choose|id: ScheduleId|
                #[trigger] m.schedules.contains_key(id) && m.schedules[id].exclusive
                    && m.schedules[id].level <= s.level && m.schedules[id].overlaps(s.start, s.end)
                    && !parents.contains(id);
            let l = m.schedules[id].level;
            let iv = m.schedules[id].span(id);
            assert(m.exclusive_index.contains_key(l) && m.exclusive_index[l].contains(iv));
            assert(self.exclusive_index@.contains_key(l));
            assert(self.exclusive_index@[l]@.to_set().contains(iv));
        }
        if exists|l: ScheduleLevel, iv: Interval|
            self.exclusive_index@.contains_key(l) && level_in_reach(l, s.level, true)
                && #[trigger] self.exclusive_index@[l]@.to_set().contains(iv) && iv.overlaps(
                s.start,
                s.end,
            ) && !parents.contains(iv.val) {
            let (l, iv) = choose|l: ScheduleLevel, iv: Interval|
                self.exclusive_index@.contains_key(l) && level_in_reach(l, s.level, true)
                    && #[trigger] self.exclusive_index@[l]@.to_set().contains(iv) && iv.overlaps(
                    s.start,
                    s.end,
                ) && !parents.contains(iv.val);
            assert(m.exclusive_index.contains_key(l) && m.exclusive_index[l].contains(iv));
            assert(m.schedules.contains_key(iv.val));
        }
    }

    /// An exclusive `s` blocks a schedule below exactly where that
    /// schedule's interval is found in the index of a level from that of
    /// `s` on.
    proof fn lemma_blocks_below(&self, s: Schedule, parents: Set<ScheduleId>)
        requires
            self.wf(),
            s.exclusive,
        ensures
            self@.blocks_below(s, parents) <==> exists|l: ScheduleLevel, iv: Interval|
                self.all_index@.contains_key(l) && level_in_reach(l, s.level, false)
                    && #[trigger] self.all_index@[l]@.to_set().contains(iv) && iv.overlaps(
                    s.start,
                    s.end,
                ) && !parents.contains(iv.val),
    {
        let m = self@;
        if m.blocks_below(s, parents) {
            let id = choose|id: ScheduleId|
                #[trigger] m.schedules.contains_key(id) && m.schedules[id].level >= s.level
                    && m.schedules[id].overlaps(s.start, s.end) && !parents.contains(id);
            let l = m.schedules[id].level;
            let iv = m.schedules[id].span(id);
            assert(m.all_index.contains_key(l) && m.all_index[l].contains(iv));
            assert(self.all_index@.contains_key(l));
            assert(self.all_index@[l]@.to_set().contains(iv));
        }
        if exists|l: ScheduleLevel, iv: Interval|
            self.all_index@.contains_key(l) && level_in_reach(l, s.level, false)
                && #[trigger] self.all_index@[l]@.to_set().contains(iv) && iv.overlaps(
                s.start,
                s.end,
            ) && !parents.contains(iv.val) {
            let (l, iv) = choose|l: ScheduleLevel, iv: Interval|
                self.all_index@.contains_key(l) && level_in_reach(l, s.level, false)
                    && #[trigger] self.all_index@[l]@.to_set().contains(iv) && iv.overlaps(
                    s.start,
                    s.end,
                ) && !parents.contains(iv.val);
            assert(m.all_index.contains_key(l) && m.all_index[l].contains(iv));
            assert(m.schedules.contains_key(iv.val));
        }
    }
}


/// How often `create_schedule` draws an id before it gives up.
pub const MAX_ID_ATTEMPTS: usize = 16;

/// What becomes of one drawn id.
#[derive(Debug, Clone, Copy, PartialEq, Eq, Structural)]
pub enum DrawVerdict {
    /// The id is free and is the one to use.
    Accept(ScheduleId),
    /// The id is taken; another is to be drawn.
    DrawAgain,
    /// The id is taken and it was the last draw allowed.
    GiveUp,
}

impl ScheduleManager {
    /// Enters `schedule` as `schedule_id` under `parents` in every
    /// structure: the index of its level, the exclusive index where it is
    /// exclusive, the relations, the schedules and the level index.
    fn execute_create_transaction(
        &mut self,
        schedule_id: ScheduleId,
        schedule: Schedule,
        parents: HashSet<ScheduleId>,
    )
        requires
            old(self).wf(),
            !old(self)@.schedules.contains_key(schedule_id),
            forall|p: ScheduleId|
                parents@.contains(p) ==> old(self)@.schedules.contains_key(p) && old(
                    self,
                )@.schedules[p].level < schedule.level,
        ensures
            final(self).wf(),
            final(self)@ == old(self)@.commit(schedule_id, schedule, parents@),
    {
        let ghost before = self@;
        let span = schedule.interval(schedule_id);
        let level = schedule.level;
        index_insert(&mut self.all_index, level, span);
        if schedule.exclusive {
            index_insert(&mut self.exclusive_index, level, span);
        }
        let ps = set_items(&parents);
        enter_under_each(&mut self.child_relations, &ps, schedule_id);
        self.parent_relations.insert(schedule_id, parents);
        self.schedules.insert(schedule_id, schedule);
        set_insert_at(&mut self.level_index, level, schedule_id);
        proof {
            let after = before.commit(schedule_id, schedule, parents@);
            assert(self@.parents =~= after.parents);
            assert(self@.schedules =~= after.schedules);
            assert(self@.exclusive_index =~= after.exclusive_index);
            before.lemma_commit_inv(schedule_id, schedule, parents@);
        }
    }

    /// Enters `schedule` under the id that the caller supplies, as a loader
    /// does to keep ids across restarts. An id that is taken is refused
    /// before anything else is looked at; then the schedule is validated as
    /// by `validate_schedule`. Nothing changes where the result is an error.
    pub fn create_schedule_with_id(
        &mut self,
        schedule_id: ScheduleId,
        schedule: Schedule,
        parents: HashSet<ScheduleId>,
    ) -> (r: Result<ScheduleId, ScheduleError>)
        requires
            old(self).wf(),
        ensures
            final(self).wf(),
            r is Ok <==> !old(self)@.schedules.contains_key(schedule_id) && old(self)@.admits(
                schedule,
                parents@,
            ),
            r is Ok ==> r == Ok::<ScheduleId, ScheduleError>(schedule_id) && final(self)@ == old(
                self,
            )@.commit(schedule_id, schedule, parents@),
            r is Err ==> final(self)@ == old(self)@,
            r is Err ==> (if old(self)@.schedules.contains_key(schedule_id) {
                r->Err_0 == ScheduleError::DuplicateId
            } else {
                old(self)@.refuses_with(schedule, parents@, r->Err_0)
            }),
    {
        if self.schedules.contains_key(&schedule_id) {
            return Err(ScheduleError::DuplicateId);
        }
        match self.validate_schedule(&schedule, &parents) {
            Err(e) => {
                return Err(e);
            },
            Ok(_) => {},
        }
        self.execute_create_transaction(schedule_id, schedule, parents);
        Ok(schedule_id)
    }

    /// What becomes of one drawn id. `drawn_before` is the number of ids
    /// drawn and found taken before this one. A free id is accepted; a
    /// taken one calls for another draw, unless it was the last of the
    /// `MAX_ID_ATTEMPTS` draws allowed.
    pub fn judge_draw(&self, candidate: ScheduleId, drawn_before: usize) -> (verdict: DrawVerdict)
        ensures
            verdict == (if !self@.schedules.contains_key(candidate) {
                DrawVerdict::Accept(candidate)
            } else if drawn_before + 1 < MAX_ID_ATTEMPTS {
                DrawVerdict::DrawAgain
            } else {
                DrawVerdict::GiveUp
            }),
    {
        if !self.schedules.contains_key(&candidate) {
            DrawVerdict::Accept(candidate)
        } else if drawn_before < MAX_ID_ATTEMPTS - 1 {
            DrawVerdict::DrawAgain
        } else {
            DrawVerdict::GiveUp
        }
    }

    /// An id that no schedule of the manager has: ids are drawn one after
    /// another and each is judged by `judge_draw`, until one is accepted or
    /// the last draw allowed is taken, which gives `DuplicateId`. A manager
    /// that holds nothing has every id free, so the first draw is accepted.
    fn generate_unique_id(&self) -> (r: Result<ScheduleId, ScheduleError>)
        ensures
            r is Ok ==> !self@.schedules.contains_key(r->Ok_0),
            r is Err ==> r->Err_0 == ScheduleError::DuplicateId,
            (forall|id: ScheduleId| !self@.schedules.contains_key(id)) ==> r is Ok,
    {
        let mut attempt: usize = 0;
        loop
            invariant
                attempt < MAX_ID_ATTEMPTS,
            decreases MAX_ID_ATTEMPTS - attempt,
        {
            let candidate = fresh_id();
            match self.judge_draw(candidate, attempt) {
                DrawVerdict::Accept(id) => {
                    return Ok(id);
                },
                DrawVerdict::DrawAgain => {
                    attempt = attempt + 1;
                },
                DrawVerdict::GiveUp => {
                    proof {
                        assert(self@.schedules.contains_key(candidate));
                    }
                    return Err(ScheduleError::DuplicateId);
                },
            }
        }
    }

    /// Validates `schedule` under `parents`, draws a fresh id for it and
    /// enters it. Nothing changes where the result is an error. A schedule
    /// that the manager admits is entered unless no free id could be drawn,
    /// which is reported as `DuplicateId`; in a manager that holds nothing
    /// every id is free, and the schedule is entered.
    pub fn create_schedule(&mut self, schedule: Schedule, parents: HashSet<ScheduleId>) -> (r:
        Result<ScheduleId, ScheduleError>)
        requires
            old(self).wf(),
        ensures
            final(self).wf(),
            r is Ok ==> old(self)@.admits(schedule, parents@) && !old(
                self,
            )@.schedules.contains_key(r->Ok_0) && final(self)@ == old(self)@.commit(
                r->Ok_0,
                schedule,
                parents@,
            ),
            r is Err ==> final(self)@ == old(self)@,
            r is Err ==> (if old(self)@.admits(schedule, parents@) {
                r->Err_0 == ScheduleError::DuplicateId
            } else {
                old(self)@.refuses_with(schedule, parents@, r->Err_0)
            }),
            old(self)@.admits(schedule, parents@) && (forall|id: ScheduleId|
                !old(self)@.schedules.contains_key(id)) ==> r is Ok,
    {
        match self.validate_schedule(&schedule, &parents) {
            Err(e) => {
                return Err(e);
            },
            Ok(_) => {},
        }
        let schedule_id = match self.generate_unique_id() {
            Err(e) => {
                return Err(e);
            },
            Ok(id) => id,
        };
        self.execute_create_transaction(schedule_id, schedule, parents);
        Ok(schedule_id)
    }

    /// Adds `parents` to the parents of a schedule that the manager holds.
    /// The schedule is validated, as a new one would be, under the parents
    /// it will then have: those it has already together with `parents`.
    /// Nothing changes where the result is an error.
    pub fn add_parents(&mut self, schedule_id: ScheduleId, parents: HashSet<ScheduleId>) -> (r:
        Result<(), ScheduleError>)
        requires
            old(self).wf(),
        ensures
            final(self).wf(),
            r is Ok <==> old(self)@.schedules.contains_key(schedule_id) && old(self)@.admits(
                old(self)@.schedules[schedule_id],
                slot(old(self)@.parents, schedule_id).union(parents@),
            ),
            r is Ok ==> final(self)@ == old(self)@.attach(schedule_id, parents@),
            r is Err ==> final(self)@ == old(self)@,
            r is Err ==> (if !old(self)@.schedules.contains_key(schedule_id) {
                r->Err_0 == ScheduleError::ScheduleNotFound
            } else {
                old(self)@.refuses_with(
                    old(self)@.schedules[schedule_id],
                    slot(old(self)@.parents, schedule_id).union(parents@),
                    r->Err_0,
                )
            }),
    {
        let ghost before = self@;
        let schedule = match self.schedules.get(&schedule_id) {
            Some(s) => s.clone(),
            None => {
                return Err(ScheduleError::ScheduleNotFound);
            },
        };
        let ps = set_items(&parents);
        let mut merged = match self.parent_relations.get(&schedule_id) {
            Some(set) => items_set(&set_items(set)),
            None => HashSet::new(),
        };
        add_items(&mut merged, &ps);
        proof {
            assert(merged@ =~= slot(before.parents, schedule_id).union(parents@));
        }
        match self.validate_schedule(&schedule, &merged) {
            Err(e) => {
                return Err(e);
            },
            Ok(_) => {},
        }
        enter_under_each(&mut self.child_relations, &ps, schedule_id);
        self.parent_relations.insert(schedule_id, merged);
        proof {
            let after = before.attach(schedule_id, parents@);
            assert(before.parents.contains_key(schedule_id));
            assert(self@.parents =~= after.parents);
            assert forall|p: ScheduleId| parents@.contains(p) implies before.schedules.contains_key(
                p,
            ) && before.schedules[p].level < before.schedules[schedule_id].level by {
                assert(merged@.contains(p));
                assert(before.parent_defect(schedule, p) is None);
            }
            before.lemma_attach_inv(schedule_id, parents@);
        }
        Ok(())
    }
}

} // verus!
