//! The schedule manager: the owner of every schedule, of the interval
//! indices by level, of the parent and child relations and of the level
//! index.

use crate::interval::{Interval, ScheduleId};
use crate::lapper::Lapper;
use crate::model::ManagerModel;
use crate::schedule::{Schedule, ScheduleLevel};
use crate::tables::{index_model, indices_wf, sets_model};
use std::collections::BTreeMap;
use std::collections::HashMap;
use std::collections::HashSet;
use vstd::prelude::*;

mod admission;
mod deletion;
mod planner;

pub use admission::{DrawVerdict, MAX_ID_ATTEMPTS};

verus! {

/// Stores schedules and decides which may be admitted.
///
/// The manager is meant for one writer at a time; where it is shared, the
/// caller wraps it in a lock.
#[derive(Clone)]
pub struct ScheduleManager {
    /// Every schedule by its id.
    schedules: HashMap<ScheduleId, Schedule>,
    /// For each level, the index of the exclusive schedules at it.
    exclusive_index: BTreeMap<ScheduleLevel, Lapper>,
    /// For each level, the index of all schedules at it.
    all_index: BTreeMap<ScheduleLevel, Lapper>,
    /// For each schedule, its parents.
    parent_relations: HashMap<ScheduleId, HashSet<ScheduleId>>,
    /// For each schedule that has or had children, its children.
    child_relations: HashMap<ScheduleId, HashSet<ScheduleId>>,
    /// For each level in use, the schedules at it.
    level_index: HashMap<ScheduleLevel, HashSet<ScheduleId>>,
}

impl View for ScheduleManager {
    type V = ManagerModel;

    /// What the manager holds, as maps and sets.
    closed spec fn view(&self) -> ManagerModel {
        ManagerModel {
            schedules: self.schedules@,
            all_index: index_model(self.all_index@),
            exclusive_index: index_model(self.exclusive_index@),
            parents: sets_model(self.parent_relations@),
            children: sets_model(self.child_relations@),
            level_index: sets_model(self.level_index@),
        }
    }
}

impl ScheduleManager {
    /// The invariant of the manager: every index is valid, and the state as
    /// a whole satisfies `ManagerModel::inv`.
    pub closed spec fn wf(&self) -> bool {
        &&& self@.inv()
        &&& indices_wf(self.all_index@)
        &&& indices_wf(self.exclusive_index@)
    }

    /// A valid manager satisfies the invariant of its model.
    pub proof fn lemma_wf_inv(&self)
        requires
            self.wf(),
        ensures
            self@.inv(),
    {
    }

    /// Every schedule of a valid manager stands in the index of its level
    /// with its own start as `start` and its own end as `stop`.
    pub proof fn lemma_all_index_holds_schedule(&self, id: ScheduleId)
        requires
            self.wf(),
            self@.schedules.contains_key(id),
        ensures
            self@.all_index.contains_key(self@.schedules[id].level),
            self@.all_index[self@.schedules[id].level].contains(
                Interval {
                    start: self@.schedules[id].start,
                    stop: self@.schedules[id].end,
                    val: id,
                },
            ),
    {
    }

    /// A schedule of a valid manager stands in the exclusive index of its
    /// level exactly where it is exclusive.
    pub proof fn lemma_exclusive_index_iff_exclusive(&self, id: ScheduleId)
        requires
            self.wf(),
            self@.schedules.contains_key(id),
        ensures
            self@.schedules[id].exclusive <==> (self@.exclusive_index.contains_key(
                self@.schedules[id].level,
            ) && self@.exclusive_index[self@.schedules[id].level].contains(
                self@.schedules[id].span(id),
            )),
    {
        let s = self@.schedules[id];
        if self@.exclusive_index.contains_key(s.level) && self@.exclusive_index[s.level].contains(
            s.span(id),
        ) {
            assert(self@.schedules[s.span(id).val].exclusive);
        }
    }

    /// In a valid manager `id` is a child of `p` exactly where `p` is a
    /// parent of `id`.
    pub proof fn lemma_children_mirror_parents(&self, p: ScheduleId, id: ScheduleId)
        requires
            self.wf(),
        ensures
            (self@.children.contains_key(p) && self@.children[p].contains(id)) <==> (
            self@.parents.contains_key(id) && self@.parents[id].contains(p)),
    {
    }

    /// Every schedule of a valid manager stands in the level index under
    /// its level.
    pub proof fn lemma_level_index_holds_schedule(&self, id: ScheduleId)
        requires
            self.wf(),
            self@.schedules.contains_key(id),
        ensures
            self@.level_index.contains_key(self@.schedules[id].level),
            self@.level_index[self@.schedules[id].level].contains(id),
    {
    }

    /// A manager that holds nothing.
    pub fn new() -> (m: ScheduleManager)
        ensures
            m.wf(),
            m@ == ManagerModel::empty(),
    {
        let m = ScheduleManager {
            schedules: HashMap::new(),
            exclusive_index: BTreeMap::new(),
            all_index: BTreeMap::new(),
            parent_relations: HashMap::new(),
            child_relations: HashMap::new(),
            level_index: HashMap::new(),
        };
        proof {
            assert(m@.all_index =~= Map::empty());
            assert(m@.exclusive_index =~= Map::empty());
            assert(m@.parents =~= Map::empty());
            assert(m@.children =~= Map::empty());
            assert(m@.level_index =~= Map::empty());
        }
        m
    }

    /// The schedule with the given id, if the manager holds one.
    pub fn get_schedule(&self, schedule_id: ScheduleId) -> (s: Option<&Schedule>)
        ensures
            s == (if self@.schedules.contains_key(schedule_id) {
                Some(&self@.schedules[schedule_id])
            } else {
                None
            }),
    {
        self.schedules.get(&schedule_id)
    }

    /// The parents of each schedule.
    pub fn parent_relations(&self) -> (r: &HashMap<ScheduleId, HashSet<ScheduleId>>)
        ensures
            sets_model(r@) == self@.parents,
    {
        &self.parent_relations
    }

    /// The children of each schedule that has or had any.
    pub fn child_relations(&self) -> (r: &HashMap<ScheduleId, HashSet<ScheduleId>>)
        ensures
            sets_model(r@) == self@.children,
    {
        &self.child_relations
    }
}

} // verus!
