//! The stored form of a schedule, and what the manager does with a store:
//! it loads what the store holds, hands over the record of a schedule to be
//! written, and reports what came of the writing.

use crate::collections::{items_set, set_items};
use crate::interval::{ScheduleId, Timestamp};
use crate::manager::ScheduleManager;
use crate::model::{slot, ManagerModel};
use crate::schedule::{Schedule, ScheduleError, ScheduleLevel};
use std::collections::HashSet;
use vstd::prelude::*;
use vstd::string::StringExecFns;

verus! {

/// A schedule as a store keeps it: the schedule itself, its id, and the ids
/// of its parents and children.
#[derive(Debug)]
pub struct ScheduleModel {
    pub id: ScheduleId,
    pub start: Timestamp,
    pub end: Timestamp,
    pub level: ScheduleLevel,
    pub exclusive: bool,
    pub name: String,
    /// The parents; the loader restores the relations from these.
    pub parents: Vec<ScheduleId>,
    /// The children, kept for people to read; the loader does not trust
    /// them and derives the children from the parents.
    pub children: Vec<ScheduleId>,
}

impl Clone for ScheduleModel {
    fn clone(&self) -> (r: ScheduleModel)
        ensures
            r.same_as(*self),
    {
        let r = ScheduleModel {
            id: self.id,
            start: self.start,
            end: self.end,
            level: self.level,
            exclusive: self.exclusive,
            name: self.name.clone(),
            parents: self.parents.clone(),
            children: self.children.clone(),
        };
        proof {
            assert(r.parents@ =~= self.parents@);
            assert(r.children@ =~= self.children@);
        }
        r
    }
}

impl ScheduleModel {
    /// Whether two records say the same: the same id, the same schedule,
    /// and the same parents and children in the same order.
    pub open spec fn same_as(self, other: ScheduleModel) -> bool {
        &&& self.id == other.id
        &&& self.spec_schedule() == other.spec_schedule()
        &&& self.parents@ == other.parents@
        &&& self.children@ == other.children@
    }
}

impl ScheduleModel {
    /// The schedule that the record describes.
    pub open spec fn spec_schedule(&self) -> Schedule {
        Schedule {
            start: self.start,
            end: self.end,
            level: self.level,
            exclusive: self.exclusive,
            name: self.name,
        }
    }

    /// The schedule that the record describes.
    #[verifier::when_used_as_spec(spec_schedule)]
    pub fn schedule(&self) -> (s: Schedule)
        ensures
            s == self.spec_schedule(),
    {
        Schedule {
            start: self.start,
            end: self.end,
            level: self.level,
            exclusive: self.exclusive,
            name: self.name.clone(),
        }
    }
}

/// The manager after the first pass of loading over `items`: each record,
/// in turn, is entered under its own id and without parents, unless its id
/// is taken or the manager does not admit it; such a record is passed over.
pub open spec fn after_first_pass(m: ManagerModel, items: Seq<ScheduleModel>) -> ManagerModel
    decreases items.len(),
{
    if items.len() == 0 {
        m
    } else {
        let prior = after_first_pass(m, items.drop_last());
        let item = items.last();
        if !prior.schedules.contains_key(item.id) && prior.admits(item.schedule(), Set::empty()) {
            prior.commit(item.id, item.schedule(), Set::empty())
        } else {
            prior
        }
    }
}

/// The manager after the second pass of loading over `items`: each record
/// that names parents, in turn, has them attached to its schedule, unless
/// the manager holds no such schedule or does not admit it under the
/// parents it has together with these; such a record is passed over.
pub open spec fn after_second_pass(m: ManagerModel, items: Seq<ScheduleModel>) -> ManagerModel
    decreases items.len(),
{
    if items.len() == 0 {
        m
    } else {
        let prior = after_second_pass(m, items.drop_last());
        let item = items.last();
        let parents = item.parents@.to_set();
        if item.parents@.len() > 0 && prior.schedules.contains_key(item.id) && prior.admits(
            prior.schedules[item.id],
            slot(prior.parents, item.id).union(parents),
        ) {
            prior.attach(item.id, parents)
        } else {
            prior
        }
    }
}

impl ScheduleManager {
    /// Loads the records of a store in two passes, so that they may come in
    /// any order: the first enters every schedule under its stored id, the
    /// second attaches the stored parents. A record that the manager
    /// refuses in either pass is passed over.
    pub fn load_from_storage(&mut self, items: &Vec<ScheduleModel>)
        requires
            old(self).wf(),
        ensures
            final(self).wf(),
            final(self)@ == after_second_pass(after_first_pass(old(self)@, items@), items@),
    {
        let ghost before = self@;
        let mut i: usize = 0;
        proof {
            assert(items@.take(0) =~= Seq::<ScheduleModel>::empty());
        }
        while i < items.len()
            invariant
                i <= items.len(),
                self.wf(),
                self@ == after_first_pass(before, items@.take(i as int)),
            decreases items.len() - i,
        {
            let item = &items[i];
            let empty: HashSet<ScheduleId> = HashSet::new();
            let _ = self.create_schedule_with_id(item.id, item.schedule(), empty);
            proof {
                assert(items@.take(i + 1).drop_last() =~= items@.take(i as int));
                assert(items@.take(i + 1).last() == items@[i as int]);
            }
            i = i + 1;
        }
        proof {
            assert(items@.take(items@.len() as int) =~= items@);
        }
        let ghost entered = self@;
        let mut k: usize = 0;
        proof {
            assert(items@.take(0) =~= Seq::<ScheduleModel>::empty());
        }
        while k < items.len()
            invariant
                k <= items.len(),
                self.wf(),
                self@ == after_second_pass(entered, items@.take(k as int)),
            decreases items.len() - k,
        {
            let item = &items[k];
            if item.parents.len() > 0 {
                let parents = items_set(&item.parents);
                let _ = self.add_parents(item.id, parents);
            }
            proof {
                assert(items@.take(k + 1).drop_last() =~= items@.take(k as int));
                assert(items@.take(k + 1).last() == items@[k as int]);
            }
            k = k + 1;
        }
        proof {
            assert(items@.take(items@.len() as int) =~= items@);
        }
    }

    /// A manager that holds what loading `items` into an empty manager
    /// gives.
    pub fn new_from_storage(items: &Vec<ScheduleModel>) -> (m: ScheduleManager)
        ensures
            m.wf(),
            m@ == after_second_pass(after_first_pass(ManagerModel::empty(), items@), items@),
    {
        let mut m = ScheduleManager::new();
        m.load_from_storage(items);
        m
    }

    /// The record under which a store keeps the schedule `id`: the schedule
    /// with its parents and children as the manager has them now. `None`
    /// where the manager holds no such schedule.
    pub fn record_of(&self, id: ScheduleId) -> (r: Option<ScheduleModel>)
        requires
            self.wf(),
        ensures
            r is Some <==> self@.schedules.contains_key(id),
            r is Some ==> r->0.id == id && r->0.spec_schedule() == self@.schedules[id]
                && r->0.parents@.no_duplicates() && r->0.parents@.to_set() == self@.parents[id]
                && r->0.children@.no_duplicates() && r->0.children@.to_set() == slot(
                self@.children,
                id,
            ),
    {
        proof {
            self.lemma_wf_inv();
        }
        let schedule = match self.get_schedule(id) {
            Some(s) => s,
            None => {
                return None;
            },
        };
        let parents = match self.parent_relations().get(&id) {
            Some(set) => set_items(set),
            None => Vec::new(),
        };
        let children = match self.child_relations().get(&id) {
            Some(set) => set_items(set),
            None => Vec::new(),
        };
        proof {
            assert(self@.parents.contains_key(id));
            if !self@.children.contains_key(id) {
                assert(children@.to_set() =~= Set::<ScheduleId>::empty());
            }
        }
        Some(
            ScheduleModel {
                id,
                start: schedule.start,
                end: schedule.end,
                level: schedule.level,
                exclusive: schedule.exclusive,
                name: schedule.name.clone(),
                parents,
                children,
            },
        )
    }
}

/// What `create_schedule` reports once the store has been asked to write
/// the new schedule: the id where the store succeeded, and a `StorageError`
/// that quotes the store where it failed. The schedule stays in the manager
/// either way.
pub fn stored_outcome(id: ScheduleId, stored: Result<(), String>) -> (r: Result<
    ScheduleId,
    ScheduleError,
>)
    ensures
        stored is Ok ==> r == Ok::<ScheduleId, ScheduleError>(id),
        stored is Err ==> r is Err && r->Err_0 is StorageError && r->Err_0->StorageError_0@
            == "failed to persist: "@ + stored->Err_0@,
{
    match stored {
        Ok(_) => Ok(id),
        Err(detail) => Err(
            ScheduleError::StorageError("failed to persist: ".to_string().concat(detail.as_str())),
        ),
    }
}


/// Why an operation on a manager with a store behind it failed.
#[derive(Debug, PartialEq, Eq, Clone)]
pub enum BackendScheduleError {
    /// The manager refused the operation.
    CoreError(ScheduleError),
    /// The store failed.
    StorageError(String),
}

impl BackendScheduleError {
    /// The text that describes the error.
    pub open spec fn spec_message(self) -> Seq<char> {
        match self {
            BackendScheduleError::CoreError(e) => "Core schedule error: "@ + e.spec_message(),
            BackendScheduleError::StorageError(detail) => "Storage error: "@ + detail@,
        }
    }

    /// The text that describes the error.
    pub fn message(&self) -> (text: String)
        ensures
            text@ == self.spec_message(),
    {
        match self {
            BackendScheduleError::CoreError(e) => {
                let inner = e.message();
                "Core schedule error: ".to_string().concat(inner.as_str())
            },
            BackendScheduleError::StorageError(detail) => {
                "Storage error: ".to_string().concat(detail.as_str())
            },
        }
    }
}

impl From<ScheduleError> for BackendScheduleError {
    fn from(e: ScheduleError) -> (r: BackendScheduleError) {
        BackendScheduleError::CoreError(e)
    }
}

impl vstd::std_specs::convert::FromSpecImpl<ScheduleError> for BackendScheduleError {
    open spec fn obeys_from_spec() -> bool {
        true
    }

    open spec fn from_spec(e: ScheduleError) -> BackendScheduleError {
        BackendScheduleError::CoreError(e)
    }
}

/// What an operation that changed the manager reports once the store has
/// been asked to follow: `value` where the store succeeded, and a
/// `StorageError` that quotes the store where it failed.
pub fn backend_outcome<T>(value: T, stored: Result<(), String>) -> (r: Result<
    T,
    BackendScheduleError,
>)
    ensures
        stored is Ok ==> r == Ok::<T, BackendScheduleError>(value),
        stored is Err ==> r is Err && r->Err_0 is StorageError && r->Err_0->StorageError_0@
            == "failed to persist: "@ + stored->Err_0@,
{
    match stored {
        Ok(_) => Ok(value),
        Err(detail) => Err(
            BackendScheduleError::StorageError(
                "failed to persist: ".to_string().concat(detail.as_str()),
            ),
        ),
    }
}

} // verus!
