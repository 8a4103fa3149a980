//! The store behind a manager: what the manager asks of it, a store that
//! keeps its records in memory, and a manager that writes every change
//! through to its store.

use crate::collections::{map_ids, set_items};
use crate::interval::ScheduleId;
use crate::manager::ScheduleManager;
use crate::model::ManagerModel;
use crate::query::QueryOptions;
use crate::record::{
    after_first_pass, after_second_pass, backend_outcome, BackendScheduleError, ScheduleModel,
};
use crate::schedule::{Schedule, ScheduleError};
use std::collections::HashMap;
use std::collections::HashSet;
use vstd::prelude::*;

verus! {

/// Whether `v` holds a copy of each record of `held`, one for each id, in
/// some order.
pub open spec fn lists(held: Map<ScheduleId, ScheduleModel>, v: Seq<ScheduleModel>) -> bool {
    exists|ids: Seq<ScheduleId>|
        ids.no_duplicates() && ids.to_set() == held.dom() && ids.len() == v.len() && forall|
            i: int,
        | 0 <= i < v.len() ==> (#[trigger] v[i]).same_as(held[ids[i]])
}

/// What a manager asks of a store of records keyed by schedule id. A store
/// reports a failure as a text. A store may say what it holds and whether
/// it can fail; of a store that says neither, nothing is taken for granted.
pub trait Storage {
    /// The records that the store holds, by id, where the store says what
    /// it holds; `None` where it does not.
    open spec fn held(&self) -> Option<Map<ScheduleId, ScheduleModel>> {
        None
    }

    /// Whether the store is of a kind that never reports a failure. A store
    /// that does not say so is taken to be one that can fail.
    open spec fn unfailing(&self) -> bool {
        false
    }

    /// Every record of the store.
    fn load_all(&self) -> (r: Result<Vec<ScheduleModel>, String>)
        ensures
            self.unfailing() ==> r is Ok,
            r is Ok && self.held() is Some ==> lists(self.held()->0, r->Ok_0@),
    ;

    /// Writes `record` under its id, in place of what was there.
    fn upsert(&mut self, record: ScheduleModel) -> (r: Result<(), String>)
        ensures
            old(self).unfailing() ==> r is Ok && final(self).unfailing(),
            r is Ok && old(self).held() is Some ==> final(self).held() == Some(
                old(self).held()->0.insert(record.id, record),
            ),
    ;

    /// Removes the record of `id`, if there is one.
    fn remove(&mut self, id: ScheduleId) -> (r: Result<(), String>)
        ensures
            old(self).unfailing() ==> r is Ok && final(self).unfailing(),
            r is Ok && old(self).held() is Some ==> final(self).held() == Some(
                old(self).held()->0.remove(id),
            ),
    ;
}

/// A store that keeps its records in memory, for tests and for runs that
/// need nothing kept.
pub struct MockStorage {
    records: HashMap<ScheduleId, ScheduleModel>,
}

impl View for MockStorage {
    type V = Map<ScheduleId, ScheduleModel>;

    closed spec fn view(&self) -> Map<ScheduleId, ScheduleModel> {
        self.records@
    }
}

impl MockStorage {
    /// A store without records.
    pub fn new() -> (s: MockStorage)
        ensures
            s@ == Map::<ScheduleId, ScheduleModel>::empty(),
    {
        MockStorage { records: HashMap::new() }
    }

    /// The number of records.
    pub fn len(&self) -> (n: usize)
        ensures
            n == self@.dom().len(),
    {
        self.records.len()
    }

    /// The record of `id`, if there is one.
    pub fn get(&self, id: ScheduleId) -> (r: Option<&ScheduleModel>)
        ensures
            r == (if self@.contains_key(id) {
                Some(&self@[id])
            } else {
                None
            }),
    {
        self.records.get(&id)
    }

    /// Writes `record` under its id, in place of what was there.
    pub fn put(&mut self, record: ScheduleModel)
        ensures
            final(self)@ == old(self)@.insert(record.id, record),
    {
        self.records.insert(record.id, record);
    }

    /// Removes the record of `id`, if there is one.
    pub fn delete(&mut self, id: ScheduleId)
        ensures
            final(self)@ == old(self)@.remove(id),
    {
        self.records.remove(&id);
    }

    /// A copy of every record, one for each id of the store, in no
    /// particular order.
    pub fn records(&self) -> (v: Vec<ScheduleModel>)
        ensures
            lists(self@, v@),
    {
        let ids = map_ids(&self.records);
        let mut v: Vec<ScheduleModel> = Vec::new();
        let mut i: usize = 0;
        while i < ids.len()
            invariant
                i <= ids.len(),
                ids@.to_set() == self@.dom(),
                v@.len() == i,
                forall|k: int| 0 <= k < i ==> (#[trigger] v@[k]).same_as(self@[ids@[k]]),
            decreases ids.len() - i,
        {
            proof {
                assert(ids@.to_set().contains(ids@[i as int]));
            }
            match self.records.get(&ids[i]) {
                Some(record) => {
                    v.push(record.clone());
                },
                None => {
                    proof {
                        assert(false);
                    }
                },
            }
            i = i + 1;
        }
        v
    }
}

impl Storage for MockStorage {
    /// The records of the store.
    open spec fn held(&self) -> Option<Map<ScheduleId, ScheduleModel>> {
        Some(self@)
    }

    /// A store in memory does not fail.
    open spec fn unfailing(&self) -> bool {
        true
    }

    /// A copy of every record, one for each id of the store, in no
    /// particular order. A store in memory does not fail.
    fn load_all(&self) -> (r: Result<Vec<ScheduleModel>, String>)
        ensures
            r is Ok,
            lists(self@, r->Ok_0@),
    {
        Ok(self.records())
    }

    /// Writes `record` under its id, in place of what was there. A store
    /// in memory does not fail.
    fn upsert(&mut self, record: ScheduleModel) -> (r: Result<(), String>)
        ensures
            r is Ok,
            final(self)@ == old(self)@.insert(record.id, record),
    {
        self.put(record);
        Ok(())
    }

    /// Removes the record of `id`, if there is one. A store in memory does
    /// not fail, also where it has no such record.
    fn remove(&mut self, id: ScheduleId) -> (r: Result<(), String>)
        ensures
            r is Ok,
            final(self)@ == old(self)@.remove(id),
    {
        self.delete(id);
        Ok(())
    }
}

/// What a manager holds after it has loaded what a store gave: the records
/// loaded in two passes into an empty manager, or nothing where the store
/// failed.
pub open spec fn loaded(given: Result<Vec<ScheduleModel>, String>) -> ManagerModel {
    match given {
        Ok(items) => after_second_pass(
            after_first_pass(ManagerModel::empty(), items@),
            items@,
        ),
        Err(_) => ManagerModel::empty(),
    }
}

/// What `storage` holds, where it is a store that says what it holds.
pub open spec fn store_held<S: Storage>(storage: Option<S>) -> Option<
    Map<ScheduleId, ScheduleModel>,
> {
    match storage {
        Some(store) => store.held(),
        None => None,
    }
}

/// Whether `storage` is no store at all or a store of a kind that never
/// reports a failure.
pub open spec fn store_never_fails<S: Storage>(storage: Option<S>) -> bool {
    match storage {
        Some(store) => store.unfailing(),
        None => true,
    }
}

/// Whether `record` is the record of a schedule that has just been entered
/// as `id` under `parents`: the schedule itself, its parents each once, and
/// no children.
pub open spec fn record_of_new(
    record: ScheduleModel,
    id: ScheduleId,
    schedule: Schedule,
    parents: Set<ScheduleId>,
) -> bool {
    &&& record.id == id
    &&& record.spec_schedule() == schedule
    &&& record.parents@.no_duplicates()
    &&& record.parents@.to_set() == parents
    &&& record.children@.len() == 0
}

/// A manager with a store behind it: every schedule that is created is
/// written to the store, every schedule that is deleted is removed from it.
pub struct PersistentManager<S: Storage> {
    /// The manager in memory.
    manager: ScheduleManager,
    /// The store, or `None` for a manager that keeps nothing.
    storage: Option<S>,
}

impl<S: Storage> View for PersistentManager<S> {
    type V = ManagerModel;

    closed spec fn view(&self) -> ManagerModel {
        self.manager@
    }
}

impl<S: Storage> PersistentManager<S> {
    /// The invariant: the manager in memory is valid.
    pub closed spec fn wf(&self) -> bool {
        self.manager.wf()
    }

    /// Whether there is a store behind the manager.
    pub closed spec fn has_storage(&self) -> bool {
        self.storage is Some
    }

    /// What the store behind the manager holds, where there is a store and
    /// it says what it holds.
    pub closed spec fn stored(&self) -> Option<Map<ScheduleId, ScheduleModel>> {
        store_held(self.storage)
    }

    /// Whether writing through cannot fail: there is no store, or the store
    /// is of a kind that never reports a failure.
    pub closed spec fn store_unfailing(&self) -> bool {
        store_never_fails(self.storage)
    }

    /// A valid manager satisfies the invariant of its model.
    pub proof fn lemma_wf_inv(&self)
        requires
            self.wf(),
        ensures
            self@.inv(),
    {
        self.manager.lemma_wf_inv();
    }

    /// A manager over `storage` that holds what the store gives: its
    /// records, loaded in two passes; or nothing, where there is no store
    /// or the store fails. A store that says what it holds and never fails
    /// gives a copy of each record it holds.
    pub fn new_from_storage(storage: Option<S>) -> (m: PersistentManager<S>)
        ensures
            m.wf(),
            m.has_storage() == storage is Some,
            m.stored() == store_held(storage),
            m.store_unfailing() == store_never_fails(storage),
            storage is None ==> m@ == ManagerModel::empty(),
            storage is Some ==> exists|given: Result<Vec<ScheduleModel>, String>|
                m@ == loaded(given) && (store_never_fails(storage) ==> given is Ok) && (given is Ok
                    && store_held(storage) is Some ==> lists(
                    store_held(storage)->0,
                    given->Ok_0@,
                )),
    {
        let mut manager = ScheduleManager::new();
        match &storage {
            Some(store) => {
                let given = store.load_all();
                match &given {
                    Ok(items) => {
                        manager.load_from_storage(items);
                    },
                    Err(_) => {},
                }
                proof {
                    assert(manager@ == loaded(given));
                }
            },
            None => {},
        }
        PersistentManager { manager, storage }
    }

    /// Creates a schedule as `ScheduleManager::create_schedule` does and
    /// then hands its record to the store. Where the manager refuses the
    /// schedule, nothing changes and the store is not asked. Where the
    /// store fails, the schedule stays in the manager and the failure is
    /// reported as `StorageError`. Where the store succeeds, it holds the
    /// record of the new schedule under the new id, and what it held
    /// besides. In a manager that holds nothing every id is free, so a
    /// schedule that is admitted is entered and only the store can fail.
    pub fn create_schedule(&mut self, schedule: Schedule, parents: HashSet<ScheduleId>) -> (r:
        Result<ScheduleId, BackendScheduleError>)
        requires
            old(self).wf(),
        ensures
            final(self).wf(),
            final(self).has_storage() == old(self).has_storage(),
            r is Ok ==> old(self)@.admits(schedule, parents@) && !old(
                self,
            )@.schedules.contains_key(r->Ok_0) && final(self)@ == old(self)@.commit(
                r->Ok_0,
                schedule,
                parents@,
            ),
            r is Ok && old(self).stored() is Some ==> final(self).stored() is Some
                && final(self).stored()->0.contains_key(r->Ok_0) && record_of_new(
                final(self).stored()->0[r->Ok_0],
                r->Ok_0,
                schedule,
                parents@,
            ) && final(self).stored()->0 == old(self).stored()->0.insert(
                r->Ok_0,
                final(self).stored()->0[r->Ok_0],
            ),
            r is Ok && !old(self).has_storage() ==> final(self).stored() == old(self).stored(),
            r is Err && r->Err_0 is CoreError ==> final(self)@ == old(self)@ && final(self).stored() == old(self).stored() && final(self).store_unfailing() == old(
                self,
            ).store_unfailing() && (if old(self)@.admits(schedule, parents@) {
                r->Err_0->CoreError_0 == ScheduleError::DuplicateId
            } else {
                old(self)@.refuses_with(schedule, parents@, r->Err_0->CoreError_0)
            }),
            r is Err && r->Err_0 is StorageError ==> old(self).has_storage() && !old(
                self,
            ).store_unfailing() && old(self)@.admits(schedule, parents@) && exists|
                id: ScheduleId,
            |
                !old(self)@.schedules.contains_key(id) && final(self)@ == old(self)@.commit(
                    id,
                    schedule,
                    parents@,
                ),
            old(self).store_unfailing() ==> final(self).store_unfailing(),
            old(self)@.admits(schedule, parents@) && (forall|id: ScheduleId|
                !old(self)@.schedules.contains_key(id)) && old(self).store_unfailing() ==> r is Ok,
            old(self)@.admits(schedule, parents@) && (forall|id: ScheduleId|
                !old(self)@.schedules.contains_key(id)) ==> r is Ok || r->Err_0 is StorageError,
    {
        let ghost before = self.manager@;
        let ghost parent_ids = parents@;
        let kept = schedule.clone();
        proof {
            self.manager.lemma_wf_inv();
        }
        let id = match self.manager.create_schedule(schedule, parents) {
            Ok(id) => id,
            Err(e) => {
                return Err(BackendScheduleError::CoreError(e));
            },
        };
        proof {
            assert(self.manager@ == before.commit(id, kept, parent_ids));
            assert(!before.children.contains_key(id));
            assert(!parent_ids.contains(id)) by {
                if parent_ids.contains(id) {
                    assert(before.parent_defect(kept, id) is None);
                }
            }
            assert(!self.manager@.children.contains_key(id));
        }
        let stored = match self.storage {
            Some(ref mut store) => {
                match self.manager.record_of(id) {
                    Some(record) => {
                        proof {
                            assert(record.children@.to_set() =~= Set::<ScheduleId>::empty());
                            if record.children@.len() > 0 {
                                assert(record.children@.to_set().contains(record.children@[0]));
                            }
                        }
                        store.upsert(record)
                    },
                    None => Ok(()),
                }
            },
            None => Ok(()),
        };
        backend_outcome(id, stored)
    }

    /// Deletes a schedule as `ScheduleManager::delete_schedule` does and
    /// then asks the store to remove every schedule that went. What the
    /// store answers is not looked at; a store that never fails holds
    /// afterwards what it held without the schedules that went.
    pub fn delete_schedule(&mut self, schedule_id: ScheduleId) -> (r: Result<
        HashSet<ScheduleId>,
        BackendScheduleError,
    >)
        requires
            old(self).wf(),
        ensures
            final(self).wf(),
            final(self).has_storage() == old(self).has_storage(),
            r is Ok <==> old(self)@.schedules.contains_key(schedule_id),
            r is Ok ==> r->Ok_0@ == old(self)@.cascade(schedule_id) && final(self)@ == old(
                self,
            )@.without(old(self)@.cascade(schedule_id)),
            r is Err ==> r->Err_0 == BackendScheduleError::CoreError(
                ScheduleError::ScheduleNotFound,
            ) && final(self)@ == old(self)@ && final(self).stored() == old(self).stored(),
            old(self).store_unfailing() ==> final(self).store_unfailing(),
            r is Ok && old(self).store_unfailing() && old(self).stored() is Some ==> final(self).stored() == Some(
                old(self).stored()->0.remove_keys(old(self)@.cascade(schedule_id)),
            ),
            r is Ok && !old(self).has_storage() ==> final(self).stored() == old(self).stored(),
    {
        let removed = match self.manager.delete_schedule(schedule_id) {
            Ok(set) => set,
            Err(e) => {
                return Err(BackendScheduleError::CoreError(e));
            },
        };
        match self.storage {
            Some(ref mut store) => {
                let ghost first = *store;
                let ids = set_items(&removed);
                let mut i: usize = 0;
                proof {
                    assert(ids@.take(0).to_set() =~= Set::<ScheduleId>::empty());
                    if first.held() is Some {
                        assert(first.held()->0.remove_keys(Set::<ScheduleId>::empty())
                            =~= first.held()->0);
                    }
                }
                while i < ids.len()
                    invariant
                        i <= ids.len(),
                        first.unfailing() ==> store.unfailing(),
                        first.unfailing() && first.held() is Some ==> store.held() == Some(
                            first.held()->0.remove_keys(ids@.take(i as int).to_set()),
                        ),
                    decreases ids.len() - i,
                {
                    let ghost seen = ids@.take(i as int).to_set();
                    let _ = store.remove(ids[i]);
                    proof {
                        assert(ids@.take(i + 1) =~= ids@.take(i as int).push(ids@[i as int]));
                        ids@.take(i as int).lemma_push_to_set_commute(ids@[i as int]);
                        if first.held() is Some {
                            assert(first.held()->0.remove_keys(seen).remove(ids@[i as int])
                                =~= first.held()->0.remove_keys(seen.insert(ids@[i as int])));
                        }
                    }
                    i = i + 1;
                }
                proof {
                    assert(ids@.take(ids@.len() as int) =~= ids@);
                }
            },
            None => {},
        }
        Ok(removed)
    }

    /// The schedule with the given id, if the manager holds one.
    pub fn get_schedule(&self, schedule_id: ScheduleId) -> (s: Option<&Schedule>)
        ensures
            s == (if self@.schedules.contains_key(schedule_id) {
                Some(&self@.schedules[schedule_id])
            } else {
                None
            }),
    {
        self.manager.get_schedule(schedule_id)
    }

    /// The schedules that pass every filter of `opts`, each once, in no
    /// particular order.
    pub fn query_schedule(&self, opts: QueryOptions) -> (out: Vec<(ScheduleId, Schedule)>)
        requires
            self.wf(),
        ensures
            forall|i: int|
                0 <= i < out@.len() ==> self@.schedules.contains_key((#[trigger] out@[i]).0)
                    && out@[i].1 == self@.schedules[out@[i].0] && opts.selects(out@[i].1),
            forall|id: ScheduleId| #[trigger]
                self@.schedules.contains_key(id) && opts.selects(self@.schedules[id]) ==> exists|
                    i: int,
                | 0 <= i < out@.len() && (#[trigger] out@[i]).0 == id,
            forall|i: int, j: int|
                0 <= i < j < out@.len() ==> (#[trigger] out@[i]).0 != (#[trigger] out@[j]).0,
    {
        self.manager.query_schedule(opts)
    }

    /// The manager in memory.
    pub fn manager(&self) -> (m: &ScheduleManager)
        ensures
            m@ == self@,
            m.wf() == self.wf(),
    {
        &self.manager
    }

    /// The store behind the manager, if there is one.
    pub fn storage(&self) -> (s: &Option<S>)
        ensures
            s is Some == self.has_storage(),
            store_held(*s) == self.stored(),
            store_never_fails(*s) == self.store_unfailing(),
    {
        &self.storage
    }
}

} // verus!
