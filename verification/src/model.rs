//! The mathematical model of the schedule manager: what it holds, what must
//! be true of it at all times, when it admits a schedule, and what each of
//! its changes does.

use crate::interval::{Interval, ScheduleId};
use crate::schedule::{Schedule, ScheduleError, ScheduleLevel};
use vstd::prelude::*;

verus! {

/// The state of a manager as maps and sets.
pub struct ManagerModel {
    /// Every schedule by its id.
    pub schedules: Map<ScheduleId, Schedule>,
    /// For each level, the intervals of all schedules at that level.
    pub all_index: Map<ScheduleLevel, Set<Interval>>,
    /// For each level, the intervals of the exclusive schedules at it.
    pub exclusive_index: Map<ScheduleLevel, Set<Interval>>,
    /// For each schedule, its parents.
    pub parents: Map<ScheduleId, Set<ScheduleId>>,
    /// For each schedule that has or had children, its children.
    pub children: Map<ScheduleId, Set<ScheduleId>>,
    /// For each level in use, the schedules at that level.
    pub level_index: Map<ScheduleLevel, Set<ScheduleId>>,
}

/// The set under `k`, or the empty set where `m` has no such key.
pub open spec fn slot<K, V>(m: Map<K, Set<V>>, k: K) -> Set<V> {
    if m.contains_key(k) {
        m[k]
    } else {
        Set::empty()
    }
}

/// The relation `m` after `id` has been entered in the set under each key
/// of `keys`; a key that had no set gets one.
pub open spec fn entered(
    m: Map<ScheduleId, Set<ScheduleId>>,
    id: ScheduleId,
    keys: Set<ScheduleId>,
) -> Map<ScheduleId, Set<ScheduleId>> {
    Map::new(
        |k: ScheduleId| m.contains_key(k) || keys.contains(k),
        |k: ScheduleId|
            if keys.contains(k) {
                slot(m, k).insert(id)
            } else {
                m[k]
            },
    )
}

/// The relation `m` after `id` has been taken out of the set under each key
/// of `keys`.
pub open spec fn erased(
    m: Map<ScheduleId, Set<ScheduleId>>,
    id: ScheduleId,
    keys: Set<ScheduleId>,
) -> Map<ScheduleId, Set<ScheduleId>> {
    Map::new(
        |k: ScheduleId| m.contains_key(k),
        |k: ScheduleId|
            if keys.contains(k) {
                m[k].remove(id)
            } else {
                m[k]
            },
    )
}

impl ManagerModel {
    /// The manager that holds nothing.
    pub open spec fn empty() -> ManagerModel {
        ManagerModel {
            schedules: Map::empty(),
            all_index: Map::empty(),
            exclusive_index: Map::empty(),
            parents: Map::empty(),
            children: Map::empty(),
            level_index: Map::empty(),
        }
    }

    /// Every schedule stands in the index of its level under its own range.
    pub open spec fn all_index_complete(self) -> bool {
        forall|id: ScheduleId| #[trigger]
            self.schedules.contains_key(id) ==> self.all_index.contains_key(
                self.schedules[id].level,
            ) && self.all_index[self.schedules[id].level].contains(self.schedules[id].span(id))
    }

    /// Every interval of the index of a level is the range of a schedule at
    /// that level.
    pub open spec fn all_index_sound(self) -> bool {
        forall|l: ScheduleLevel, iv: Interval|
            self.all_index.contains_key(l) && #[trigger] self.all_index[l].contains(iv)
                ==> self.schedules.contains_key(iv.val) && self.schedules[iv.val].level == l && iv
                == self.schedules[iv.val].span(iv.val)
    }

    /// Every exclusive schedule stands in the exclusive index of its level.
    pub open spec fn exclusive_index_complete(self) -> bool {
        forall|id: ScheduleId| #[trigger]
            self.schedules.contains_key(id) && self.schedules[id].exclusive
                ==> self.exclusive_index.contains_key(self.schedules[id].level)
                && self.exclusive_index[self.schedules[id].level].contains(
                self.schedules[id].span(id),
            )
    }

    /// Every interval of the exclusive index of a level is the range of an
    /// exclusive schedule at that level.
    pub open spec fn exclusive_index_sound(self) -> bool {
        forall|l: ScheduleLevel, iv: Interval|
            self.exclusive_index.contains_key(l) && #[trigger] self.exclusive_index[l].contains(iv)
                ==> self.schedules.contains_key(iv.val) && self.schedules[iv.val].level == l
                && self.schedules[iv.val].exclusive && iv == self.schedules[iv.val].span(iv.val)
    }

    /// `c` is a child of `p` exactly where `p` is a parent of `c`.
    pub open spec fn relations_mirror(self) -> bool {
        forall|p: ScheduleId, c: ScheduleId|
            #![trigger self.children[p].contains(c)]
            #![trigger self.parents[c].contains(p)]
            (self.children.contains_key(p) && self.children[p].contains(c)) <==> (
            self.parents.contains_key(c) && self.parents[c].contains(p))
    }

    /// Exactly the schedules have a set of parents, only schedules have a
    /// set of children, and a parent is a schedule of strictly lower level.
    pub open spec fn relations_live(self) -> bool {
        &&& forall|id: ScheduleId| #[trigger]
            self.parents.contains_key(id) <==> self.schedules.contains_key(id)
        &&& forall|id: ScheduleId| #[trigger]
            self.children.contains_key(id) ==> self.schedules.contains_key(id)
        &&& forall|c: ScheduleId, p: ScheduleId|
            self.parents.contains_key(c) && #[trigger] self.parents[c].contains(p)
                ==> self.schedules.contains_key(p) && self.schedules[p].level
                < self.schedules[c].level
    }

    /// Every schedule stands in the level index under its level.
    pub open spec fn level_index_complete(self) -> bool {
        forall|id: ScheduleId| #[trigger]
            self.schedules.contains_key(id) ==> self.level_index.contains_key(
                self.schedules[id].level,
            ) && self.level_index[self.schedules[id].level].contains(id)
    }

    /// Every id in the level index under a level is a schedule at that
    /// level, and no level is listed without a schedule.
    pub open spec fn level_index_sound(self) -> bool {
        &&& forall|l: ScheduleLevel, id: ScheduleId|
            self.level_index.contains_key(l) && #[trigger] self.level_index[l].contains(id)
                ==> self.schedules.contains_key(id) && self.schedules[id].level == l
        &&& forall|l: ScheduleLevel| #[trigger]
            self.level_index.contains_key(l) ==> exists|id: ScheduleId|
                self.level_index[l].contains(id)
    }

    /// What is true of a manager in every state.
    pub open spec fn inv(self) -> bool {
        &&& self.all_index_complete()
        &&& self.all_index_sound()
        &&& self.exclusive_index_complete()
        &&& self.exclusive_index_sound()
        &&& self.relations_mirror()
        &&& self.relations_live()
        &&& self.level_index_complete()
        &&& self.level_index_sound()
    }

    /// What is wrong with `p` as a parent of `s`, if anything: it is no
    /// schedule, or its level is not strictly lower, or its range does not
    /// contain that of `s`.
    pub open spec fn parent_defect(self, s: Schedule, p: ScheduleId) -> Option<ScheduleError> {
        if !self.schedules.contains_key(p) {
            Some(ScheduleError::ParentNotFound)
        } else if self.schedules[p].level >= s.level {
            Some(ScheduleError::LevelExceedsParent)
        } else if self.schedules[p].start > s.start || self.schedules[p].end < s.end {
            Some(ScheduleError::TimeRangeExceedsParent)
        } else {
            None
        }
    }

    /// Whether an exclusive schedule at the level of `s` or above it in the
    /// hierarchy overlaps `s` without being one of `parents`.
    pub open spec fn blocked_from_above(self, s: Schedule, parents: Set<ScheduleId>) -> bool {
        exists|id: ScheduleId|
            #[trigger] self.schedules.contains_key(id) && self.schedules[id].exclusive
                && self.schedules[id].level <= s.level && self.schedules[id].overlaps(
                s.start,
                s.end,
            ) && !parents.contains(id)
    }

    /// Whether `s` is exclusive and a schedule at its level or below it in
    /// the hierarchy overlaps it without being one of `parents`.
    pub open spec fn blocks_below(self, s: Schedule, parents: Set<ScheduleId>) -> bool {
        s.exclusive && exists|id: ScheduleId|
            #[trigger] self.schedules.contains_key(id) && self.schedules[id].level >= s.level
                && self.schedules[id].overlaps(s.start, s.end) && !parents.contains(id)
    }

    /// Whether the manager admits `s` under `parents`: the range is not
    /// empty, every parent is sound, and exclusivity is kept both ways.
    pub open spec fn admits(self, s: Schedule, parents: Set<ScheduleId>) -> bool {
        &&& s.start < s.end
        &&& forall|p: ScheduleId| parents.contains(p) ==> self.parent_defect(s, p) is None
        &&& !self.blocked_from_above(s, parents)
        &&& !self.blocks_below(s, parents)
    }

    /// Whether `e` is an error with which the manager may refuse `s` under
    /// `parents`. The checks run in a fixed order and the first that fails
    /// decides; among several unsound parents any one may be the one
    /// reported.
    pub open spec fn refuses_with(self, s: Schedule, parents: Set<ScheduleId>, e: ScheduleError) -> bool {
        if s.start >= s.end {
            e == ScheduleError::StartAfterEnd
        } else if exists|p: ScheduleId| parents.contains(p) && self.parent_defect(s, p) is Some {
            exists|p: ScheduleId| parents.contains(p) && self.parent_defect(s, p) == Some(e)
        } else {
            e == ScheduleError::TimeRangeOverlaps && (self.blocked_from_above(s, parents)
                || self.blocks_below(s, parents))
        }
    }

    /// The manager refuses a schedule with some error exactly where it does
    /// not admit it, and the error is one of the five that validation
    /// knows.
    pub proof fn lemma_refused_iff_not_admitted(self, s: Schedule, parents: Set<ScheduleId>)
        ensures
            !self.admits(s, parents) <==> exists|e: ScheduleError|
                self.refuses_with(s, parents, e),
            forall|e: ScheduleError| #[trigger]
                self.refuses_with(s, parents, e) ==> e == ScheduleError::StartAfterEnd || e
                    == ScheduleError::ParentNotFound || e == ScheduleError::LevelExceedsParent
                    || e == ScheduleError::TimeRangeExceedsParent || e
                    == ScheduleError::TimeRangeOverlaps,
    {
        if !self.admits(s, parents) {
            if s.start >= s.end {
                assert(self.refuses_with(s, parents, ScheduleError::StartAfterEnd));
            } else if exists|p: ScheduleId| parents.contains(p) && self.parent_defect(s, p) is Some {
                let p = choose|p: ScheduleId|
                    parents.contains(p) && self.parent_defect(s, p) is Some;
                let e = self.parent_defect(s, p)->0;
                assert(parents.contains(p) && self.parent_defect(s, p) == Some(e));
                assert(self.refuses_with(s, parents, e));
            } else {
                assert(self.refuses_with(s, parents, ScheduleError::TimeRangeOverlaps));
            }
        }
        assert forall|e: ScheduleError| #[trigger] self.refuses_with(s, parents, e) implies e
            == ScheduleError::StartAfterEnd || e == ScheduleError::ParentNotFound || e
            == ScheduleError::LevelExceedsParent || e == ScheduleError::TimeRangeExceedsParent || e
            == ScheduleError::TimeRangeOverlaps by {
            if s.start < s.end && exists|p: ScheduleId|
                parents.contains(p) && self.parent_defect(s, p) is Some {
                let p = choose|p: ScheduleId|
                    parents.contains(p) && self.parent_defect(s, p) == Some(e);
            }
        }
    }

    /// The children after `id` has been entered under each of `parents`.
    pub open spec fn children_with(self, id: ScheduleId, parents: Set<ScheduleId>) -> Map<
        ScheduleId,
        Set<ScheduleId>,
    > {
        entered(self.children, id, parents)
    }

    /// The manager after the schedule `s` has been entered as `id` under
    /// `parents`.
    pub open spec fn commit(self, id: ScheduleId, s: Schedule, parents: Set<ScheduleId>) -> ManagerModel {
        ManagerModel {
            schedules: self.schedules.insert(id, s),
            all_index: self.all_index.insert(
                s.level,
                slot(self.all_index, s.level).insert(s.span(id)),
            ),
            exclusive_index: if s.exclusive {
                self.exclusive_index.insert(
                    s.level,
                    slot(self.exclusive_index, s.level).insert(s.span(id)),
                )
            } else {
                self.exclusive_index
            },
            parents: self.parents.insert(id, parents),
            children: self.children_with(id, parents),
            level_index: self.level_index.insert(
                s.level,
                slot(self.level_index, s.level).insert(id),
            ),
        }
    }

    /// The manager after `extra` has been added to the parents of `id`.
    pub open spec fn attach(self, id: ScheduleId, extra: Set<ScheduleId>) -> ManagerModel {
        ManagerModel {
            parents: self.parents.insert(id, slot(self.parents, id).union(extra)),
            children: self.children_with(id, extra),
            ..self
        }
    }

    /// Entering a schedule under a fresh id, with parents that are
    /// schedules of strictly lower level, keeps the invariant.
    pub proof fn lemma_commit_inv(self, id: ScheduleId, s: Schedule, parents: Set<ScheduleId>)
        requires
            self.inv(),
            !self.schedules.contains_key(id),
            forall|p: ScheduleId|
                parents.contains(p) ==> self.schedules.contains_key(p) && self.schedules[p].level
                    < s.level,
        ensures
            self.commit(id, s, parents).inv(),
    {
        let m = self.commit(id, s, parents);
        assert(m.schedules.contains_key(id));
        assert(m.all_index_complete()) by {
            assert forall|x: ScheduleId| #[trigger] m.schedules.contains_key(x) implies m.all_index.contains_key(
                m.schedules[x].level,
            ) && m.all_index[m.schedules[x].level].contains(m.schedules[x].span(x)) by {
                if x != id {
                    assert(self.schedules.contains_key(x));
                }
            }
        }
        assert(m.all_index_sound()) by {
            assert forall|l: ScheduleLevel, iv: Interval|
                m.all_index.contains_key(l) && #[trigger] m.all_index[l].contains(
                    iv,
                ) implies m.schedules.contains_key(iv.val) && m.schedules[iv.val].level == l && iv
                == m.schedules[iv.val].span(iv.val) by {
                if iv != s.span(id) || l != s.level {
                    assert(self.all_index.contains_key(l) && self.all_index[l].contains(iv));
                }
            }
        }
        assert(m.exclusive_index_complete()) by {
            assert forall|x: ScheduleId| #[trigger]
                m.schedules.contains_key(x)
                    && m.schedules[x].exclusive implies m.exclusive_index.contains_key(
                m.schedules[x].level,
            ) && m.exclusive_index[m.schedules[x].level].contains(m.schedules[x].span(x)) by {
                if x != id {
                    assert(self.schedules.contains_key(x));
                }
            }
        }
        assert(m.exclusive_index_sound()) by {
            assert forall|l: ScheduleLevel, iv: Interval|
                m.exclusive_index.contains_key(l) && #[trigger] m.exclusive_index[l].contains(
                    iv,
                ) implies m.schedules.contains_key(iv.val) && m.schedules[iv.val].level == l
                && m.schedules[iv.val].exclusive && iv == m.schedules[iv.val].span(iv.val) by {
                if !s.exclusive || iv != s.span(id) || l != s.level {
                    assert(self.exclusive_index.contains_key(l) && self.exclusive_index[l].contains(
                        iv,
                    ));
                }
            }
        }
        self.lemma_children_with(id, parents);
        assert(m.relations_mirror()) by {
            assert forall|p: ScheduleId, c: ScheduleId|
                #![trigger m.children[p].contains(c)]
                #![trigger m.parents[c].contains(p)]
                (m.children.contains_key(p) && m.children[p].contains(c)) <==> (
                m.parents.contains_key(c) && m.parents[c].contains(p)) by {
                if c == id {
                    if self.children.contains_key(p) && self.children[p].contains(id) {
                        assert(self.parents.contains_key(id));
                    }
                } else {
                    assert(m.parents.contains_key(c) <==> self.parents.contains_key(c));
                    if self.parents.contains_key(c) && self.parents[c].contains(p) {
                        assert(self.children.contains_key(p) && self.children[p].contains(c));
                    }
                }
            }
        }
        assert(m.relations_live()) by {
            assert forall|x: ScheduleId| #[trigger]
                m.parents.contains_key(x) <==> m.schedules.contains_key(x) by {
                assert(self.parents.contains_key(x) <==> self.schedules.contains_key(x));
            }
            assert forall|x: ScheduleId| #[trigger]
                m.children.contains_key(x) implies m.schedules.contains_key(x) by {
                if self.children.contains_key(x) {
                    assert(self.schedules.contains_key(x));
                }
            }
            assert forall|c: ScheduleId, p: ScheduleId|
                m.parents.contains_key(c) && #[trigger] m.parents[c].contains(
                    p,
                ) implies m.schedules.contains_key(p) && m.schedules[p].level
                < m.schedules[c].level by {
                if c != id {
                    assert(self.parents.contains_key(c) && self.parents[c].contains(p));
                    assert(self.schedules.contains_key(c));
                }
            }
        }
        assert(m.level_index_complete()) by {
            assert forall|x: ScheduleId| #[trigger]
                m.schedules.contains_key(x) implies m.level_index.contains_key(
                m.schedules[x].level,
            ) && m.level_index[m.schedules[x].level].contains(x) by {
                if x != id {
                    assert(self.schedules.contains_key(x));
                }
            }
        }
        assert(m.level_index_sound()) by {
            assert forall|l: ScheduleLevel, x: ScheduleId|
                m.level_index.contains_key(l) && #[trigger] m.level_index[l].contains(
                    x,
                ) implies m.schedules.contains_key(x) && m.schedules[x].level == l by {
                if x != id || l != s.level {
                    assert(self.level_index.contains_key(l) && self.level_index[l].contains(x));
                }
            }
            assert forall|l: ScheduleLevel| #[trigger]
                m.level_index.contains_key(l) implies exists|x: ScheduleId|
                m.level_index[l].contains(x) by {
                if l == s.level {
                    assert(m.level_index[l].contains(id));
                } else {
                    assert(self.level_index.contains_key(l));
                    let x = choose|x: ScheduleId| self.level_index[l].contains(x);
                    assert(m.level_index[l].contains(x));
                }
            }
        }
    }

    /// What `children_with` holds: `c` is listed under `p` where it was
    /// before, or where `c` is `id` and `p` one of `parents`.
    pub proof fn lemma_children_with(self, id: ScheduleId, parents: Set<ScheduleId>)
        ensures
            forall|p: ScheduleId, c: ScheduleId|
                (self.children_with(id, parents).contains_key(p) && #[trigger] self.children_with(
                    id,
                    parents,
                )[p].contains(c)) <==> ((self.children.contains_key(p) && self.children[p].contains(
                    c,
                )) || (c == id && parents.contains(p))),
            forall|p: ScheduleId| #[trigger]
                self.children_with(id, parents).contains_key(p) <==> (self.children.contains_key(p)
                    || parents.contains(p)),
    {
    }

    /// Adding parents that are schedules of strictly lower level to a
    /// schedule keeps the invariant.
    pub proof fn lemma_attach_inv(self, id: ScheduleId, extra: Set<ScheduleId>)
        requires
            self.inv(),
            self.schedules.contains_key(id),
            forall|p: ScheduleId|
                extra.contains(p) ==> self.schedules.contains_key(p) && self.schedules[p].level
                    < self.schedules[id].level,
        ensures
            self.attach(id, extra).inv(),
    {
        let m = self.attach(id, extra);
        self.lemma_children_with(id, extra);
        assert(self.parents.contains_key(id));
        assert(m.relations_mirror()) by {
            assert forall|p: ScheduleId, c: ScheduleId|
                #![trigger m.children[p].contains(c)]
                #![trigger m.parents[c].contains(p)]
                (m.children.contains_key(p) && m.children[p].contains(c)) <==> (
                m.parents.contains_key(c) && m.parents[c].contains(p)) by {
                if c != id {
                    assert(m.parents.contains_key(c) <==> self.parents.contains_key(c));
                }
                if self.parents.contains_key(c) && self.parents[c].contains(p) {
                    assert(self.children.contains_key(p) && self.children[p].contains(c));
                }
                if self.children.contains_key(p) && self.children[p].contains(c) {
                    assert(self.parents.contains_key(c) && self.parents[c].contains(p));
                }
            }
        }
        assert(m.relations_live()) by {
            assert forall|x: ScheduleId| #[trigger]
                m.parents.contains_key(x) <==> m.schedules.contains_key(x) by {
                assert(self.parents.contains_key(x) <==> self.schedules.contains_key(x));
            }
            assert forall|x: ScheduleId| #[trigger]
                m.children.contains_key(x) implies m.schedules.contains_key(x) by {
                if self.children.contains_key(x) {
                    assert(self.schedules.contains_key(x));
                }
            }
            assert forall|c: ScheduleId, p: ScheduleId|
                m.parents.contains_key(c) && #[trigger] m.parents[c].contains(
                    p,
                ) implies m.schedules.contains_key(p) && m.schedules[p].level
                < m.schedules[c].level by {
                if c != id || self.parents[c].contains(p) {
                    assert(self.parents.contains_key(c) && self.parents[c].contains(p));
                }
            }
        }
    }
}


impl ManagerModel {
    /// Whether deleting `root` takes `x` with it: `x` is `root`, or `x` has
    /// parents and the deletion takes every one of them.
    pub open spec fn doomed(self, root: ScheduleId, x: ScheduleId) -> bool
        decreases self.schedules[x].level,
    {
        x == root || (self.parents.contains_key(x) && (exists|p: ScheduleId|
            self.parents[x].contains(p)) && forall|p: ScheduleId| #[trigger]
            self.parents[x].contains(p) ==> self.schedules[p].level < self.schedules[x].level
                && self.doomed(root, p))
    }

    /// Everything that deleting `root` removes: `root` and, transitively,
    /// each schedule whose last parent goes.
    pub open spec fn cascade(self, root: ScheduleId) -> Set<ScheduleId> {
        Set::new(|x: ScheduleId| self.doomed(root, x))
    }

    /// The level index after the schedules in `gone` have left it; a level
    /// that loses its last schedule loses its entry.
    pub open spec fn level_index_without(self, gone: Set<ScheduleId>) -> Map<
        ScheduleLevel,
        Set<ScheduleId>,
    > {
        Map::new(
            |l: ScheduleLevel|
                self.level_index.contains_key(l) && exists|id: ScheduleId|
                    self.level_index[l].contains(id) && !gone.contains(id),
            |l: ScheduleLevel| self.level_index[l].difference(gone),
        )
    }

    /// The manager after the schedules in `gone` have been removed from
    /// every structure.
    pub open spec fn without(self, gone: Set<ScheduleId>) -> ManagerModel {
        ManagerModel {
            schedules: self.schedules.remove_keys(gone),
            all_index: Map::new(
                |l: ScheduleLevel| self.all_index.contains_key(l),
                |l: ScheduleLevel|
                    Set::new(|iv: Interval| self.all_index[l].contains(iv) && !gone.contains(iv.val)),
            ),
            exclusive_index: Map::new(
                |l: ScheduleLevel| self.exclusive_index.contains_key(l),
                |l: ScheduleLevel|
                    Set::new(
                        |iv: Interval|
                            self.exclusive_index[l].contains(iv) && !gone.contains(iv.val),
                    ),
            ),
            parents: Map::new(
                |c: ScheduleId| self.parents.contains_key(c) && !gone.contains(c),
                |c: ScheduleId| self.parents[c].difference(gone),
            ),
            children: Map::new(
                |p: ScheduleId| self.children.contains_key(p) && !gone.contains(p),
                |p: ScheduleId| self.children[p].difference(gone),
            ),
            level_index: self.level_index_without(gone),
        }
    }

    /// Removing any set of schedules from every structure keeps the
    /// invariant.
    pub proof fn lemma_without_inv(self, gone: Set<ScheduleId>)
        requires
            self.inv(),
        ensures
            self.without(gone).inv(),
    {
        let m = self.without(gone);
        assert(m.all_index_complete()) by {
            assert forall|x: ScheduleId| #[trigger] m.schedules.contains_key(x) implies m.all_index.contains_key(
                m.schedules[x].level,
            ) && m.all_index[m.schedules[x].level].contains(m.schedules[x].span(x)) by {
                assert(self.schedules.contains_key(x));
            }
        }
        assert(m.all_index_sound()) by {
            assert forall|l: ScheduleLevel, iv: Interval|
                m.all_index.contains_key(l) && #[trigger] m.all_index[l].contains(
                    iv,
                ) implies m.schedules.contains_key(iv.val) && m.schedules[iv.val].level == l && iv
                == m.schedules[iv.val].span(iv.val) by {
                assert(self.all_index.contains_key(l) && self.all_index[l].contains(iv));
            }
        }
        assert(m.exclusive_index_complete()) by {
            assert forall|x: ScheduleId| #[trigger]
                m.schedules.contains_key(x)
                    && m.schedules[x].exclusive implies m.exclusive_index.contains_key(
                m.schedules[x].level,
            ) && m.exclusive_index[m.schedules[x].level].contains(m.schedules[x].span(x)) by {
                assert(self.schedules.contains_key(x));
            }
        }
        assert(m.exclusive_index_sound()) by {
            assert forall|l: ScheduleLevel, iv: Interval|
                m.exclusive_index.contains_key(l) && #[trigger] m.exclusive_index[l].contains(
                    iv,
                ) implies m.schedules.contains_key(iv.val) && m.schedules[iv.val].level == l
                && m.schedules[iv.val].exclusive && iv == m.schedules[iv.val].span(iv.val) by {
                assert(self.exclusive_index.contains_key(l) && self.exclusive_index[l].contains(iv));
            }
        }
        assert(m.relations_mirror()) by {
            assert forall|p: ScheduleId, c: ScheduleId|
                #![trigger m.children[p].contains(c)]
                #![trigger m.parents[c].contains(p)]
                (m.children.contains_key(p) && m.children[p].contains(c)) <==> (
                m.parents.contains_key(c) && m.parents[c].contains(p)) by {
                if self.parents.contains_key(c) && self.parents[c].contains(p) {
                    assert(self.children.contains_key(p) && self.children[p].contains(c));
                }
                if self.children.contains_key(p) && self.children[p].contains(c) {
                    assert(self.parents.contains_key(c) && self.parents[c].contains(p));
                }
            }
        }
        assert(m.relations_live()) by {
            assert forall|x: ScheduleId| #[trigger]
                m.parents.contains_key(x) <==> m.schedules.contains_key(x) by {
                assert(self.parents.contains_key(x) <==> self.schedules.contains_key(x));
            }
            assert forall|x: ScheduleId| #[trigger]
                m.children.contains_key(x) implies m.schedules.contains_key(x) by {
                assert(self.children.contains_key(x));
            }
            assert forall|c: ScheduleId, p: ScheduleId|
                m.parents.contains_key(c) && #[trigger] m.parents[c].contains(
                    p,
                ) implies m.schedules.contains_key(p) && m.schedules[p].level
                < m.schedules[c].level by {
                assert(self.parents.contains_key(c) && self.parents[c].contains(p));
                assert(self.schedules.contains_key(c));
            }
        }
        assert(m.level_index_complete()) by {
            assert forall|x: ScheduleId| #[trigger]
                m.schedules.contains_key(x) implies m.level_index.contains_key(
                m.schedules[x].level,
            ) && m.level_index[m.schedules[x].level].contains(x) by {
                assert(self.schedules.contains_key(x));
                assert(self.level_index[self.schedules[x].level].contains(x));
            }
        }
        assert(m.level_index_sound()) by {
            assert forall|l: ScheduleLevel, x: ScheduleId|
                m.level_index.contains_key(l) && #[trigger] m.level_index[l].contains(
                    x,
                ) implies m.schedules.contains_key(x) && m.schedules[x].level == l by {
                assert(self.level_index.contains_key(l) && self.level_index[l].contains(x));
            }
            assert forall|l: ScheduleLevel| #[trigger]
                m.level_index.contains_key(l) implies exists|x: ScheduleId|
                m.level_index[l].contains(x) by {
                let x = choose|x: ScheduleId| self.level_index[l].contains(x) && !gone.contains(x);
                assert(m.level_index[l].contains(x));
            }
        }
    }

    /// Removing one set of schedules and then another removes their union.
    pub proof fn lemma_without_twice(self, first: Set<ScheduleId>, second: Set<ScheduleId>)
        ensures
            self.without(first).without(second) == self.without(first.union(second)),
    {
        let a = self.without(first).without(second);
        let b = self.without(first.union(second));
        assert(a.schedules =~= b.schedules);
        assert(a.all_index =~= b.all_index) by {
            assert forall|l: ScheduleLevel| #[trigger] a.all_index.contains_key(l) implies a.all_index[l]
                =~= b.all_index[l] by {}
        }
        assert(a.exclusive_index =~= b.exclusive_index) by {
            assert forall|l: ScheduleLevel| #[trigger]
                a.exclusive_index.contains_key(l) implies a.exclusive_index[l]
                =~= b.exclusive_index[l] by {}
        }
        assert(a.parents =~= b.parents) by {
            assert forall|c: ScheduleId| #[trigger] a.parents.contains_key(c) implies a.parents[c]
                =~= b.parents[c] by {}
        }
        assert(a.children =~= b.children) by {
            assert forall|c: ScheduleId| #[trigger] a.children.contains_key(c) implies a.children[c]
                =~= b.children[c] by {}
        }
        assert(a.level_index =~= b.level_index) by {
            let mid = self.without(first);
            assert forall|l: ScheduleLevel|
                a.level_index.contains_key(l) <==> b.level_index.contains_key(l) by {
                if a.level_index.contains_key(l) {
                    let x = choose|x: ScheduleId|
                        mid.level_index[l].contains(x) && !second.contains(x);
                    assert(self.level_index[l].contains(x) && !first.union(second).contains(x));
                }
                if b.level_index.contains_key(l) {
                    let x = choose|x: ScheduleId|
                        self.level_index[l].contains(x) && !first.union(second).contains(x);
                    assert(self.level_index[l].contains(x) && !first.contains(x));
                    assert(mid.level_index.contains_key(l));
                    assert(mid.level_index[l].contains(x) && !second.contains(x));
                }
            }
            assert forall|l: ScheduleLevel| #[trigger] a.level_index.contains_key(l) implies a.level_index[l]
                =~= b.level_index[l] by {}
        }
    }

    /// Where a set of schedules holds `root`, holds only what the deletion
    /// of `root` takes, and leaves behind no schedule that had parents and
    /// has lost them all, it is the cascade of `root`.
    pub proof fn lemma_cascade_is(self, root: ScheduleId, gone: Set<ScheduleId>)
        requires
            self.inv(),
            gone.contains(root),
            forall|x: ScheduleId| gone.contains(x) ==> self.doomed(root, x),
            forall|c: ScheduleId|
                #![trigger self.parents.contains_key(c)]
                self.parents.contains_key(c) && !gone.contains(c) && (exists|p: ScheduleId|
                    self.parents[c].contains(p)) ==> exists|p: ScheduleId|
                    self.parents[c].contains(p) && !gone.contains(p),
        ensures
            gone == self.cascade(root),
    {
        assert forall|x: ScheduleId| self.doomed(root, x) implies gone.contains(x) by {
            self.lemma_doomed_is_gone(root, gone, x);
        }
        assert(gone =~= self.cascade(root));
    }

    proof fn lemma_doomed_is_gone(self, root: ScheduleId, gone: Set<ScheduleId>, x: ScheduleId)
        requires
            self.inv(),
            gone.contains(root),
            forall|c: ScheduleId|
                #![trigger self.parents.contains_key(c)]
                self.parents.contains_key(c) && !gone.contains(c) && (exists|p: ScheduleId|
                    self.parents[c].contains(p)) ==> exists|p: ScheduleId|
                    self.parents[c].contains(p) && !gone.contains(p),
            self.doomed(root, x),
        ensures
            gone.contains(x),
        decreases self.schedules[x].level,
    {
        if x != root && !gone.contains(x) {
            assert(self.parents.contains_key(x));
            let p = choose|p: ScheduleId| self.parents[x].contains(p) && !gone.contains(p);
            assert(self.parents[x].contains(p));
            self.lemma_doomed_is_gone(root, gone, p);
        }
    }
}


/// Whether the set holds nothing.
pub open spec fn no_elements(s: Set<ScheduleId>) -> bool {
    forall|x: ScheduleId| !s.contains(x)
}

impl ManagerModel {
    /// The manager after the single schedule `x` has been taken out, step
    /// by step: out of the schedules, out of the index of its level and the
    /// exclusive index, out of the parents of each of its children and the
    /// children of each of its parents, and out of the level index.
    pub open spec fn detached(self, x: ScheduleId) -> ManagerModel {
        let s = self.schedules[x];
        let rest = slot(self.level_index, s.level).remove(x);
        ManagerModel {
            schedules: self.schedules.remove(x),
            all_index: if self.all_index.contains_key(s.level) {
                self.all_index.insert(s.level, self.all_index[s.level].remove(s.span(x)))
            } else {
                self.all_index
            },
            exclusive_index: if s.exclusive && self.exclusive_index.contains_key(s.level) {
                self.exclusive_index.insert(
                    s.level,
                    self.exclusive_index[s.level].remove(s.span(x)),
                )
            } else {
                self.exclusive_index
            },
            parents: erased(self.parents, x, slot(self.children, x)).remove(x),
            children: erased(self.children.remove(x), x, slot(self.parents, x)),
            level_index: if !self.level_index.contains_key(s.level) {
                self.level_index
            } else if no_elements(rest) {
                self.level_index.remove(s.level)
            } else {
                self.level_index.insert(s.level, rest)
            },
        }
    }

    /// Taking one schedule out step by step removes it from every
    /// structure.
    pub proof fn lemma_detached(self, x: ScheduleId)
        requires
            self.inv(),
            self.schedules.contains_key(x),
        ensures
            self.detached(x) == self.without(set![x]),
    {
        let a = self.detached(x);
        let b = self.without(set![x]);
        let s = self.schedules[x];
        assert(a.schedules =~= b.schedules);
        assert(self.all_index.contains_key(s.level) && self.all_index[s.level].contains(s.span(x)));
        assert(a.all_index =~~= b.all_index) by {
            assert forall|l: ScheduleLevel, iv: Interval| #[trigger]
                a.all_index.contains_key(l) implies (#[trigger] a.all_index[l].contains(iv)
                <==> b.all_index[l].contains(iv)) by {
                if self.all_index[l].contains(iv) {
                    assert(self.schedules.contains_key(iv.val));
                }
            }
        }
        assert(a.exclusive_index =~~= b.exclusive_index) by {
            assert forall|l: ScheduleLevel, iv: Interval| #[trigger]
                a.exclusive_index.contains_key(l) implies (#[trigger] a.exclusive_index[l].contains(
                iv,
            ) <==> b.exclusive_index[l].contains(iv)) by {
                if self.exclusive_index[l].contains(iv) {
                    assert(self.schedules.contains_key(iv.val));
                }
            }
        }
        assert(a.parents =~~= b.parents) by {
            assert forall|c: ScheduleId, p: ScheduleId| #[trigger]
                a.parents.contains_key(c) implies (#[trigger] a.parents[c].contains(p)
                <==> b.parents[c].contains(p)) by {
                if self.parents[c].contains(x) {
                    assert(self.children.contains_key(x) && self.children[x].contains(c));
                }
            }
        }
        assert(a.children =~~= b.children) by {
            assert forall|p: ScheduleId, c: ScheduleId| #[trigger]
                a.children.contains_key(p) implies (#[trigger] a.children[p].contains(c)
                <==> b.children[p].contains(c)) by {
                if self.children[p].contains(x) {
                    assert(self.parents.contains_key(x) && self.parents[x].contains(p));
                }
            }
        }
        assert(a.level_index =~~= b.level_index) by {
            assert(self.level_index.contains_key(s.level) && self.level_index[s.level].contains(x));
            let rest = slot(self.level_index, s.level).remove(x);
            assert forall|l: ScheduleLevel|
                a.level_index.contains_key(l) <==> b.level_index.contains_key(l) by {
                if l == s.level {
                    if b.level_index.contains_key(l) {
                        let id = choose|id: ScheduleId|
                            self.level_index[l].contains(id) && !set![x].contains(id);
                        assert(rest.contains(id));
                    }
                    if !no_elements(rest) {
                        let id = choose|id: ScheduleId| rest.contains(id);
                        assert(self.level_index[l].contains(id) && !set![x].contains(id));
                    }
                } else if self.level_index.contains_key(l) {
                    let id = choose|id: ScheduleId| self.level_index[l].contains(id);
                    assert(self.schedules.contains_key(id) && self.schedules[id].level == l);
                    assert(self.level_index[l].contains(id) && !set![x].contains(id));
                }
            }
            assert forall|l: ScheduleLevel, id: ScheduleId| #[trigger]
                a.level_index.contains_key(l) implies (#[trigger] a.level_index[l].contains(id)
                <==> b.level_index[l].contains(id)) by {
                if self.level_index[l].contains(id) {
                    assert(self.schedules.contains_key(id));
                }
            }
        }
    }
}

} // verus!
