//! The interval index: a sorted set of intervals kept side by side with an
//! augmented AVL tree over the same intervals.

use crate::interval::{ascending, interval_of, key_lt, Interval, IntervalKey, Timestamp};
use crate::tree::{
    found_in, median_height, overlapping, tree_height, tree_seq, tree_set, tree_wf, Node, Tree,
};
use crate::walk::OverlapIter;
use std::collections::BTreeSet;
use vstd::prelude::*;
use vstd::std_specs::btree::increasing_seq;
use vstd::std_specs::iter::IteratorSpec;

verus! {

/// An index of intervals that answers which of them overlap a range.
///
/// The sorted set is the snapshot of what the index holds; the tree answers
/// the queries. Both hold the same intervals after every operation.
#[derive(Debug)]
pub struct Lapper {
    intervals: BTreeSet<IntervalKey>,
    root: Tree,
}

impl View for Lapper {
    type V = Seq<Interval>;

    /// The intervals of the index in ascending `(start, stop, val)` order:
    /// the traversal of the tree.
    closed spec fn view(&self) -> Seq<Interval> {
        tree_seq(self.root)
    }
}

impl Clone for Lapper {
    /// A copy of the index: the same sorted set and a tree of the same
    /// shape.
    fn clone(&self) -> (l: Lapper)
        ensures
            l@ == self@,
            l.keys() == self.keys(),
            l.wf() == self.wf(),
    {
        Lapper { intervals: self.intervals.clone(), root: Node::copy_tree(&self.root) }
    }
}

/// Two ascending sequences over the same set are the same sequence.
pub proof fn lemma_ascending_unique(a: Seq<Interval>, b: Seq<Interval>)
    requires
        ascending(a),
        ascending(b),
        a.to_set() == b.to_set(),
    ensures
        a == b,
    decreases a.len(),
{
    if a.len() == 0 {
        if b.len() > 0 {
            assert(b.to_set().contains(b[0]));
            assert(a.to_set().contains(b[0]));
        }
        assert(a =~= b);
    } else {
        assert(a.to_set().contains(a.last()));
        assert(b.to_set().contains(a.last()));
        assert(b.len() > 0);
        assert(b.to_set().contains(b.last()));
        assert(a.to_set().contains(b.last()));
        let i = choose|i: int| 0 <= i < b.len() && b[i] == a.last();
        let j = choose|j: int| 0 <= j < a.len() && a[j] == b.last();
        crate::interval::lemma_key_lt_total(a.last(), b.last());
        assert(a.last() == b.last()) by {
            if i < b.len() - 1 {
                assert(key_lt(b[i], b.last()));
            }
            if j < a.len() - 1 {
                assert(key_lt(a[j], a.last()));
            }
        }
        let a0 = a.drop_last();
        let b0 = b.drop_last();
        assert forall|x: Interval| a0.to_set().contains(x) <==> b0.to_set().contains(x) by {
            if a0.to_set().contains(x) {
                let k = choose|k: int| 0 <= k < a0.len() && a0[k] == x;
                assert(a[k] == x);
                assert(key_lt(a[k], a.last()));
                assert(a.to_set().contains(x));
                assert(b.to_set().contains(x));
                let m = choose|m: int| 0 <= m < b.len() && b[m] == x;
                assert(m < b.len() - 1);
                assert(b0[m] == x);
            }
            if b0.to_set().contains(x) {
                let k = choose|k: int| 0 <= k < b0.len() && b0[k] == x;
                assert(b[k] == x);
                assert(key_lt(b[k], b.last()));
                assert(b.to_set().contains(x));
                assert(a.to_set().contains(x));
                let m = choose|m: int| 0 <= m < a.len() && a[m] == x;
                assert(m < a.len() - 1);
                assert(a0[m] == x);
            }
        }
        assert(a0.to_set() =~= b0.to_set());
        assert(ascending(a0));
        assert(ascending(b0));
        lemma_ascending_unique(a0, b0);
        assert(a =~= a0.push(a.last()));
        assert(b =~= b0.push(b.last()));
    }
}

impl Lapper {
    /// The keys that the sorted set holds.
    pub closed spec fn keys(&self) -> Set<IntervalKey> {
        self.intervals@
    }

    /// The invariant of the index: the tree is a valid augmented AVL tree,
    /// and it holds exactly the intervals whose keys are in the sorted set.
    pub closed spec fn wf(&self) -> bool {
        &&& tree_wf(self.root)
        &&& tree_seq(self.root).len() == self.intervals@.len()
        &&& forall|k: IntervalKey| #[trigger]
            self.intervals@.contains(k) <==> tree_set(self.root).contains(interval_of(k))
    }

    /// The traversal of a valid index ascends strictly, so no interval
    /// occurs twice, and the sorted set holds the keys of exactly the
    /// intervals in it.
    pub proof fn lemma_view(&self)
        requires
            self.wf(),
        ensures
            ascending(self@),
            self@.no_duplicates(),
            self@.len() == self.keys().len(),
            forall|k: IntervalKey| self.keys().contains(k) <==> self@.contains(interval_of(k)),
            forall|iv: Interval| self@.contains(iv) <==> self.keys().contains(iv.spec_key()),
    {
        crate::tree::lemma_tree_seq_ascending(self.root);
        assert forall|k: IntervalKey| self.keys().contains(k) <==> self@.contains(
            interval_of(k),
        ) by {
            assert(self@.to_set().contains(interval_of(k)) <==> self@.contains(interval_of(k)));
        }
        assert forall|iv: Interval| self@.contains(iv) <==> self.keys().contains(
            iv.spec_key(),
        ) by {
            assert(interval_of(iv.spec_key()) == iv);
            assert(self@.to_set().contains(iv) <==> self@.contains(iv));
        }
    }

    /// The sorted set and the tree list the same intervals in the same
    /// order: whatever ascending sequence enumerates the keys of the sorted
    /// set is the traversal of the tree.
    pub proof fn lemma_sorted_set_is_traversal(&self, s: Seq<Interval>)
        requires
            self.wf(),
            ascending(s),
            forall|iv: Interval| s.contains(iv) <==> self.keys().contains(iv.spec_key()),
        ensures
            s == self@,
    {
        self.lemma_view();
        assert forall|iv: Interval| s.to_set().contains(iv) <==> self@.to_set().contains(iv) by {
            assert(s.to_set().contains(iv) <==> s.contains(iv));
            assert(self@.to_set().contains(iv) <==> self@.contains(iv));
        }
        assert(s.to_set() =~= self@.to_set());
        lemma_ascending_unique(s, self@);
    }

    /// Two valid indices holding the same intervals have the same traversal,
    /// and so answer every query alike.
    pub proof fn lemma_same_intervals_same_answers(
        &self,
        other: &Lapper,
        start: Timestamp,
        stop: Timestamp,
    )
        requires
            self.wf(),
            other.wf(),
            self@.to_set() == other@.to_set(),
        ensures
            self@ == other@,
            found_in(self@, start, stop) == found_in(other@, start, stop),
    {
        self.lemma_view();
        other.lemma_view();
        lemma_ascending_unique(self@, other@);
    }
}

/// A sorted set holds finitely many keys, and no more than `usize` counts.
proof fn lemma_key_set_finite(set: &BTreeSet<IntervalKey>)
    ensures
        set@.finite(),
        set@.len() <= usize::MAX,
{
    vstd::std_specs::btree::axiom_spec_btree_keys_iter(set);
    vstd::seq_lib::seq_to_set_is_finite(set.iter().remaining().unref());
    assert(set.len() == set@.len());
}

/// Adds the key of every interval of `items` to `set`.
fn add_keys(set: &mut BTreeSet<IntervalKey>, items: &Vec<Interval>)
    ensures
        forall|k: IntervalKey|
            final(set)@.contains(k) <==> (old(set)@.contains(k) || items@.contains(interval_of(k))),
{
    let ghost old_keys = set@;
    let mut i: usize = 0;
    while i < items.len()
        invariant
            i <= items.len(),
            forall|k: IntervalKey| #[trigger]
                set@.contains(k) <==> (old_keys.contains(k) || items@.take(i as int).contains(
                    interval_of(k),
                )),
        decreases items.len() - i,
    {
        let ghost pre = set@;
        set.insert(items[i].key());
        proof {
            let taken = items@.take(i as int);
            let next = taken.push(items@[i as int]);
            assert(items@.take(i + 1) =~= next);
            assert forall|k: IntervalKey| #[trigger]
                set@.contains(k) <==> (old_keys.contains(k) || items@.take(i + 1).contains(
                    interval_of(k),
                )) by {
                assert(pre.contains(k) <==> (old_keys.contains(k) || taken.contains(
                    interval_of(k),
                )));
                assert(set@.contains(k) <==> (pre.contains(k) || k == items@[i as int].spec_key()));
                assert(interval_of(items@[i as int].spec_key()) == items@[i as int]);
                if next.contains(interval_of(k)) {
                    let j = choose|j: int| 0 <= j < next.len() && next[j] == interval_of(k);
                    if j < taken.len() {
                        assert(taken[j] == interval_of(k));
                    }
                }
                if taken.contains(interval_of(k)) {
                    let j = choose|j: int| 0 <= j < taken.len() && taken[j] == interval_of(k);
                    assert(next[j] == interval_of(k));
                }
                if k == items@[i as int].spec_key() {
                    assert(next[i as int] == interval_of(k));
                }
            }
        }
        i = i + 1;
    }
    proof {
        assert(items@.take(items@.len() as int) =~= items@);
    }
}

/// The intervals whose keys `set` holds, in ascending order.
fn sorted_intervals(set: &BTreeSet<IntervalKey>) -> (v: Vec<Interval>)
    ensures
        ascending(v@),
        v@.len() == set@.len(),
        forall|k: IntervalKey| set@.contains(k) <==> v@.contains(interval_of(k)),
{
    let mut v: Vec<Interval> = Vec::new();
    let ghost keys = set.iter().remaining();
    for k in it: set.iter()
        invariant
            it.seq() == keys,
            keys.unref().to_set() == set@,
            keys.len() == set@.len(),
            increasing_seq(keys),
            v@.len() == it.index(),
            forall|i: int| 0 <= i < v@.len() ==> v@[i] == interval_of(*keys[i]),
    {
        v.push(Interval::from_key(k));
    }
    proof {
        crate::keyorder::lemma_increasing_keys_ascend(keys, v@);
        assert forall|k: IntervalKey| set@.contains(k) <==> v@.contains(interval_of(k)) by {
            if set@.contains(k) {
                assert(keys.unref().to_set().contains(k));
                let i = choose|i: int| 0 <= i < keys.unref().len() && keys.unref()[i] == k;
                assert(v@[i] == interval_of(k));
            }
            if v@.contains(interval_of(k)) {
                let i = choose|i: int| 0 <= i < v@.len() && v@[i] == interval_of(k);
                assert(*keys[i] == k);
                assert(keys.unref()[i] == k);
                assert(keys.unref().to_set().contains(k));
            }
        }
    }
    v
}

impl Lapper {
    /// The tree of the index.
    pub closed spec fn tree(&self) -> Tree {
        self.root
    }

    /// In a valid index every node of the tree is in search order, records
    /// the height of its subtree and the largest `stop` in it, and has
    /// children whose heights differ by at most one.
    pub proof fn lemma_tree_valid(&self)
        requires
            self.wf(),
        ensures
            tree_wf(self.tree()),
            tree_seq(self.tree()) == self@,
    {
    }

    /// Builds the tree for the sorted set `intervals` by median splitting
    /// and keeps the set beside it.
    pub fn new(intervals: BTreeSet<IntervalKey>) -> (l: Lapper)
        ensures
            l.wf(),
            l.keys() == intervals@,
            forall|iv: Interval| l@.contains(iv) <==> intervals@.contains(iv.spec_key()),
            tree_height(l.tree()) == median_height(l@.len()),
    {
        let sorted = sorted_intervals(&intervals);
        let root = Node::build(&sorted, 0, sorted.len());
        proof {
            assert(sorted@.subrange(0, sorted@.len() as int) =~= sorted@);
            crate::tree::lemma_tree_seq_ascending(root);
            assert forall|k: IntervalKey| intervals@.contains(k) <==> tree_set(root).contains(
                interval_of(k),
            ) by {
                assert(sorted@.to_set().contains(interval_of(k)) <==> sorted@.contains(
                    interval_of(k),
                ));
            }
        }
        let l = Lapper { intervals, root };
        proof {
            l.lemma_view();
        }
        l
    }

    /// Builds an index from intervals in any order; an interval given more
    /// than once is kept once. The tree is built by median splitting.
    pub fn from_vec(intervals: Vec<Interval>) -> (l: Lapper)
        ensures
            l.wf(),
            l@.to_set() == intervals@.to_set(),
            tree_height(l.tree()) == median_height(l@.len()),
    {
        let mut set: BTreeSet<IntervalKey> = BTreeSet::new();
        add_keys(&mut set, &intervals);
        let l = Lapper::new(set);
        proof {
            l.lemma_view();
            assert forall|iv: Interval| l@.to_set().contains(iv) <==> intervals@.to_set().contains(
                iv,
            ) by {
                assert(interval_of(iv.spec_key()) == iv);
                assert(l@.to_set().contains(iv) <==> l@.contains(iv));
                assert(intervals@.to_set().contains(iv) <==> intervals@.contains(iv));
            }
            assert(l@.to_set() =~= intervals@.to_set());
        }
        l
    }

    /// Inserts `elem` unless the index already holds it.
    pub fn insert(&mut self, elem: Interval)
        requires
            old(self).wf(),
        ensures
            final(self).wf(),
            final(self)@.to_set() == old(self)@.to_set().insert(elem),
    {
        proof {
            crate::tree::lemma_tree_seq_ascending(self.root);
            assert(interval_of(elem.spec_key()) == elem);
        }
        let ghost old_keys = self.intervals@;
        let ghost old_root = self.root;
        let fresh = self.intervals.insert(elem.key());
        proof {
            lemma_key_set_finite(&old(self).intervals);
            lemma_key_set_finite(&self.intervals);
            assert(self.intervals@ == old_keys.insert(elem.spec_key()));
        }
        if fresh {
            let root = self.root.take();
            let grown = match root {
                Some(r) => Node::insert(r, elem),
                None => Box::new(Node::new(elem)),
            };
            self.root = Some(grown);
            proof {
                assert(tree_set(self.root) =~= tree_set(old_root).insert(elem));
                crate::tree::lemma_tree_seq_ascending(self.root);
            }
        } else {
            proof {
                assert(self.intervals@ =~= old_keys);
                assert(tree_set(old_root).insert(elem) =~= tree_set(old_root));
            }
        }
    }

    /// Removes `elem` from the index and says whether it was there.
    pub fn remove(&mut self, elem: &Interval) -> (removed: bool)
        requires
            old(self).wf(),
        ensures
            final(self).wf(),
            removed == old(self)@.contains(*elem),
            final(self)@.to_set() == old(self)@.to_set().remove(*elem),
    {
        proof {
            crate::tree::lemma_tree_seq_ascending(self.root);
            assert(interval_of(elem.spec_key()) == *elem);
            assert(self@.to_set().contains(*elem) <==> self@.contains(*elem));
        }
        let ghost old_root = self.root;
        let ghost old_keys = self.intervals@;
        proof {
            lemma_key_set_finite(&self.intervals);
        }
        match self.root.take() {
            Some(r) => {
                let (nr, removed) = Node::remove(r, elem);
                self.root = nr;
                if removed {
                    let key = elem.key();
                    self.intervals.remove(&key);
                    proof {
                        assert(self.intervals@ == old_keys.remove(elem.spec_key()));
                    }
                }
                proof {
                    crate::tree::lemma_tree_seq_ascending(self.root);
                }
                removed
            },
            None => {
                proof {
                    assert(tree_set(old_root).remove(*elem) =~= tree_set(old_root));
                }
                false
            },
        }
    }

    /// Adds every interval of `new_intervals` to the sorted set, then
    /// rebuilds the tree from the set by median splitting. An empty batch
    /// leaves the index as it is.
    pub fn insert_batch(&mut self, new_intervals: Vec<Interval>)
        requires
            old(self).wf(),
        ensures
            final(self).wf(),
            final(self)@.to_set() == old(self)@.to_set().union(new_intervals@.to_set()),
            new_intervals@.len() == 0 ==> final(self).tree() == old(self).tree(),
            new_intervals@.len() > 0 ==> tree_height(final(self).tree()) == median_height(
                final(self)@.len(),
            ),
    {
        proof {
            self.lemma_view();
        }
        if new_intervals.len() == 0 {
            proof {
                assert(self@.to_set().union(new_intervals@.to_set()) =~= self@.to_set());
            }
            return ;
        }
        let ghost old_view = self@;
        let ghost old_keys = self.intervals@;
        add_keys(&mut self.intervals, &new_intervals);
        let sorted = sorted_intervals(&self.intervals);
        self.root = Node::build(&sorted, 0, sorted.len());
        proof {
            assert(sorted@.subrange(0, sorted@.len() as int) =~= sorted@);
            crate::tree::lemma_tree_seq_ascending(self.root);
            assert forall|k: IntervalKey|
                self.intervals@.contains(k) <==> tree_set(self.root).contains(interval_of(k)) by {
                assert(sorted@.to_set().contains(interval_of(k)) <==> sorted@.contains(
                    interval_of(k),
                ));
            }
            assert forall|iv: Interval|
                self@.to_set().contains(iv) <==> old_view.to_set().union(
                    new_intervals@.to_set(),
                ).contains(iv) by {
                assert(interval_of(iv.spec_key()) == iv);
                assert(old_view.to_set().contains(iv) <==> old_view.contains(iv));
                assert(new_intervals@.to_set().contains(iv) <==> new_intervals@.contains(iv));
                assert(sorted@.to_set().contains(iv) <==> sorted@.contains(iv));
            }
            assert(self@.to_set() =~= old_view.to_set().union(new_intervals@.to_set()));
        }
    }

    /// What a query for the range `[start, stop)` finds: the intervals that
    /// overlap it, which are exactly those with `iv.start < stop` and
    /// `iv.stop > start`, in ascending order. A range without width finds
    /// nothing, also where it lies inside an interval.
    pub fn find(&self, start: Timestamp, stop: Timestamp) -> (found: Vec<Interval>)
        requires
            self.wf(),
        ensures
            found@ == found_in(self@, start, stop),
    {
        let mut found: Vec<Interval> = Vec::new();
        if start == stop {
            return found;
        }
        Node::collect_overlaps(&self.root, start, stop, &mut found);
        proof {
            assert(Seq::<Interval>::empty() + overlapping(self@, start, stop) =~= overlapping(
                self@,
                start,
                stop,
            ));
        }
        found
    }

    /// A walk over what a query for the range `[start, stop)` finds, in
    /// ascending order. The walk borrows the tree and finds each interval
    /// only when it is asked for the next. A range without width finds
    /// nothing.
    pub fn find_iter(&self, start: Timestamp, stop: Timestamp) -> (it: OverlapIter<'_>)
        requires
            self.wf(),
        ensures
            it.wf(),
            it.remaining() == found_in(self@, start, stop),
    {
        OverlapIter::new(&self.root, start, stop)
    }

    /// Whether some interval overlaps `[start, stop)`: whether the walk
    /// over the range yields anything. A range that is empty or reversed
    /// overlaps nothing.
    pub fn has_overlap(&self, start: Timestamp, stop: Timestamp) -> (b: bool)
        requires
            self.wf(),
        ensures
            b == (start < stop && exists|i: int|
                0 <= i < self@.len() && (#[trigger] self@[i]).overlaps(start, stop)),
            start >= stop ==> !b,
    {
        if start >= stop {
            return false;
        }
        let mut it = self.find_iter(start, stop);
        let b = it.next().is_some();
        proof {
            let found = overlapping(self@, start, stop);
            if b {
                crate::tree::lemma_overlapping_contains(self@, start, stop, found[0]);
                assert(found.contains(found[0]));
                let i = choose|i: int| 0 <= i < self@.len() && self@[i] == found[0];
                assert(self@[i].overlaps(start, stop));
            } else {
                assert forall|i: int| 0 <= i < self@.len() implies !(#[trigger] self@[i]).overlaps(
                    start,
                    stop,
                ) by {
                    crate::tree::lemma_overlapping_contains(self@, start, stop, self@[i]);
                    assert(self@.contains(self@[i]));
                    if self@[i].overlaps(start, stop) {
                        assert(found.contains(self@[i]));
                    }
                }
            }
        }
        b
    }

    /// The intervals of the index in ascending order, read off the sorted
    /// set.
    pub fn intervals(&self) -> (v: Vec<Interval>)
        requires
            self.wf(),
        ensures
            v@ == self@,
    {
        let v = sorted_intervals(&self.intervals);
        proof {
            assert forall|iv: Interval| v@.contains(iv) <==> self.keys().contains(
                iv.spec_key(),
            ) by {
                assert(interval_of(iv.spec_key()) == iv);
            }
            self.lemma_sorted_set_is_traversal(v@);
        }
        v
    }

    /// The number of intervals in the index.
    pub fn len(&self) -> (n: usize)
        requires
            self.wf(),
        ensures
            n == self@.len(),
    {
        self.intervals.len()
    }

    /// Whether the index holds no interval.
    pub fn is_empty(&self) -> (b: bool)
        requires
            self.wf(),
        ensures
            b == (self@.len() == 0),
    {
        self.intervals.len() == 0
    }

    /// Whether the index holds `elem`.
    pub fn contains(&self, elem: &Interval) -> (b: bool)
        requires
            self.wf(),
        ensures
            b == self@.contains(*elem),
    {
        proof {
            self.lemma_view();
        }
        let key = elem.key();
        self.intervals.contains(&key)
    }
}

/// Inserting an interval that an index does not hold and removing it again
/// leaves the index as it was.
pub proof fn lemma_insert_then_remove(before: Lapper, between: Lapper, after: Lapper, iv: Interval)
    requires
        before.wf(),
        between.wf(),
        after.wf(),
        !before@.contains(iv),
        between@.to_set() == before@.to_set().insert(iv),
        after@.to_set() == between@.to_set().remove(iv),
    ensures
        after@ == before@,
        after@.to_multiset() == before@.to_multiset(),
{
    assert(!before@.to_set().contains(iv));
    assert(after@.to_set() =~= before@.to_set());
    after.lemma_same_intervals_same_answers(&before, 0, 0);
}

/// What `find` returns ascends strictly in `(start, stop, val)` order. For
/// a range without width it is nothing; for every other range it holds
/// exactly the intervals of the index with `iv.start < stop` and
/// `iv.stop > start`.
pub proof fn lemma_find_exact(index: Lapper, start: Timestamp, stop: Timestamp)
    requires
        index.wf(),
    ensures
        ascending(found_in(index@, start, stop)),
        start == stop ==> found_in(index@, start, stop).len() == 0,
        start != stop ==> forall|iv: Interval|
            found_in(index@, start, stop).contains(iv) <==> (index@.contains(iv) && iv.start
                < stop && iv.stop > start),
{
    index.lemma_view();
    let all = index@;
    if start != stop {
        let found = overlapping(all, start, stop);
        assert forall|iv: Interval|
            found.contains(iv) <==> (all.contains(iv) && iv.start < stop && iv.stop > start) by {
            crate::tree::lemma_overlapping_contains(all, start, stop, iv);
        }
        crate::tree::lemma_overlapping_ascends(all, start, stop);
    }
}

} // verus!
