//! A lazy walk over the intervals of a tree that overlap a range.

use crate::interval::{ascending, key_lt, Interval, Timestamp};
use crate::tree::{
    found_in, lemma_overlapping_none, lemma_tree_ok_bounds, lemma_tree_seq_ascending, overlapping,
    tree_ok, tree_seq, tree_set, Node, Tree,
};
use vstd::prelude::*;

verus! {

/// What a stack of nodes still has to give: for each node from the top
/// down, the node itself and then its right subtree.
#[verifier::opaque]
pub open spec fn pending(stack: Seq<&Node>) -> Seq<Interval>
    decreases stack.len(),
{
    if stack.len() == 0 {
        Seq::empty()
    } else {
        seq![stack.last().iv] + tree_seq(stack.last().right) + pending(stack.drop_last())
    }
}

/// Whether every node of the stack is the root of an ordered, annotated
/// subtree.
#[verifier::opaque]
pub open spec fn stack_ok(stack: Seq<&Node>) -> bool {
    forall|i: int| 0 <= i < stack.len() ==> tree_ok(Some(Box::new(*#[trigger] stack[i])))
}

/// Whether the sequence ascends strictly in the key order.
#[verifier::opaque]
pub open spec fn rising(s: Seq<Interval>) -> bool {
    ascending(s)
}

/// Both parts of a rising sequence rise.
proof fn lemma_rising_parts(a: Seq<Interval>, b: Seq<Interval>)
    requires
        rising(a + b),
    ensures
        rising(a),
        rising(b),
{
    reveal(rising);
    let s = a + b;
    assert forall|i: int, j: int| 0 <= i < j < a.len() implies key_lt(a[i], a[j]) by {
        assert(s[i] == a[i] && s[j] == a[j]);
    }
    assert forall|i: int, j: int| 0 <= i < j < b.len() implies key_lt(b[i], b[j]) by {
        assert(s[a.len() + i] == b[i] && s[a.len() + j] == b[j]);
    }
}

/// The selection from two sequences in a row is the selection from the
/// first followed by the selection from the second.
proof fn lemma_overlapping_add(a: Seq<Interval>, b: Seq<Interval>, start: Timestamp, stop: Timestamp)
    ensures
        overlapping(a + b, start, stop) == overlapping(a, start, stop) + overlapping(
            b,
            start,
            stop,
        ),
{
    Seq::filter_distributes_over_add(a, b, |iv: Interval| iv.overlaps(start, stop));
}

/// The selection from an interval followed by two sequences: the interval
/// if it overlaps, then the selection from each sequence.
proof fn lemma_overlapping_step(
    iv: Interval,
    a: Seq<Interval>,
    b: Seq<Interval>,
    start: Timestamp,
    stop: Timestamp,
)
    ensures
        overlapping(seq![iv] + a + b, start, stop) == (if iv.overlaps(start, stop) {
            seq![iv]
        } else {
            Seq::<Interval>::empty()
        }) + (overlapping(a, start, stop) + overlapping(b, start, stop)),
        (seq![iv] + a + b).len() == 1 + a.len() + b.len(),
        (seq![iv] + a + b)[0] == iv,
{
    let one = seq![iv];
    assert(one + a + b =~= one + (a + b));
    lemma_overlapping_add(one, a + b, start, stop);
    lemma_overlapping_add(a, b, start, stop);
    assert(overlapping(one, start, stop) =~= (if iv.overlaps(start, stop) {
        seq![iv]
    } else {
        Seq::<Interval>::empty()
    })) by {
        reveal_with_fuel(Seq::filter, 2);
        assert(one.drop_last() =~= Seq::<Interval>::empty());
        assert(one.last() == iv);
    }
}

/// Nothing of a rising sequence overlaps a range that ends at or before the
/// start of its first interval.
proof fn lemma_nothing_from_here(s: Seq<Interval>, start: Timestamp, stop: Timestamp)
    requires
        rising(s),
        s.len() > 0,
        s[0].start >= stop,
    ensures
        overlapping(s, start, stop) == Seq::<Interval>::empty(),
{
    reveal(rising);
    assert forall|i: int| 0 <= i < s.len() implies !(#[trigger] s[i]).overlaps(start, stop) by {
        if i > 0 {
            assert(key_lt(s[0], s[i]));
        }
    }
    lemma_overlapping_none(s, start, stop);
}

/// Nothing of a subtree overlaps a range that starts after the largest
/// `stop` recorded at its root.
proof fn lemma_nothing_below(n: &Node, start: Timestamp, stop: Timestamp)
    requires
        tree_ok(Some(Box::new(*n))),
        n.max < start,
    ensures
        overlapping(tree_seq(Some(Box::new(*n))), start, stop) == Seq::<Interval>::empty(),
{
    let t: Tree = Some(Box::new(*n));
    let s = tree_seq(t);
    lemma_tree_ok_bounds(t);
    lemma_tree_seq_ascending(t);
    assert forall|i: int| 0 <= i < s.len() implies !(#[trigger] s[i]).overlaps(start, stop) by {
        assert(s.to_set().contains(s[i]));
        assert(tree_set(t).contains(s[i]));
    }
    lemma_overlapping_none(s, start, stop);
}

/// What putting a node on a stack adds to what the stack has to give.
proof fn lemma_push(held: Seq<&Node>, n: &Node, under: Seq<Interval>)
    requires
        stack_ok(held),
        tree_ok(Some(Box::new(*n))),
        under == pending(held),
        rising(tree_seq(Some(Box::new(*n))) + under),
    ensures
        stack_ok(held.push(n)),
        tree_ok(n.left),
        rising(tree_seq(n.left) + pending(held.push(n))),
        tree_seq(n.left) + pending(held.push(n)) == tree_seq(Some(Box::new(*n))) + under,
        tree_seq(n.left).len() + pending(held.push(n)).len() == tree_seq(
            Some(Box::new(*n)),
        ).len() + under.len(),
        tree_seq(n.left).len() < tree_seq(Some(Box::new(*n))).len(),
{
    reveal(stack_ok);
    reveal_with_fuel(pending, 2);
    let next = held.push(n);
    assert(next.drop_last() =~= held);
    assert(next.last() == n);
    assert(tree_seq(n.left) + pending(next) =~= tree_seq(Some(Box::new(*n))) + under);
    assert forall|i: int| 0 <= i < next.len() implies tree_ok(
        Some(Box::new(*#[trigger] next[i])),
    ) by {
        if i < held.len() {
            assert(next[i] == held[i]);
        }
    }
}

/// What taking the top node off a stack leaves to give: the node, its
/// right subtree and what the rest of the stack has to give.
proof fn lemma_pop(held: Seq<&Node>, start: Timestamp, stop: Timestamp)
    requires
        held.len() > 0,
        stack_ok(held),
        rising(pending(held)),
    ensures
        stack_ok(held.drop_last()),
        tree_ok(held.last().right),
        rising(tree_seq(held.last().right) + pending(held.drop_last())),
        pending(held).len() == 1 + tree_seq(held.last().right).len() + pending(
            held.drop_last(),
        ).len(),
        overlapping(pending(held), start, stop) == (if held.last().iv.overlaps(start, stop) {
            seq![held.last().iv]
        } else {
            Seq::<Interval>::empty()
        }) + (overlapping(tree_seq(held.last().right), start, stop) + overlapping(
            pending(held.drop_last()),
            start,
            stop,
        )),
        held.last().iv.start >= stop ==> overlapping(pending(held), start, stop)
            == Seq::<Interval>::empty(),
{
    reveal(stack_ok);
    reveal_with_fuel(pending, 2);
    let node = held.last();
    let rest = held.drop_last();
    let right = tree_seq(node.right);
    let below = pending(rest);
    let due = pending(held);
    assert(due == seq![node.iv] + right + below);
    lemma_overlapping_step(node.iv, right, below, start, stop);
    assert(tree_ok(Some(Box::new(*held[held.len() - 1]))));
    assert(due =~= seq![node.iv] + (right + below));
    lemma_rising_parts(seq![node.iv], right + below);
    assert forall|i: int| 0 <= i < rest.len() implies tree_ok(
        Some(Box::new(*#[trigger] rest[i])),
    ) by {
        assert(rest[i] == held[i]);
    }
    if node.iv.start >= stop {
        lemma_nothing_from_here(due, start, stop);
    }
}

/// An empty stack is in order and has nothing to give.
proof fn lemma_empty_stack(stack: Seq<&Node>, start: Timestamp, stop: Timestamp)
    requires
        stack.len() == 0,
    ensures
        stack_ok(stack),
        rising(pending(stack)),
        pending(stack) == Seq::<Interval>::empty(),
        overlapping(pending(stack), start, stop) == Seq::<Interval>::empty(),
{
    reveal(stack_ok);
    reveal(rising);
    reveal_with_fuel(pending, 2);
    lemma_overlapping_none(pending(stack), start, stop);
}

/// Walks the intervals of a tree that overlap `[start, stop)` in ascending
/// order, one at a time. A subtree whose `max` lies before `start` is never
/// entered, and the walk ends at the first node that begins at or after
/// `stop`. The walk for a range without width yields nothing.
pub struct OverlapIter<'a> {
    stack: Vec<&'a Node>,
    start: Timestamp,
    stop: Timestamp,
}

impl<'a> OverlapIter<'a> {
    /// The intervals that the walk has yet to yield, in the order in which
    /// it yields them.
    pub closed spec fn remaining(&self) -> Seq<Interval> {
        overlapping(pending(self.stack@), self.start, self.stop)
    }

    /// The invariant of the walk.
    pub closed spec fn wf(&self) -> bool {
        stack_ok(self.stack@) && rising(pending(self.stack@))
    }

    /// A walk over the subtree `root` for the range `[start, stop)`. A
    /// range without width finds nothing, so its walk is over before it
    /// begins.
    pub(crate) fn new(root: &'a Tree, start: Timestamp, stop: Timestamp) -> (it: OverlapIter<'a>)
        requires
            tree_ok(*root),
        ensures
            it.wf(),
            it.remaining() == found_in(tree_seq(*root), start, stop),
    {
        let mut it = OverlapIter { stack: Vec::new(), start, stop };
        proof {
            lemma_empty_stack(it.stack@, start, stop);
        }
        if start == stop {
            return it;
        }
        proof {
            lemma_tree_seq_ascending(*root);
            assert(tree_seq(*root) + pending(it.stack@) =~= tree_seq(*root));
            assert(rising(tree_seq(*root))) by {
                reveal(rising);
            }
        }
        it.push_left_chain(root);
        proof {
            assert(overlapping(tree_seq(*root), start, stop) + Seq::<Interval>::empty()
                =~= overlapping(tree_seq(*root), start, stop));
        }
        it
    }

    /// Puts the root of `t` and the nodes down its left edge on the stack,
    /// as far as their subtrees can hold an interval that ends after
    /// `start`.
    fn push_left_chain(&mut self, t: &'a Tree)
        requires
            tree_ok(*t),
            stack_ok(old(self).stack@),
            rising(tree_seq(*t) + pending(old(self).stack@)),
        ensures
            final(self).start == old(self).start,
            final(self).stop == old(self).stop,
            stack_ok(final(self).stack@),
            rising(pending(final(self).stack@)),
            overlapping(pending(final(self).stack@), old(self).start, old(self).stop)
                == overlapping(tree_seq(*t), old(self).start, old(self).stop) + overlapping(
                pending(old(self).stack@),
                old(self).start,
                old(self).stop,
            ),
            pending(final(self).stack@).len() <= tree_seq(*t).len() + pending(
                old(self).stack@,
            ).len(),
    {
        let ghost below = pending(self.stack@);
        let ghost start = self.start;
        let ghost stop = self.stop;
        let ghost goal = overlapping(tree_seq(*t), start, stop) + overlapping(below, start, stop);
        let ghost bound = tree_seq(*t).len() + below.len();
        let mut cur: &'a Tree = t;
        proof {
            lemma_overlapping_add(tree_seq(*t), below, start, stop);
        }
        loop
            invariant_except_break
                tree_ok(*cur),
                rising(tree_seq(*cur) + pending(self.stack@)),
                overlapping(tree_seq(*cur) + pending(self.stack@), start, stop) == goal,
                tree_seq(*cur).len() + pending(self.stack@).len() <= bound,
            invariant
                self.start == start,
                self.stop == stop,
                stack_ok(self.stack@),
            ensures
                rising(pending(self.stack@)),
                overlapping(pending(self.stack@), start, stop) == goal,
                pending(self.stack@).len() <= bound,
            decreases tree_seq(*cur).len(),
        {
            let ghost held = self.stack@;
            let ghost under = pending(held);
            match cur {
                None => {
                    proof {
                        assert(tree_seq(*cur) + under =~= under);
                    }
                    break ;
                },
                Some(n) => {
                    if n.max < self.start {
                        proof {
                            lemma_rising_parts(tree_seq(*cur), under);
                            lemma_overlapping_add(tree_seq(*cur), under, start, stop);
                            lemma_nothing_below(&**n, start, stop);
                            assert(Seq::<Interval>::empty() + overlapping(under, start, stop)
                                =~= overlapping(under, start, stop));
                        }
                        break ;
                    }
                    self.stack.push(&**n);
                    proof {
                        lemma_push(held, &**n, under);
                        assert(self.stack@ == held.push(&**n));
                    }
                    cur = &n.left;
                },
            }
        }
    }

    /// Takes the top node off the stack.
    fn pop_node(&mut self) -> (r: Option<&'a Node>)
        requires
            stack_ok(old(self).stack@),
            rising(pending(old(self).stack@)),
        ensures
            final(self).start == old(self).start,
            final(self).stop == old(self).stop,
            stack_ok(final(self).stack@),
            match r {
                None => final(self).stack@.len() == 0 && rising(pending(final(self).stack@))
                    && overlapping(pending(old(self).stack@), old(self).start, old(self).stop)
                    == Seq::<Interval>::empty() && overlapping(
                    pending(final(self).stack@),
                    old(self).start,
                    old(self).stop,
                ) == Seq::<Interval>::empty(),
                Some(node) => tree_ok(node.right) && rising(
                    tree_seq(node.right) + pending(final(self).stack@),
                ) && pending(old(self).stack@).len() == 1 + tree_seq(node.right).len() + pending(
                    final(self).stack@,
                ).len() && overlapping(pending(old(self).stack@), old(self).start, old(self).stop)
                    == (if node.iv.overlaps(old(self).start, old(self).stop) {
                    seq![node.iv]
                } else {
                    Seq::<Interval>::empty()
                }) + (overlapping(tree_seq(node.right), old(self).start, old(self).stop)
                    + overlapping(pending(final(self).stack@), old(self).start, old(self).stop))
                    && (node.iv.start >= old(self).stop ==> overlapping(
                    pending(old(self).stack@),
                    old(self).start,
                    old(self).stop,
                ) == Seq::<Interval>::empty()),
            },
    {
        let ghost held = self.stack@;
        let r = self.stack.pop();
        proof {
            if held.len() == 0 {
                lemma_empty_stack(held, self.start, self.stop);
            } else {
                assert(self.stack@ == held.drop_last());
                lemma_pop(held, self.start, self.stop);
            }
        }
        r
    }

    /// Empties the stack.
    fn finish(&mut self)
        ensures
            final(self).start == old(self).start,
            final(self).stop == old(self).stop,
            stack_ok(final(self).stack@),
            rising(pending(final(self).stack@)),
            overlapping(pending(final(self).stack@), old(self).start, old(self).stop)
                == Seq::<Interval>::empty(),
    {
        self.stack.clear();
        proof {
            lemma_empty_stack(self.stack@, self.start, self.stop);
        }
    }

    /// The next interval of the walk, or `None` when the walk is over.
    pub fn next(&mut self) -> (r: Option<&'a Interval>)
        requires
            old(self).wf(),
        ensures
            final(self).wf(),
            match r {
                Some(iv) => old(self).remaining().len() > 0 && *iv == old(self).remaining()[0]
                    && final(self).remaining() == old(self).remaining().drop_first(),
                None => old(self).remaining().len() == 0 && final(self).remaining().len() == 0,
            },
    {
        let ghost start = self.start;
        let ghost stop = self.stop;
        let ghost wanted = self.remaining();
        loop
            invariant
                stack_ok(self.stack@),
                rising(pending(self.stack@)),
                self.start == start,
                self.stop == stop,
                overlapping(pending(self.stack@), start, stop) == wanted,
                wanted == old(self).remaining(),
            decreases pending(self.stack@).len(),
        {
            match self.pop_node() {
                None => {
                    return None;
                },
                Some(node) => {
                    if node.iv.start >= self.stop {
                        self.finish();
                        return None;
                    }
                    self.push_left_chain(&node.right);
                    let ghost after = overlapping(pending(self.stack@), start, stop);
                    if node.iv.overlap(self.start, self.stop) {
                        proof {
                            assert(wanted == seq![node.iv] + after);
                            assert(wanted.drop_first() =~= after);
                        }
                        return Some(&node.iv);
                    }
                    proof {
                        assert(wanted =~= after);
                    }
                },
            }
        }
    }
}

} // verus!
