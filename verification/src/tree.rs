//! The augmented AVL tree under the interval index.
//!
//! Every node carries an interval, the height of its subtree and the largest
//! `stop` found in that subtree. The functions here keep three things true of
//! every node: the search-tree order on `(start, stop, val)`, the two
//! annotations, and the AVL balance.

use crate::interval::{ascending, key_lt, Interval, Timestamp};
use vstd::prelude::*;

verus! {

/// One node of the tree.
#[derive(Debug)]
pub struct Node {
    pub iv: Interval,
    pub max: Timestamp,
    pub height: usize,
    pub left: Option<Box<Node>>,
    pub right: Option<Box<Node>>,
}

/// A possibly empty subtree.
pub type Tree = Option<Box<Node>>;

/// The intervals of a subtree, in order of traversal: left, node, right.
pub open spec fn tree_seq(t: Tree) -> Seq<Interval>
    decreases t,
{
    match t {
        None => Seq::empty(),
        Some(n) => tree_seq(n.left) + seq![n.iv] + tree_seq(n.right),
    }
}

/// The intervals of a subtree, as a set.
pub open spec fn tree_set(t: Tree) -> Set<Interval>
    decreases t,
{
    match t {
        None => Set::empty(),
        Some(n) => tree_set(n.left).union(tree_set(n.right)).insert(n.iv),
    }
}

/// The height recorded at the root of a subtree; 0 for the empty one.
pub open spec fn tree_height(t: Tree) -> int {
    match t {
        None => 0,
        Some(n) => n.height as int,
    }
}

/// The `max` recorded at the root of a subtree, or `dflt` for the empty one.
pub open spec fn tree_max(t: Tree, dflt: Timestamp) -> Timestamp {
    match t {
        None => dflt,
        Some(n) => n.max,
    }
}

pub open spec fn max2(a: int, b: int) -> int {
    if a >= b {
        a
    } else {
        b
    }
}

/// The largest of a node's own `stop` and the `max` of each child it has.
pub open spec fn max_of(n: Node) -> Timestamp {
    let m = n.iv.stop;
    let m = if tree_max(n.left, m) > m {
        tree_max(n.left, m)
    } else {
        m
    };
    if tree_max(n.right, m) > m {
        tree_max(n.right, m)
    } else {
        m
    }
}

/// Everything to the left sorts before the node, everything to the right
/// after it.
pub open spec fn ordered_at(n: Node) -> bool {
    &&& forall|x: Interval| #[trigger] tree_set(n.left).contains(x) ==> key_lt(x, n.iv)
    &&& forall|x: Interval| #[trigger] tree_set(n.right).contains(x) ==> key_lt(n.iv, x)
}

/// The node's `height` and `max` agree with its children's.
pub open spec fn annotated_at(n: Node) -> bool {
    &&& n.height == 1 + max2(tree_height(n.left), tree_height(n.right))
    &&& n.max == max_of(n)
}

/// The heights of the node's children differ by at most one.
pub open spec fn balanced_at(n: Node) -> bool {
    &&& tree_height(n.left) <= tree_height(n.right) + 1
    &&& tree_height(n.right) <= tree_height(n.left) + 1
}

/// Every node of the subtree is ordered and correctly annotated.
pub open spec fn tree_ok(t: Tree) -> bool
    decreases t,
{
    match t {
        None => true,
        Some(n) => tree_ok(n.left) && tree_ok(n.right) && ordered_at(*n) && annotated_at(*n),
    }
}

/// Every node of the subtree is balanced.
pub open spec fn tree_balanced(t: Tree) -> bool
    decreases t,
{
    match t {
        None => true,
        Some(n) => tree_balanced(n.left) && tree_balanced(n.right) && balanced_at(*n),
    }
}

/// The invariant of the tree: order, annotations and balance at every node.
pub open spec fn tree_wf(t: Tree) -> bool {
    tree_ok(t) && tree_balanced(t)
}

/// The node with its two annotations recomputed from its children.
pub open spec fn refreshed(n: Node) -> Node {
    let h = (1 + max2(tree_height(n.left), tree_height(n.right))) as usize;
    Node { height: h, max: max_of(n), ..n }
}

/// The tree after a right rotation about `n`, whose left child moves up.
pub open spec fn rotated_right(n: Node) -> Node
    recommends
        n.left is Some,
{
    let l = *n.left.unwrap();
    let down = refreshed(Node { left: l.right, ..n });
    refreshed(Node { right: Some(Box::new(down)), ..l })
}

/// The tree after a left rotation about `n`, whose right child moves up.
pub open spec fn rotated_left(n: Node) -> Node
    recommends
        n.right is Some,
{
    let r = *n.right.unwrap();
    let down = refreshed(Node { right: r.left, ..n });
    refreshed(Node { left: Some(Box::new(down)), ..r })
}

/// The tree after the AVL repair at `n`: annotations recomputed, then a
/// single or double rotation where one side is two higher than the other.
pub open spec fn rebalanced(n: Node) -> Node {
    let m = refreshed(n);
    let hl = tree_height(m.left);
    let hr = tree_height(m.right);
    if hl > hr + 1 {
        let l = *m.left.unwrap();
        if tree_height(l.right) > tree_height(l.left) {
            rotated_right(Node { left: Some(Box::new(rotated_left(l))), ..m })
        } else {
            rotated_right(m)
        }
    } else if hr > hl + 1 {
        let r = *m.right.unwrap();
        if tree_height(r.left) > tree_height(r.right) {
            rotated_left(Node { right: Some(Box::new(rotated_right(r))), ..m })
        } else {
            rotated_left(m)
        }
    } else {
        m
    }
}

/// A correctly annotated subtree is no higher than it has nodes, and its
/// recorded `max` bounds every `stop` in it.
pub proof fn lemma_tree_ok_bounds(t: Tree)
    requires
        tree_ok(t),
    ensures
        0 <= tree_height(t) <= tree_seq(t).len(),
        t is Some ==> tree_height(t) >= 1,
        tree_set(t).finite(),
        forall|x: Interval| #[trigger] tree_set(t).contains(x) ==> x.stop <= tree_max(t, x.stop),
    decreases t,
{
    match t {
        None => {},
        Some(n) => {
            lemma_tree_ok_bounds(n.left);
            lemma_tree_ok_bounds(n.right);
        },
    }
}

/// The traversal of an ordered subtree ascends strictly and lists exactly the
/// subtree's set.
pub proof fn lemma_tree_seq_ascending(t: Tree)
    requires
        tree_ok(t),
    ensures
        crate::interval::ascending(tree_seq(t)),
        tree_seq(t).to_set() == tree_set(t),
        tree_seq(t).no_duplicates(),
        tree_set(t).len() == tree_seq(t).len(),
    decreases t,
{
    match t {
        None => {
            assert(tree_seq(t).to_set() =~= tree_set(t));
        },
        Some(n) => {
            lemma_tree_seq_ascending(n.left);
            lemma_tree_seq_ascending(n.right);
            let l = tree_seq(n.left);
            let r = tree_seq(n.right);
            let s = tree_seq(t);
            assert(s == l + seq![n.iv] + r);
            assert forall|i: int| 0 <= i < s.len() implies #[trigger] tree_set(t).contains(s[i]) by {
                if i < l.len() {
                    assert(s[i] == l[i]);
                    assert(l.to_set().contains(l[i]));
                } else if i > l.len() {
                    assert(s[i] == r[i - l.len() - 1]);
                    assert(r.to_set().contains(r[i - l.len() - 1]));
                }
            }
            assert forall|x: Interval| tree_set(t).contains(x) implies s.contains(x) by {
                if tree_set(n.left).contains(x) {
                    assert(l.to_set().contains(x));
                    let i = choose|i: int| 0 <= i < l.len() && l[i] == x;
                    assert(s[i] == x);
                } else if tree_set(n.right).contains(x) {
                    assert(r.to_set().contains(x));
                    let i = choose|i: int| 0 <= i < r.len() && r[i] == x;
                    assert(s[l.len() + 1 + i] == x);
                } else {
                    assert(s[l.len() as int] == x);
                }
            }
            assert(s.to_set() =~= tree_set(t));
            assert forall|i: int, j: int| 0 <= i < j < s.len() implies key_lt(s[i], s[j]) by {
                let ll = l.len() as int;
                if j < ll {
                    assert(s[i] == l[i] && s[j] == l[j]);
                } else if i > ll {
                    assert(s[i] == r[i - ll - 1] && s[j] == r[j - ll - 1]);
                } else {
                    if i < ll {
                        assert(s[i] == l[i]);
                        assert(l.to_set().contains(l[i]));
                        assert(key_lt(s[i], n.iv));
                    } else {
                        assert(s[i] == n.iv);
                    }
                    if j > ll {
                        assert(s[j] == r[j - ll - 1]);
                        assert(r.to_set().contains(r[j - ll - 1]));
                        assert(key_lt(n.iv, s[j]));
                    } else {
                        assert(s[j] == n.iv);
                    }
                }
            }
            assert forall|i: int, j: int| 0 <= i < s.len() && 0 <= j < s.len() && i != j implies s[i]
                != s[j] by {
                if i < j {
                    assert(key_lt(s[i], s[j]));
                } else {
                    assert(key_lt(s[j], s[i]));
                }
            }
            s.unique_seq_to_set();
        },
    }
}

/// Recomputing the annotations of a node whose children are in order yields
/// an ordered, annotated subtree with the same intervals.
pub proof fn lemma_refreshed(n: Node)
    requires
        tree_ok(n.left),
        tree_ok(n.right),
        ordered_at(n),
        tree_height(n.left) < usize::MAX,
        tree_height(n.right) < usize::MAX,
    ensures
        tree_ok(Some(Box::new(refreshed(n)))),
        tree_seq(Some(Box::new(refreshed(n)))) == tree_seq(Some(Box::new(n))),
        tree_set(Some(Box::new(refreshed(n)))) == tree_set(Some(Box::new(n))),
{
    lemma_tree_ok_bounds(n.left);
    lemma_tree_ok_bounds(n.right);
}

/// A right rotation keeps the order, the annotations and the traversal.
pub proof fn lemma_rotated_right(n: Node)
    requires
        n.left is Some,
        tree_ok(n.left),
        tree_ok(n.right),
        ordered_at(n),
        tree_height(n.left) < usize::MAX - 1,
        tree_height(n.right) < usize::MAX - 1,
    ensures
        tree_ok(Some(Box::new(rotated_right(n)))),
        tree_seq(Some(Box::new(rotated_right(n)))) == tree_seq(Some(Box::new(n))),
        tree_set(Some(Box::new(rotated_right(n)))) == tree_set(Some(Box::new(n))),
{
    let l = *n.left.unwrap();
    let down0 = Node { left: l.right, ..n };
    let down = refreshed(down0);
    lemma_tree_ok_bounds(n.left);
    lemma_tree_ok_bounds(n.right);
    lemma_tree_ok_bounds(l.left);
    lemma_tree_ok_bounds(l.right);
    assert(tree_set(n.left).contains(l.iv));
    assert forall|x: Interval| tree_set(down0.left).contains(x) implies key_lt(x, down0.iv) by {
        assert(tree_set(n.left).contains(x));
    }
    lemma_refreshed(down0);
    let up0 = Node { right: Some(Box::new(down)), ..l };
    assert forall|x: Interval| tree_set(up0.right).contains(x) implies key_lt(up0.iv, x) by {
        if tree_set(n.right).contains(x) {
            crate::interval::lemma_key_lt_transitive(l.iv, n.iv, x);
        }
    }
    lemma_refreshed(up0);
    assert(tree_seq(Some(Box::new(rotated_right(n)))) =~= tree_seq(Some(Box::new(n))));
    assert(tree_set(Some(Box::new(rotated_right(n)))) =~= tree_set(Some(Box::new(n))));
}

/// A left rotation keeps the order, the annotations and the traversal.
pub proof fn lemma_rotated_left(n: Node)
    requires
        n.right is Some,
        tree_ok(n.left),
        tree_ok(n.right),
        ordered_at(n),
        tree_height(n.left) < usize::MAX - 1,
        tree_height(n.right) < usize::MAX - 1,
    ensures
        tree_ok(Some(Box::new(rotated_left(n)))),
        tree_seq(Some(Box::new(rotated_left(n)))) == tree_seq(Some(Box::new(n))),
        tree_set(Some(Box::new(rotated_left(n)))) == tree_set(Some(Box::new(n))),
{
    let r = *n.right.unwrap();
    let down0 = Node { right: r.left, ..n };
    let down = refreshed(down0);
    lemma_tree_ok_bounds(n.left);
    lemma_tree_ok_bounds(n.right);
    lemma_tree_ok_bounds(r.left);
    lemma_tree_ok_bounds(r.right);
    assert(tree_set(n.right).contains(r.iv));
    assert forall|x: Interval| tree_set(down0.right).contains(x) implies key_lt(down0.iv, x) by {
        assert(tree_set(n.right).contains(x));
    }
    lemma_refreshed(down0);
    let up0 = Node { left: Some(Box::new(down)), ..r };
    assert forall|x: Interval| tree_set(up0.left).contains(x) implies key_lt(x, up0.iv) by {
        if tree_set(n.left).contains(x) {
            crate::interval::lemma_key_lt_transitive(x, n.iv, r.iv);
        }
    }
    lemma_refreshed(up0);
    assert(tree_seq(Some(Box::new(rotated_left(n)))) =~= tree_seq(Some(Box::new(n))));
    assert(tree_set(Some(Box::new(rotated_left(n)))) =~= tree_set(Some(Box::new(n))));
}


/// What the AVL repair needs of a node: both children valid trees, the node
/// in order between them, and neither side more than two higher than the
/// other.
pub open spec fn repairable(n: Node) -> bool {
    &&& tree_wf(n.left)
    &&& tree_wf(n.right)
    &&& ordered_at(n)
    &&& tree_height(n.left) <= tree_height(n.right) + 2
    &&& tree_height(n.right) <= tree_height(n.left) + 2
    &&& tree_seq(Some(Box::new(n))).len() <= usize::MAX
}

/// The repair of a node whose left side is two higher than its right.
proof fn lemma_rebalanced_left_heavy(n: Node)
    requires
        repairable(n),
        tree_height(n.left) == tree_height(n.right) + 2,
    ensures
        tree_wf(Some(Box::new(rebalanced(n)))),
        tree_seq(Some(Box::new(rebalanced(n)))) == tree_seq(Some(Box::new(n))),
        tree_set(Some(Box::new(rebalanced(n)))) == tree_set(Some(Box::new(n))),
        tree_height(n.left) <= rebalanced(n).height <= tree_height(n.left) + 1,
{
    lemma_tree_ok_bounds(n.left);
    lemma_tree_ok_bounds(n.right);
    let m = refreshed(n);
    lemma_refreshed(n);
    let l = *m.left.unwrap();
    assert(tree_ok(l.left) && tree_ok(l.right));
    assert(tree_balanced(l.left) && tree_balanced(l.right) && balanced_at(l));
    lemma_tree_ok_bounds(l.left);
    lemma_tree_ok_bounds(l.right);
    if tree_height(l.right) > tree_height(l.left) {
        let lr = *l.right.unwrap();
        assert(tree_ok(lr.left) && tree_ok(lr.right));
        assert(tree_balanced(lr.left) && tree_balanced(lr.right) && balanced_at(lr));
        lemma_tree_ok_bounds(lr.left);
        lemma_tree_ok_bounds(lr.right);
        lemma_rotated_left(l);
        let l2 = rotated_left(l);
        let m2 = Node { left: Some(Box::new(l2)), ..m };
        assert(tree_set(m2.left) == tree_set(m.left));
        assert(tree_seq(Some(Box::new(m2))) == tree_seq(Some(Box::new(m))));
        assert(tree_set(Some(Box::new(m2))) == tree_set(Some(Box::new(m))));
        lemma_rotated_right(m2);
        let inner = *l2.left.unwrap();
        assert(tree_balanced(Some(Box::new(inner))));
        let down = refreshed(Node { left: l2.right, ..m2 });
        assert(tree_balanced(Some(Box::new(down))));
        let up = rotated_right(m2);
        assert(up.left == l2.left && up.right == Some(Box::new(down)));
        assert(tree_balanced(Some(Box::new(up))));
    } else {
        lemma_rotated_right(m);
        let down = refreshed(Node { left: l.right, ..m });
        assert(tree_balanced(Some(Box::new(down))));
        let up = rotated_right(m);
        assert(up.left == l.left && up.right == Some(Box::new(down)));
        assert(tree_balanced(Some(Box::new(up))));
    }
}

/// The repair of a node whose right side is two higher than its left.
proof fn lemma_rebalanced_right_heavy(n: Node)
    requires
        repairable(n),
        tree_height(n.right) == tree_height(n.left) + 2,
    ensures
        tree_wf(Some(Box::new(rebalanced(n)))),
        tree_seq(Some(Box::new(rebalanced(n)))) == tree_seq(Some(Box::new(n))),
        tree_set(Some(Box::new(rebalanced(n)))) == tree_set(Some(Box::new(n))),
        tree_height(n.right) <= rebalanced(n).height <= tree_height(n.right) + 1,
{
    lemma_tree_ok_bounds(n.right);
    lemma_tree_ok_bounds(n.left);
    let m = refreshed(n);
    lemma_refreshed(n);
    let r = *m.right.unwrap();
    assert(tree_ok(r.right) && tree_ok(r.left));
    assert(tree_balanced(r.right) && tree_balanced(r.left) && balanced_at(r));
    lemma_tree_ok_bounds(r.right);
    lemma_tree_ok_bounds(r.left);
    if tree_height(r.left) > tree_height(r.right) {
        let rl = *r.left.unwrap();
        assert(tree_ok(rl.right) && tree_ok(rl.left));
        assert(tree_balanced(rl.right) && tree_balanced(rl.left) && balanced_at(rl));
        lemma_tree_ok_bounds(rl.right);
        lemma_tree_ok_bounds(rl.left);
        lemma_rotated_right(r);
        let r2 = rotated_right(r);
        let m2 = Node { right: Some(Box::new(r2)), ..m };
        assert(tree_set(m2.right) == tree_set(m.right));
        assert(tree_seq(Some(Box::new(m2))) == tree_seq(Some(Box::new(m))));
        assert(tree_set(Some(Box::new(m2))) == tree_set(Some(Box::new(m))));
        lemma_rotated_left(m2);
        let inner = *r2.right.unwrap();
        assert(tree_balanced(Some(Box::new(inner))));
        let down = refreshed(Node { right: r2.left, ..m2 });
        assert(tree_balanced(Some(Box::new(down))));
        let up = rotated_left(m2);
        assert(up.right == r2.right && up.left == Some(Box::new(down)));
        assert(tree_balanced(Some(Box::new(up))));
    } else {
        lemma_rotated_left(m);
        let down = refreshed(Node { right: r.left, ..m });
        assert(tree_balanced(Some(Box::new(down))));
        let up = rotated_left(m);
        assert(up.right == r.right && up.left == Some(Box::new(down)));
        assert(tree_balanced(Some(Box::new(up))));
    }
}

/// The AVL repair turns a repairable node into a valid tree with the same
/// traversal. The result is as high as the higher child or one higher; it is
/// exactly one higher where the children were already balanced.
pub proof fn lemma_rebalanced(n: Node)
    requires
        repairable(n),
    ensures
        tree_wf(Some(Box::new(rebalanced(n)))),
        tree_seq(Some(Box::new(rebalanced(n)))) == tree_seq(Some(Box::new(n))),
        tree_set(Some(Box::new(rebalanced(n)))) == tree_set(Some(Box::new(n))),
        ({
            let top = max2(tree_height(n.left), tree_height(n.right));
            let h = rebalanced(n).height as int;
            &&& top <= h <= top + 1
            &&& balanced_at(n) ==> h == top + 1
        }),
{
    lemma_tree_ok_bounds(n.left);
    lemma_tree_ok_bounds(n.right);
    lemma_refreshed(n);
    if tree_height(n.left) > tree_height(n.right) + 1 {
        lemma_rebalanced_left_heavy(n);
    } else if tree_height(n.right) > tree_height(n.left) + 1 {
        lemma_rebalanced_right_heavy(n);
    }
}

impl Node {
    /// A leaf holding `iv`.
    pub(crate) fn new(iv: Interval) -> (n: Node)
        ensures
            n == (Node { iv, max: iv.stop, height: 1, left: None, right: None }),
    {
        Node { iv, max: iv.stop, height: 1, left: None, right: None }
    }

    /// The recorded height of a subtree; 0 for the empty one.
    pub(crate) fn height(t: &Tree) -> (h: usize)
        ensures
            h == tree_height(*t),
    {
        match t {
            None => 0,
            Some(n) => n.height,
        }
    }

    /// Recomputes `max` from the node's interval and its children.
    pub(crate) fn update_max(&mut self)
        ensures
            *final(self) == (Node { max: max_of(*old(self)), ..*old(self) }),
    {
        let mut m = self.iv.stop;
        match &self.left {
            Some(l) => {
                if l.max > m {
                    m = l.max;
                }
            },
            None => {},
        }
        match &self.right {
            Some(r) => {
                if r.max > m {
                    m = r.max;
                }
            },
            None => {},
        }
        self.max = m;
    }

    /// Recomputes `height` from the children's heights.
    pub(crate) fn update_height(&mut self)
        requires
            tree_height(old(self).left) < usize::MAX,
            tree_height(old(self).right) < usize::MAX,
        ensures
            *final(self) == (Node {
                height: (1 + max2(tree_height(old(self).left), tree_height(old(self).right))) as usize,
                ..*old(self)
            }),
    {
        let hl = Node::height(&self.left);
        let hr = Node::height(&self.right);
        self.height = 1 + if hl >= hr {
            hl
        } else {
            hr
        };
    }

    /// Rotates right about `node`: its left child becomes the root. The node
    /// that moves down is re-annotated first, then the new root.
    pub(crate) fn rotate_right(node: Box<Node>) -> (r: Box<Node>)
        requires
            node.left is Some,
            tree_height(node.left.unwrap().left) < usize::MAX - 1,
            tree_height(node.left.unwrap().right) < usize::MAX - 1,
            tree_height(node.right) < usize::MAX - 1,
        ensures
            *r == rotated_right(*node),
    {
        let mut node = node;
        let mut l = node.left.take().unwrap();
        node.left = l.right.take();
        node.update_height();
        node.update_max();
        l.right = Some(node);
        l.update_height();
        l.update_max();
        l
    }

    /// Rotates left about `node`: its right child becomes the root. The node
    /// that moves down is re-annotated first, then the new root.
    pub(crate) fn rotate_left(node: Box<Node>) -> (r: Box<Node>)
        requires
            node.right is Some,
            tree_height(node.right.unwrap().left) < usize::MAX - 1,
            tree_height(node.right.unwrap().right) < usize::MAX - 1,
            tree_height(node.left) < usize::MAX - 1,
        ensures
            *r == rotated_left(*node),
    {
        let mut node = node;
        let mut r = node.right.take().unwrap();
        node.right = r.left.take();
        node.update_height();
        node.update_max();
        r.left = Some(node);
        r.update_height();
        r.update_max();
        r
    }

    /// Re-annotates `node` and restores the AVL balance at it, by one
    /// rotation, or by a rotation of the heavy child followed by one of the
    /// node.
    pub(crate) fn rebalance(node: Box<Node>) -> (r: Box<Node>)
        requires
            repairable(*node),
        ensures
            *r == rebalanced(*node),
            tree_wf(Some(r)),
            tree_seq(Some(r)) == tree_seq(Some(node)),
            tree_set(Some(r)) == tree_set(Some(node)),
            ({
                let top = max2(tree_height(node.left), tree_height(node.right));
                &&& top <= r.height <= top + 1
                &&& balanced_at(*node) ==> r.height == top + 1
            }),
    {
        proof {
            lemma_rebalanced(*node);
            lemma_tree_ok_bounds(node.left);
            lemma_tree_ok_bounds(node.right);
        }
        let mut node = node;
        node.update_height();
        node.update_max();
        let hl = Node::height(&node.left);
        let hr = Node::height(&node.right);
        if hl > hr + 1 {
            let mut l = node.left.take().unwrap();
            proof {
                lemma_tree_ok_bounds(l.left);
                lemma_tree_ok_bounds(l.right);
            }
            if Node::height(&l.right) > Node::height(&l.left) {
                proof {
                    let lr = *l.right.unwrap();
                    assert(tree_ok(l.right));
                    assert(tree_ok(lr.left) && tree_ok(lr.right));
                    lemma_tree_ok_bounds(lr.left);
                    lemma_tree_ok_bounds(lr.right);
                }
                l = Node::rotate_left(l);
            }
            node.left = Some(l);
            return Node::rotate_right(node);
        }
        if hr > hl + 1 {
            let mut r = node.right.take().unwrap();
            proof {
                lemma_tree_ok_bounds(r.left);
                lemma_tree_ok_bounds(r.right);
            }
            if Node::height(&r.left) > Node::height(&r.right) {
                proof {
                    let rl = *r.left.unwrap();
                    assert(tree_ok(r.left));
                    assert(tree_ok(rl.left) && tree_ok(rl.right));
                    lemma_tree_ok_bounds(rl.left);
                    lemma_tree_ok_bounds(rl.right);
                }
                r = Node::rotate_right(r);
            }
            node.right = Some(r);
            return Node::rotate_left(node);
        }
        node
    }
}


/// The intervals of `s` that overlap the range `[start, stop)`, in the order
/// of `s`.
pub open spec fn overlapping(s: Seq<Interval>, start: Timestamp, stop: Timestamp) -> Seq<Interval> {
    s.filter(|iv: Interval| iv.overlaps(start, stop))
}

/// What a query for the range `[start, stop)` finds in `s`: nothing where
/// the range has no width, and else the intervals of `s` that overlap it,
/// in the order of `s`.
pub open spec fn found_in(s: Seq<Interval>, start: Timestamp, stop: Timestamp) -> Seq<Interval> {
    if start == stop {
        Seq::empty()
    } else {
        overlapping(s, start, stop)
    }
}

/// Where no interval of `s` overlaps the range, the selection is empty.
pub proof fn lemma_overlapping_none(s: Seq<Interval>, start: Timestamp, stop: Timestamp)
    requires
        forall|i: int| 0 <= i < s.len() ==> !(#[trigger] s[i]).overlaps(start, stop),
    ensures
        overlapping(s, start, stop) == Seq::<Interval>::empty(),
{
    let pred = |iv: Interval| iv.overlaps(start, stop);
    s.lemma_filter_len(pred);
    let f = s.filter(pred);
    if f.len() > 0 {
        s.lemma_filter_contains_rev(pred, f[0]);
        s.lemma_filter_pred(pred, 0);
        let i = choose|i: int| 0 <= i < s.len() && s[i] == f[0];
        assert(!s[i].overlaps(start, stop));
    }
    assert(f =~= Seq::<Interval>::empty());
}

/// An interval is selected exactly where it is in `s` and overlaps the range.
pub proof fn lemma_overlapping_contains(
    s: Seq<Interval>,
    start: Timestamp,
    stop: Timestamp,
    x: Interval,
)
    ensures
        overlapping(s, start, stop).contains(x) <==> (s.contains(x) && x.overlaps(start, stop)),
{
    let pred = |iv: Interval| iv.overlaps(start, stop);
    let f = s.filter(pred);
    if f.contains(x) {
        let i = choose|i: int| 0 <= i < f.len() && f[i] == x;
        s.lemma_filter_pred(pred, i);
        s.lemma_filter_contains_rev(pred, x);
    }
    if s.contains(x) && x.overlaps(start, stop) {
        let i = choose|i: int| 0 <= i < s.len() && s[i] == x;
        s.lemma_filter_contains(pred, i);
    }
}

/// The selection from an ascending sequence ascends.
pub proof fn lemma_overlapping_ascends(s: Seq<Interval>, start: Timestamp, stop: Timestamp)
    requires
        ascending(s),
    ensures
        ascending(overlapping(s, start, stop)),
    decreases s.len(),
{
    let pred = |iv: Interval| iv.overlaps(start, stop);
    reveal(Seq::filter);
    if s.len() > 0 {
        let front = s.drop_last();
        lemma_overlapping_ascends(front, start, stop);
        let f = front.filter(pred);
        if pred(s.last()) {
            assert(s.filter(pred) == f.push(s.last()));
            assert forall|i: int, j: int| 0 <= i < j < f.len() + 1 implies key_lt(
                f.push(s.last())[i],
                f.push(s.last())[j],
            ) by {
                if j == f.len() {
                    assert(f.contains(f[i]));
                    front.lemma_filter_contains_rev(pred, f[i]);
                    let k = choose|k: int| 0 <= k < front.len() && front[k] == f[i];
                    assert(s[k] == f[i]);
                }
            }
        } else {
            assert(s.filter(pred) == f);
        }
    }
}

/// The selection from a subtree is the selection from its left side, then
/// the node if it overlaps, then the selection from its right side.
pub proof fn lemma_overlapping_node(n: Node, start: Timestamp, stop: Timestamp)
    ensures
        overlapping(tree_seq(Some(Box::new(n))), start, stop) == overlapping(
            tree_seq(n.left),
            start,
            stop,
        ) + (if n.iv.overlaps(start, stop) {
            seq![n.iv]
        } else {
            Seq::<Interval>::empty()
        }) + overlapping(tree_seq(n.right), start, stop),
{
    let pred = |iv: Interval| iv.overlaps(start, stop);
    let l = tree_seq(n.left);
    let r = tree_seq(n.right);
    let mid = seq![n.iv];
    Seq::filter_distributes_over_add(l + mid, r, pred);
    Seq::filter_distributes_over_add(l, mid, pred);
    reveal_with_fuel(Seq::filter, 2);
    assert(mid.drop_last() =~= Seq::<Interval>::empty());
    assert(mid.last() == n.iv);
    assert(mid.filter(pred) =~= (if n.iv.overlaps(start, stop) {
        seq![n.iv]
    } else {
        Seq::<Interval>::empty()
    }));
}

impl Node {
    /// Inserts `elem`, which the subtree does not hold yet, and returns the
    /// new root; every node on the way back up is repaired.
    pub(crate) fn insert(node: Box<Node>, elem: Interval) -> (r: Box<Node>)
        requires
            tree_wf(Some(node)),
            !tree_set(Some(node)).contains(elem),
            tree_seq(Some(node)).len() < usize::MAX,
        ensures
            tree_wf(Some(r)),
            tree_set(Some(r)) == tree_set(Some(node)).insert(elem),
            tree_seq(Some(r)).len() == tree_seq(Some(node)).len() + 1,
            node.height <= r.height <= node.height + 1,
        decreases node,
    {
        let mut node = node;
        let ghost before = *node;
        proof {
            lemma_tree_ok_bounds(node.left);
            lemma_tree_ok_bounds(node.right);
            crate::interval::lemma_key_lt_total(elem, node.iv);
        }
        if elem.precedes(&node.iv) {
            match node.left.take() {
                Some(l) => {
                    node.left = Some(Node::insert(l, elem));
                },
                None => {
                    node.left = Some(Box::new(Node::new(elem)));
                },
            }
            proof {
                assert(tree_set(node.left) =~= tree_set(before.left).insert(elem));
                assert(tree_seq(node.left).len() == tree_seq(before.left).len() + 1);
            }
        } else {
            match node.right.take() {
                Some(r) => {
                    node.right = Some(Node::insert(r, elem));
                },
                None => {
                    node.right = Some(Box::new(Node::new(elem)));
                },
            }
            proof {
                assert(tree_set(node.right) =~= tree_set(before.right).insert(elem));
                assert(tree_seq(node.right).len() == tree_seq(before.right).len() + 1);
            }
        }
        proof {
            assert(tree_set(Some(node)) =~= tree_set(Some(Box::new(before))).insert(elem));
        }
        Node::rebalance(node)
    }

    /// Removes the smallest interval of the subtree. Returns it with what is
    /// left of the subtree, every node on the way back up repaired.
    pub(crate) fn take_min(node: Box<Node>) -> (r: (Interval, Tree))
        requires
            tree_wf(Some(node)),
            tree_seq(Some(node)).len() <= usize::MAX,
        ensures
            tree_wf(r.1),
            tree_set(Some(node)).contains(r.0),
            forall|x: Interval| tree_set(r.1).contains(x) ==> key_lt(r.0, x),
            tree_set(r.1) == tree_set(Some(node)).remove(r.0),
            tree_seq(r.1).len() + 1 == tree_seq(Some(node)).len(),
            node.height - 1 <= tree_height(r.1) <= node.height,
        decreases node,
    {
        let mut node = node;
        let ghost before = *node;
        proof {
            lemma_tree_ok_bounds(node.left);
            lemma_tree_ok_bounds(node.right);
        }
        match node.left.take() {
            None => {
                let right = node.right.take();
                proof {
                    assert(ordered_at(before));
                    assert(!tree_set(before.right).contains(before.iv));
                    assert(tree_set(right) =~= tree_set(Some(Box::new(before))).remove(before.iv));
                    assert(tree_seq(Some(Box::new(before))) =~= seq![before.iv] + tree_seq(right));
                }
                (node.iv, right)
            },
            Some(l) => {
                let (min_iv, new_left) = Node::take_min(l);
                node.left = new_left;
                proof {
                    assert forall|x: Interval| tree_set(before.right).contains(x) implies key_lt(
                        min_iv,
                        x,
                    ) by {
                        crate::interval::lemma_key_lt_transitive(min_iv, before.iv, x);
                    }
                    assert(ordered_at(before));
                    assert(key_lt(min_iv, before.iv));
                    assert(!tree_set(before.right).contains(min_iv)) by {
                        if tree_set(before.right).contains(min_iv) {
                            crate::interval::lemma_key_lt_total(min_iv, before.iv);
                        }
                    }
                    assert(tree_set(Some(node)) =~= tree_set(Some(Box::new(before))).remove(min_iv));
                }
                let fixed = Node::rebalance(node);
                (min_iv, Some(fixed))
            },
        }
    }

    /// Removes `elem` from the subtree if it is there. Returns what is left
    /// of the subtree and whether `elem` was found. A node with two children
    /// takes over its in-order successor; every node on the way back up is
    /// repaired.
    pub(crate) fn remove(node: Box<Node>, elem: &Interval) -> (r: (Tree, bool))
        requires
            tree_wf(Some(node)),
            tree_seq(Some(node)).len() <= usize::MAX,
        ensures
            tree_wf(r.0),
            r.1 == tree_set(Some(node)).contains(*elem),
            tree_set(r.0) == tree_set(Some(node)).remove(*elem),
            tree_seq(r.0).len() + (if r.1 { 1int } else { 0int }) == tree_seq(Some(node)).len(),
            node.height - 1 <= tree_height(r.0) <= node.height,
            !r.1 ==> r.0 == Some(node),
        decreases node,
    {
        let mut node = node;
        let ghost before = *node;
        proof {
            lemma_tree_ok_bounds(node.left);
            lemma_tree_ok_bounds(node.right);
            crate::interval::lemma_key_lt_total(*elem, node.iv);
        }
        if elem.precedes(&node.iv) {
            match node.left.take() {
                Some(l) => {
                    let (nl, removed) = Node::remove(l, elem);
                    node.left = nl;
                    proof {
                        assert(tree_set(Some(node)) =~= tree_set(Some(Box::new(before))).remove(
                            *elem,
                        ));
                    }
                    if removed {
                        (Some(Node::rebalance(node)), true)
                    } else {
                        (Some(node), false)
                    }
                },
                None => {
                    proof {
                        assert(tree_set(Some(node)) =~= tree_set(Some(Box::new(before))).remove(
                            *elem,
                        ));
                    }
                    (Some(node), false)
                },
            }
        } else if node.iv.precedes(elem) {
            match node.right.take() {
                Some(r) => {
                    let (nr, removed) = Node::remove(r, elem);
                    node.right = nr;
                    proof {
                        assert(tree_set(Some(node)) =~= tree_set(Some(Box::new(before))).remove(
                            *elem,
                        ));
                    }
                    if removed {
                        (Some(Node::rebalance(node)), true)
                    } else {
                        (Some(node), false)
                    }
                },
                None => {
                    proof {
                        assert(tree_set(Some(node)) =~= tree_set(Some(Box::new(before))).remove(
                            *elem,
                        ));
                    }
                    (Some(node), false)
                },
            }
        } else {
            let left = node.left.take();
            let right = node.right.take();
            match (left, right) {
                (None, None) => {
                    proof {
                        assert(tree_set(None) =~= tree_set(Some(Box::new(before))).remove(*elem));
                    }
                    (None, true)
                },
                (Some(l), None) => {
                    proof {
                        assert(tree_set(Some(l)) =~= tree_set(Some(Box::new(before))).remove(
                            *elem,
                        ));
                        assert(tree_seq(Some(Box::new(before))) =~= tree_seq(Some(l)) + seq![
                            before.iv,
                        ]);
                    }
                    (Some(l), true)
                },
                (None, Some(r)) => {
                    proof {
                        assert(tree_set(Some(r)) =~= tree_set(Some(Box::new(before))).remove(
                            *elem,
                        ));
                        assert(tree_seq(Some(Box::new(before))) =~= seq![before.iv] + tree_seq(
                            Some(r),
                        ));
                    }
                    (Some(r), true)
                },
                (Some(l), Some(r)) => {
                    let (min_iv, nr) = Node::take_min(r);
                    node.iv = min_iv;
                    node.right = nr;
                    node.left = Some(l);
                    proof {
                        assert forall|x: Interval| tree_set(node.left).contains(x) implies key_lt(
                            x,
                            min_iv,
                        ) by {
                            crate::interval::lemma_key_lt_transitive(x, before.iv, min_iv);
                        }
                        assert(tree_set(Some(node)) =~= tree_set(Some(Box::new(before))).remove(
                            *elem,
                        ));
                    }
                    (Some(Node::rebalance(node)), true)
                },
            }
        }
    }

    /// Appends to `out`, in ascending order, the intervals of the subtree
    /// that overlap `[start, stop)`. A subtree whose `max` lies before
    /// `start` is skipped whole; from a node that begins at or after `stop`
    /// on, nothing further to the right is visited.
    pub(crate) fn collect_overlaps(t: &Tree, start: Timestamp, stop: Timestamp, out: &mut Vec<Interval>)
        requires
            tree_ok(*t),
        ensures
            final(out)@ == old(out)@ + overlapping(tree_seq(*t), start, stop),
        decreases *t,
    {
        match t {
            None => {
                proof {
                    lemma_overlapping_none(tree_seq(*t), start, stop);
                }
            },
            Some(n) => {
                proof {
                    lemma_tree_ok_bounds(*t);
                    lemma_tree_seq_ascending(*t);
                    lemma_overlapping_node(**n, start, stop);
                }
                if n.max < start {
                    proof {
                        assert forall|i: int| 0 <= i < tree_seq(*t).len() implies !(
                        #[trigger] tree_seq(*t)[i]).overlaps(start, stop) by {
                            assert(tree_seq(*t).to_set().contains(tree_seq(*t)[i]));
                        }
                        lemma_overlapping_none(tree_seq(*t), start, stop);
                    }
                    return ;
                }
                Node::collect_overlaps(&n.left, start, stop, out);
                if n.iv.start >= stop {
                    proof {
                        lemma_tree_seq_ascending(n.right);
                        assert(ordered_at(**n));
                        assert forall|i: int| 0 <= i < tree_seq(n.right).len() implies !(
                        #[trigger] tree_seq(n.right)[i]).overlaps(start, stop) by {
                            let x = tree_seq(n.right)[i];
                            assert(tree_seq(n.right).to_set().contains(x));
                            assert(tree_set(n.right).contains(x));
                            assert(key_lt(n.iv, x));
                        }
                        lemma_overlapping_none(tree_seq(n.right), start, stop);
                    }
                    return ;
                }
                if n.iv.overlap(start, stop) {
                    out.push(n.iv);
                }
                Node::collect_overlaps(&n.right, start, stop, out);
            },
        }
    }
}


/// The height of the tree that median splitting builds from `n` intervals.
pub open spec fn median_height(n: nat) -> nat
    decreases n,
{
    if n == 0 {
        0
    } else {
        1 + median_height(n / 2)
    }
}

/// More intervals never give a lower tree.
pub proof fn lemma_median_height_monotone(a: nat, b: nat)
    requires
        a <= b,
    ensures
        median_height(a) <= median_height(b),
    decreases b,
{
    if a > 0 {
        lemma_median_height_monotone(a / 2, b / 2);
    }
}

/// One more interval gives at most one level more, and no tree is higher
/// than it has intervals.
pub proof fn lemma_median_height_step(a: nat)
    ensures
        median_height(a + 1) <= median_height(a) + 1,
        median_height(a) <= a,
    decreases a,
{
    if a > 0 {
        lemma_median_height_step(a / 2);
        lemma_median_height_monotone((a + 1) / 2, a / 2 + 1);
    } else {
        assert(median_height(1) == 1 + median_height(0));
    }
}

impl Node {
    /// Builds a subtree from `v[lo..hi]`, which ascends: the middle interval
    /// becomes the root and each half is built the same way, so the two
    /// sides of every node differ by at most one interval.
    pub(crate) fn build(v: &Vec<Interval>, lo: usize, hi: usize) -> (t: Tree)
        requires
            lo <= hi <= v.len(),
            ascending(v@),
        ensures
            tree_wf(t),
            tree_seq(t) == v@.subrange(lo as int, hi as int),
            tree_height(t) == median_height((hi - lo) as nat),
        decreases hi - lo,
    {
        if lo >= hi {
            assert(v@.subrange(lo as int, hi as int) =~= Seq::<Interval>::empty());
            return None;
        }
        let mid = lo + (hi - lo) / 2;
        let left = Node::build(v, lo, mid);
        let right = Node::build(v, mid + 1, hi);
        let mut node = Box::new(Node::new(v[mid]));
        node.left = left;
        node.right = right;
        proof {
            lemma_tree_seq_ascending(left);
            lemma_tree_seq_ascending(right);
            lemma_tree_ok_bounds(left);
            lemma_tree_ok_bounds(right);
            let nl = (mid - lo) as nat;
            let nr = (hi - mid - 1) as nat;
            lemma_median_height_monotone(nr, nl);
            lemma_median_height_step(nr);
            lemma_median_height_step(nl);
            assert forall|x: Interval| #[trigger] tree_set(left).contains(x) implies key_lt(
                x,
                v@[mid as int],
            ) by {
                let i = choose|i: int| 0 <= i < tree_seq(left).len() && tree_seq(left)[i] == x;
                assert(x == v@[lo + i]);
            }
            assert forall|x: Interval| #[trigger] tree_set(right).contains(x) implies key_lt(
                v@[mid as int],
                x,
            ) by {
                let i = choose|i: int| 0 <= i < tree_seq(right).len() && tree_seq(right)[i] == x;
                assert(x == v@[mid + 1 + i]);
            }
            assert(nl == ((hi - lo) as nat) / 2);
            assert(nr == nl || nr + 1 == nl);
        }
        node.update_height();
        node.update_max();
        proof {
            assert(tree_seq(Some(node)) =~= v@.subrange(lo as int, hi as int));
        }
        Some(node)
    }
}

impl Node {
    /// A copy of the subtree.
    pub(crate) fn copy_tree(t: &Tree) -> (r: Tree)
        ensures
            r == *t,
        decreases *t,
    {
        match t {
            None => None,
            Some(n) => Some(
                Box::new(
                    Node {
                        iv: n.iv,
                        max: n.max,
                        height: n.height,
                        left: Node::copy_tree(&n.left),
                        right: Node::copy_tree(&n.right),
                    },
                ),
            ),
        }
    }
}

} // verus!
