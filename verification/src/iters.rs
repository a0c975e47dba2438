//! Depth-first and breadth-first enumeration of a subtree's points, for
//! external inspection. Each traversal owns a copy of the subtree it
//! walks, so the tree itself is never mutated.

use vstd::prelude::*;

use crate::kdtree::{bfs_seq, lemma_level_order_points, lemma_preorder_node, level_order, opt_preorder, preorder, KDNode};
use crate::point::Point;

verus! {

broadcast use vstd::multiset::group_multiset_axioms;

/// The pre-order point sequences of a stack of pending subtrees, the
/// next subtree to visit last.
pub open spec fn stack_points(s: Seq<KDNode>) -> Seq<Point>
    decreases s.len(),
{
    if s.len() == 0 {
        Seq::empty()
    } else {
        preorder(s.last()) + stack_points(s.drop_last())
    }
}

proof fn lemma_stack_push(s: Seq<KDNode>, x: KDNode)
    ensures
        stack_points(s.push(x)) == preorder(x) + stack_points(s),
{
    assert(s.push(x).last() == x);
    assert(s.push(x).drop_last() =~= s);
}

/// A restartable depth-first (pre-order) enumeration of the points of a
/// subtree.
pub struct DepthFirst {
    stack: Vec<KDNode>,
}

impl DepthFirst {
    /// The points not yet yielded, in the order they will come.
    pub closed spec fn remaining(self) -> Seq<Point> {
        stack_points(self.stack@)
    }

    /// A traversal of the subtree rooted at `v`: it will yield exactly
    /// the pre-order point sequence of that subtree.
    pub fn new(v: &KDNode) -> (r: Self)
        ensures
            r.remaining() == preorder(*v),
    {
        let mut stack: Vec<KDNode> = Vec::new();
        stack.push(v.clone());
        proof {
            lemma_stack_push(Seq::empty(), *v);
            assert(preorder(*v) + stack_points(Seq::empty()) =~= preorder(*v));
        }
        DepthFirst { stack }
    }

    /// The next point in pre-order, or `None` once every point of the
    /// subtree has been yielded.
    pub fn next(&mut self) -> (r: Option<Point>)
        ensures
            old(self).remaining().len() == 0 ==> r is None && final(self).remaining()
                == old(self).remaining(),
            old(self).remaining().len() > 0 ==> r == Some(old(self).remaining()[0])
                && final(self).remaining() == old(self).remaining().drop_first(),
    {
        let ghost full = self.stack@;
        proof {
            if full.len() > 0 {
                lemma_preorder_node(full.last());
            }
        }
        match self.stack.pop() {
            None => None,
            Some(n) => {
                proof {
                    assert(full.last() == n);
                    assert(self.stack@ =~= full.drop_last());
                }
                let ghost rest = self.stack@;
                let parts = n.into_parts();
                let item = parts.0;
                match parts.2 {
                    None => {},
                    Some(b) => {
                        proof {
                            lemma_stack_push(self.stack@, *b);
                        }
                        self.stack.push(*b);
                    },
                }
                match parts.1 {
                    None => {},
                    Some(b) => {
                        proof {
                            lemma_stack_push(self.stack@, *b);
                        }
                        self.stack.push(*b);
                    },
                }
                proof {
                    assert(stack_points(self.stack@) =~= opt_preorder(parts.1) + (opt_preorder(
                        parts.2,
                    ) + stack_points(rest)));
                    assert(old(self).remaining() =~= (seq![item] + opt_preorder(parts.1)
                        + opt_preorder(parts.2)) + stack_points(rest));
                    assert(old(self).remaining()[0] == item);
                    assert(stack_points(self.stack@) =~= old(self).remaining().drop_first());
                }
                Some(item)
            },
        }
    }
}

/// A restartable breadth-first (level-order) enumeration of the points
/// of a subtree.
pub struct BreadthFirst {
    queue: Vec<KDNode>,
}

impl BreadthFirst {
    /// The points not yet yielded, in the order they will come.
    pub closed spec fn remaining(self) -> Seq<Point> {
        bfs_seq(self.queue@)
    }

    /// A traversal of the subtree rooted at `v`: it will yield exactly
    /// the level-order point sequence of that subtree — every node at
    /// one depth before any node at the next, siblings left before
    /// right — so every point of the subtree comes exactly once.
    pub fn new(v: &KDNode) -> (r: Self)
        ensures
            r.remaining() == level_order(*v),
            r.remaining().to_multiset() == v.points(),
    {
        let mut queue: Vec<KDNode> = Vec::new();
        queue.push(v.clone());
        proof {
            assert(queue@ =~= seq![*v]);
            lemma_level_order_points(*v);
        }
        BreadthFirst { queue }
    }

    /// The next point in level order, or `None` once every point of the
    /// subtree has been yielded.
    pub fn next(&mut self) -> (r: Option<Point>)
        ensures
            old(self).remaining().len() == 0 ==> r is None && final(self).remaining()
                == old(self).remaining(),
            old(self).remaining().len() > 0 ==> r == Some(old(self).remaining()[0])
                && final(self).remaining() == old(self).remaining().drop_first(),
    {
        if self.queue.len() == 0 {
            return None;
        }
        let ghost full = self.queue@;
        let n = self.queue.remove(0);
        proof {
            assert(self.queue@ =~= full.drop_first());
            assert(full[0] == n);
        }
        let ghost rest = self.queue@;
        let parts = n.into_parts();
        let item = parts.0;
        match parts.1 {
            None => {},
            Some(b) => {
                self.queue.push(*b);
            },
        }
        match parts.2 {
            None => {},
            Some(b) => {
                self.queue.push(*b);
            },
        }
        proof {
            assert(self.queue@ =~= rest + n.child_seq());
            assert(bfs_seq(full) =~= seq![n.spec_item()] + bfs_seq(full.drop_first()
                + full[0].child_seq()));
            assert(old(self).remaining()[0] == item);
            assert(bfs_seq(self.queue@) =~= old(self).remaining().drop_first());
        }
        Some(item)
    }
}

} // verus!
