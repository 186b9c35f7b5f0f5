//! Branch-and-bound traversal of a tree of `TreeNode`s.

use crate::callback::NodeFn;
use crate::node::{Bound, ChildNodes, is_tree, IsLeaf, LeafCost, LowerBound, TreeNode};
use crate::order::total_order;
use super::common::Traversal;
use super::functional::bbs::{bbs_reach, Bounding, BranchAndBoundContainer};
use super::functional::common::Reachable;
use vstd::prelude::*;

verus! {

/// The nodes of a tree in depth-first order, without the branches whose
/// lower bound shows that they hold no leaf cheaper than one already
/// visited.
pub struct BranchAndBoundTraversal<N: TreeNode + LowerBound<Cost = <N as TreeNode>::Cost>> {
    state: Reachable<
        BranchAndBoundContainer<<N as TreeNode>::Cost, N, ChildNodes, IsLeaf, LeafCost, Bound>,
    >,
}

impl<N: TreeNode + LowerBound<Cost = <N as TreeNode>::Cost>> BranchAndBoundTraversal<N> {
    /// The traversal over callbacks that does the work.
    pub closed spec fn state(self) -> Reachable<
        BranchAndBoundContainer<<N as TreeNode>::Cost, N, ChildNodes, IsLeaf, LeafCost, Bound>,
    > {
        self.state
    }

    /// The branch-and-bound traversal of the tree under `root_node`.
    pub fn new(root_node: N) -> (tree: Self)
        ensures
            total_order::<<N as TreeNode>::Cost>() && is_tree::<N>() && NodeFn::<N>::is_function(
                &Bound,
            ) ==> tree.wf(),
            tree.state().frontier().state() == (seq![root_node], None::<<N as TreeNode>::Cost>),
            tree.state().frontier().fns() == (Bounding {
                successor_fn: ChildNodes,
                leaf_check_fn: IsLeaf,
                cost_fn: LeafCost,
                lower_bound_fn: Bound,
            }),
    {
        Self { state: bbs_reach(root_node, ChildNodes, IsLeaf, LeafCost, Bound) }
    }
}

impl<N: TreeNode + LowerBound<Cost = <N as TreeNode>::Cost>> Traversal<
    N,
> for BranchAndBoundTraversal<N> {
    open spec fn wf(&self) -> bool {
        self.state().wf()
    }

    open spec fn pulls(&self, next: Option<N>, after: &Self) -> bool {
        self.state().pulls(next, &after.state())
    }

    fn next(&mut self) -> (next: Option<N>) {
        self.state.next()
    }
}

} // verus!
