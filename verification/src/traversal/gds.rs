//! Greedy traversal of a tree of `TreeNode`s.

use crate::callback::{NodeFn, Successors};
use crate::node::{Approximate, ChildNodes, Estimate, TreeNode};
use crate::order::total_order;
use super::common::Traversal;
use super::functional::common::Reachable;
use super::functional::gds::{gds_reach, Greedy, GreedyContainer};
use vstd::prelude::*;

verus! {

/// One path down a tree: from each node to the successor of lowest
/// estimate.
pub struct GreedyTraversal<N: TreeNode + Approximate> {
    state: Reachable<GreedyContainer<N, ChildNodes, Estimate>>,
}

impl<N: TreeNode + Approximate> GreedyTraversal<N> {
    /// The traversal over callbacks that does the work.
    pub closed spec fn state(self) -> Reachable<GreedyContainer<N, ChildNodes, Estimate>> {
        self.state
    }

    /// The greedy traversal of the tree under `root_node`.
    pub fn new(root_node: N) -> (tree: Self)
        ensures
            total_order::<<N as Approximate>::Cost>() && Successors::<N>::is_expansion(
                &ChildNodes,
            ) && NodeFn::<N>::is_function(&Estimate) ==> tree.wf(),
            tree.state().frontier().slot() == Some(root_node),
            tree.state().frontier().fns() == (Greedy {
                successor_fn: ChildNodes,
                eval_fn: Estimate,
            }),
    {
        Self { state: gds_reach(root_node, ChildNodes, Estimate) }
    }
}

impl<N: TreeNode + Approximate> Traversal<N> for GreedyTraversal<N> {
    open spec fn wf(&self) -> bool {
        self.state().wf()
    }

    open spec fn pulls(&self, next: Option<N>, after: &Self) -> bool {
        self.state().pulls(next, &after.state())
    }

    fn next(&mut self) -> (next: Option<N>) {
        self.state.next()
    }
}

} // verus!
