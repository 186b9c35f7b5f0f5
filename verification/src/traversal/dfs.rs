//! Depth-first traversal of a tree of `TreeNode`s.

use crate::callback::Successors;
use crate::node::{ChildNodes, TreeNode};
use super::common::Traversal;
use super::functional::common::Reachable;
use super::functional::dfs::{DepthFirstContainer, dfs_reach};
use vstd::prelude::*;

verus! {

/// The nodes of a tree in depth-first order: as far as possible along each
/// branch before the next branch is taken up.
pub struct DepthFirstTraversal<N: TreeNode> {
    state: Reachable<DepthFirstContainer<N, ChildNodes>>,
}

impl<N: TreeNode> DepthFirstTraversal<N> {
    /// The traversal over callbacks that does the work.
    pub closed spec fn state(self) -> Reachable<DepthFirstContainer<N, ChildNodes>> {
        self.state
    }

    /// The depth-first traversal of the tree under `root_node`.
    pub fn new(root_node: N) -> (tree: Self)
        ensures
            Successors::<N>::is_expansion(&ChildNodes) ==> tree.wf(),
            tree.state().frontier().stack() == seq![root_node],
            tree.state().frontier().successor_fn() == ChildNodes,
    {
        Self { state: dfs_reach(root_node, ChildNodes) }
    }
}

impl<N: TreeNode> Traversal<N> for DepthFirstTraversal<N> {
    open spec fn wf(&self) -> bool {
        self.state().wf()
    }

    open spec fn pulls(&self, next: Option<N>, after: &Self) -> bool {
        self.state().pulls(next, &after.state())
    }

    fn next(&mut self) -> (next: Option<N>) {
        self.state.next()
    }
}

} // verus!
