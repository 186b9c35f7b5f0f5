//! Breadth-first traversal of a tree of `TreeNode`s.

use crate::callback::Successors;
use crate::node::{ChildNodes, TreeNode};
use super::common::Traversal;
use super::functional::bfs::{bfs_reach, BreadthFirstContainer};
use super::functional::common::Reachable;
use vstd::prelude::*;

verus! {

/// The nodes of a tree in breadth-first order: level by level, all nodes
/// of one depth before any of the next.
pub struct BreadthFirstTraversal<N: TreeNode> {
    state: Reachable<BreadthFirstContainer<N, ChildNodes>>,
}

impl<N: TreeNode> BreadthFirstTraversal<N> {
    /// The traversal over callbacks that does the work.
    pub closed spec fn state(self) -> Reachable<BreadthFirstContainer<N, ChildNodes>> {
        self.state
    }

    /// The breadth-first traversal of the tree under `root_node`.
    pub fn new(root_node: N) -> (tree: Self)
        ensures
            Successors::<N>::is_expansion(&ChildNodes) ==> tree.wf(),
            tree.state().frontier().queue() == seq![root_node],
            tree.state().frontier().successor_fn() == ChildNodes,
    {
        Self { state: bfs_reach(root_node, ChildNodes) }
    }
}

impl<N: TreeNode> Traversal<N> for BreadthFirstTraversal<N> {
    open spec fn wf(&self) -> bool {
        self.state().wf()
    }

    open spec fn pulls(&self, next: Option<N>, after: &Self) -> bool {
        self.state().pulls(next, &after.state())
    }

    fn next(&mut self) -> (next: Option<N>) {
        self.state.next()
    }
}

} // verus!
