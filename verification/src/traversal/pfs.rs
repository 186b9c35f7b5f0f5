//! Priority-first traversal of a tree of `TreeNode`s.

use crate::callback::{NodeFn, Successors};
use crate::node::{ChildNodes, Priority, Rank, TreeNode};
use crate::order::total_order;
use super::common::Traversal;
use super::functional::common::Reachable;
use super::functional::pfs::{pfs_reach, pfs_start, Prioritized, PriorityFirstContainer};
use vstd::prelude::*;

verus! {

/// The nodes of a tree by priority: of the nodes that are known and not yet
/// visited, the one of highest priority comes next.
pub struct PriorityFirstTraversal<N: TreeNode + Priority> {
    state: Reachable<PriorityFirstContainer<N, ChildNodes, Rank, <N as Priority>::Value>>,
}

impl<N: TreeNode + Priority> PriorityFirstTraversal<N> {
    /// The traversal over callbacks that does the work.
    pub closed spec fn state(self) -> Reachable<
        PriorityFirstContainer<N, ChildNodes, Rank, <N as Priority>::Value>,
    > {
        self.state
    }

    /// The priority-first traversal of the tree under `root_node`.
    pub fn new(root_node: N) -> (tree: Self)
        requires
            NodeFn::<N>::is_function(&Rank),
        ensures
            total_order::<<N as Priority>::Value>() && Successors::<N>::is_expansion(
                &ChildNodes,
            ) ==> tree.wf(),
            tree.state().frontier().queue() == pfs_start(root_node, Rank),
            tree.state().frontier().fns() == (Prioritized {
                successor_fn: ChildNodes,
                priority_fn: Rank,
            }),
    {
        Self { state: pfs_reach(root_node, ChildNodes, Rank) }
    }
}

impl<N: TreeNode + Priority> Traversal<N> for PriorityFirstTraversal<N> {
    open spec fn wf(&self) -> bool {
        self.state().wf()
    }

    open spec fn pulls(&self, next: Option<N>, after: &Self) -> bool {
        self.state().pulls(next, &after.state())
    }

    fn next(&mut self) -> (next: Option<N>) {
        self.state.next()
    }
}

} // verus!
