//! Beam traversal of a tree of `TreeNode`s.

use crate::callback::{NodeFn, Successors};
use crate::node::{Approximate, ChildNodes, Estimate, TreeNode};
use crate::order::total_order;
use super::common::Traversal;
use super::functional::bms::{Beam, bms_reach, bms_start, BmsContainer};
use super::functional::common::Reachable;
use vstd::prelude::*;

verus! {

/// The nodes of a tree generation by generation, each generation cut down
/// to the nodes of lowest estimate.
pub struct BeamTraversal<N: TreeNode + Approximate> {
    state: Reachable<BmsContainer<N, ChildNodes, Estimate, <N as Approximate>::Cost>>,
}

impl<N: TreeNode + Approximate> BeamTraversal<N> {
    /// The traversal over callbacks that does the work.
    pub closed spec fn state(self) -> Reachable<
        BmsContainer<N, ChildNodes, Estimate, <N as Approximate>::Cost>,
    > {
        self.state
    }

    /// The beam traversal of the tree under `root_node`.
    ///
    /// Of the successors of a node at most `branch_factor` are kept, and a
    /// generation holds at most `beam_width` nodes.
    pub fn new(root_node: N, branch_factor: usize, beam_width: usize) -> (tree: Self)
        ensures
            total_order::<<N as Approximate>::Cost>() && Successors::<N>::is_expansion(
                &ChildNodes,
            ) && NodeFn::<N>::is_function(&Estimate) ==> tree.wf(),
            tree.state().frontier().state() == bms_start::<<N as Approximate>::Cost, N>(
                root_node,
            ),
            tree.state().frontier().fns() == (Beam {
                successor_fn: ChildNodes,
                eval_fn: Estimate,
                branch_factor,
                beam_width,
            }),
    {
        Self { state: bms_reach(root_node, ChildNodes, Estimate, branch_factor, beam_width) }
    }
}

impl<N: TreeNode + Approximate> Traversal<N> for BeamTraversal<N> {
    open spec fn wf(&self) -> bool {
        self.state().wf()
    }

    open spec fn pulls(&self, next: Option<N>, after: &Self) -> bool {
        self.state().pulls(next, &after.state())
    }

    fn next(&mut self) -> (next: Option<N>) {
        self.state.next()
    }
}

} // verus!
