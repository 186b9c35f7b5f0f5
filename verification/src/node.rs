//! Nodes that answer for themselves.
//!
//! A node type that implements `TreeNode` carries its own successor
//! function, leaf test and cost. `LowerBound`, `Approximate` and `Priority`
//! add what branch and bound, beam and greedy search, and priority-first
//! search ask for.
//!
//! The traits are plain Rust. To a search each method is a callback like
//! any closure: it stands for a function of the node where it accepts every
//! node and its contract allows one result per node.

use crate::callback::{NodeFn, Successors};
use vstd::prelude::*;

verus! {

/// A node of a tree: a candidate solution, partial or complete.
pub trait TreeNode: Sized {
    /// The type of the cost of a leaf.
    type Cost: Copy + Ord;

    /// Checks whether the node is a leaf.
    fn is_leaf(&self) -> bool;

    /// Generates the successors of the node.
    fn generate_child_nodes(&self) -> Vec<Self>;

    /// Returns the cost of the node; `None` where it breaks a constraint of
    /// the problem.
    fn cost(&self) -> Option<Self::Cost>;
}

/// A node that knows a lower bound on the cost of every leaf under it.
pub trait LowerBound {
    /// The type of the bound.
    type Cost: Copy + Ord;

    /// Returns the lower bound of the node; `None` where it has none.
    fn cost_lb(&self) -> Option<Self::Cost>;
}

/// A node that knows an estimate of its cost, by which successors are
/// ranked: lower is better.
pub trait Approximate {
    /// The type of the estimate.
    type Cost: Copy + Ord;

    /// Returns the estimate of the node; `None` where it has none.
    fn cost_approx(&self) -> Option<Self::Cost>;
}

/// A node that knows its priority: higher is visited first.
pub trait Priority {
    /// The type of the priority.
    type Value: Copy + Ord;

    /// Returns the priority of the node; `None` where it has none.
    fn priority(&self) -> Option<Self::Value>;
}

/// Whether the methods of a `TreeNode` stand for functions of the node.
pub open spec fn is_tree<N: TreeNode>() -> bool {
    &&& Successors::<N>::is_expansion(&ChildNodes)
    &&& NodeFn::<N>::is_function(&IsLeaf)
    &&& NodeFn::<N>::is_function(&LeafCost)
}

/// The successor function of a `TreeNode`, as a callback.
#[derive(Clone, Copy)]
pub struct ChildNodes;

/// The leaf test of a `TreeNode`, as a callback.
#[derive(Clone, Copy)]
pub struct IsLeaf;

/// The cost of a `TreeNode`, as a callback.
#[derive(Clone, Copy)]
pub struct LeafCost;

/// The lower bound of a `LowerBound` node, as a callback.
#[derive(Clone, Copy)]
pub struct Bound;

/// The estimate of an `Approximate` node, as a callback.
#[derive(Clone, Copy)]
pub struct Estimate;

/// The priority of a `Priority` node, as a callback.
#[derive(Clone, Copy)]
pub struct Rank;

impl<N: TreeNode> Successors<N> for ChildNodes {
    open spec fn is_expansion(&self) -> bool {
        Successors::<N>::is_expansion(&N::generate_child_nodes)
    }

    open spec fn children(&self, n: &N) -> Seq<N> {
        Successors::<N>::children(&N::generate_child_nodes, n)
    }

    fn successors(&self, n: &N) -> (kids: Vec<N>) {
        let ask = N::generate_child_nodes;
        ask.successors(n)
    }
}

impl<N: TreeNode> NodeFn<N> for IsLeaf {
    type Output = bool;

    open spec fn is_function(&self) -> bool {
        NodeFn::<N>::is_function(&N::is_leaf)
    }

    open spec fn value(&self, n: &N) -> bool {
        NodeFn::<N>::value(&N::is_leaf, n)
    }

    fn eval(&self, n: &N) -> (r: bool) {
        let ask = N::is_leaf;
        ask.eval(n)
    }
}

impl<N: TreeNode> NodeFn<N> for LeafCost {
    type Output = Option<N::Cost>;

    open spec fn is_function(&self) -> bool {
        NodeFn::<N>::is_function(&N::cost)
    }

    open spec fn value(&self, n: &N) -> Option<N::Cost> {
        NodeFn::<N>::value(&N::cost, n)
    }

    fn eval(&self, n: &N) -> (r: Option<N::Cost>) {
        let ask = N::cost;
        ask.eval(n)
    }
}

impl<N: LowerBound> NodeFn<N> for Bound {
    type Output = Option<N::Cost>;

    open spec fn is_function(&self) -> bool {
        NodeFn::<N>::is_function(&N::cost_lb)
    }

    open spec fn value(&self, n: &N) -> Option<N::Cost> {
        NodeFn::<N>::value(&N::cost_lb, n)
    }

    fn eval(&self, n: &N) -> (r: Option<N::Cost>) {
        let ask = N::cost_lb;
        ask.eval(n)
    }
}

impl<N: Approximate> NodeFn<N> for Estimate {
    type Output = Option<N::Cost>;

    open spec fn is_function(&self) -> bool {
        NodeFn::<N>::is_function(&N::cost_approx)
    }

    open spec fn value(&self, n: &N) -> Option<N::Cost> {
        NodeFn::<N>::value(&N::cost_approx, n)
    }

    fn eval(&self, n: &N) -> (r: Option<N::Cost>) {
        let ask = N::cost_approx;
        ask.eval(n)
    }
}

impl<N: Priority> NodeFn<N> for Rank {
    type Output = Option<N::Value>;

    open spec fn is_function(&self) -> bool {
        NodeFn::<N>::is_function(&N::priority)
    }

    open spec fn value(&self, n: &N) -> Option<N::Value> {
        NodeFn::<N>::value(&N::priority, n)
    }

    fn eval(&self, n: &N) -> (r: Option<N::Value>) {
        let ask = N::priority;
        ask.eval(n)
    }
}

} // verus!
