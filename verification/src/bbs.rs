//! Branch and bound against a ceiling.
//!
//! This search has no budget: it runs until the tree is exhausted. Its best
//! cost starts at the largest value of the cost type, which stands for "no
//! leaf yet", so a leaf is found only where it costs strictly less than
//! that. Every node has a lower bound, and a node is expanded where its
//! bound is at most the best cost.

use crate::best::{bar, best_leaf, lemma_under_push, under};
use crate::callback::{Always, NodeFn, Successors};
use crate::model::{after, exhausted, Machine, visits};
use crate::order::{le, less, lt, total_order};
use crate::traversal::common::Traversal;
use num_traits::Bounded;
use vstd::prelude::*;

verus! {

/// `num_traits::Bounded::max_value`: the value that the type gives as its
/// largest. Nothing is claimed of it.
#[verifier::external_body]
pub(crate) fn ceiling<C: Bounded>() -> C {
    C::max_value()
}

/// The branch-and-bound traversal of a tree, against a best cost that the
/// search keeps up to date.
pub struct BbsReachable<N, FN, FC, C> {
    to_see: Vec<N>,
    successor_fn: FN,
    lower_bound_fn: FC,
    current_best_cost: C,
}

/// The callbacks of a branch-and-bound search against a ceiling.
pub struct Sweep<FN, FC1, FC2, FR> {
    /// The successors of a node.
    pub successor_fn: FN,
    /// A lower bound on the cost of every leaf under a node.
    pub lower_bound_fn: FC1,
    /// The cost of a leaf.
    pub cost_fn: FC2,
    /// Whether a node is a leaf.
    pub leaf_check_fn: FR,
}

/// The stack once its top has been visited: the successors of the top take
/// its place where its lower bound is at most `best`, and nothing does
/// where it is not.
pub open spec fn swept<N, FN, FC, C>(
    successor_fn: FN,
    lower_bound_fn: FC,
    stack: Seq<N>,
    best: C,
) -> Seq<N> where C: Ord, FN: Successors<N>, FC: NodeFn<N, Output = C> {
    if le(lower_bound_fn.value(&stack.last()), best) {
        stack.drop_last() + successor_fn.children(&stack.last())
    } else {
        stack.drop_last()
    }
}

/// The best cost once `node` has been visited: its cost, where it is a
/// leaf that costs strictly less than `best`.
pub open spec fn lowered<N, FC, FR, C>(cost_fn: FC, leaf_check_fn: FR, node: N, best: C) -> C where
    C: Ord,
    FC: NodeFn<N, Output = C>,
    FR: NodeFn<N, Output = bool>,
 {
    if leaf_check_fn.value(&node) && lt(cost_fn.value(&node), best) {
        cost_fn.value(&node)
    } else {
        best
    }
}

/// The search as a machine over the stack, whose top is its last node, and
/// the best cost: the top is visited and the stack swept against the best
/// cost, and then the best cost is lowered where the top is a cheaper
/// leaf.
pub open spec fn sweep_machine<N, FN, FC1, FC2, FR, C>(fns: Sweep<FN, FC1, FC2, FR>) -> Machine<
    (Seq<N>, C),
    N,
> where
    C: Ord,
    FN: Successors<N>,
    FC1: NodeFn<N, Output = C>,
    FC2: NodeFn<N, Output = C>,
    FR: NodeFn<N, Output = bool>,
 {
    Machine {
        next: |st: (Seq<N>, C)|
            if st.0.len() == 0 {
                None
            } else {
                Some(st.0.last())
            },
        step: |st: (Seq<N>, C)|
            if st.0.len() == 0 {
                st
            } else {
                (
                    swept(fns.successor_fn, fns.lower_bound_fn, st.0, st.1),
                    lowered(fns.cost_fn, fns.leaf_check_fn, st.0.last(), st.1),
                )
            },
    }
}

impl<N, FN, FC, C> BbsReachable<N, FN, FC, C> where
    C: Ord + Copy,
    FN: Successors<N>,
    FC: NodeFn<N, Output = C>,
 {
    /// The stack, its top last.
    pub closed spec fn stack(self) -> Seq<N> {
        self.to_see@
    }

    /// The best cost.
    pub closed spec fn best(self) -> C {
        self.current_best_cost
    }

    /// The successor function.
    pub closed spec fn successor_fn(self) -> FN {
        self.successor_fn
    }

    /// The lower bound.
    pub closed spec fn lower_bound_fn(self) -> FC {
        self.lower_bound_fn
    }

    /// The traversal of the tree under `start`, with `best` as its best
    /// cost.
    pub fn new(start: N, successor_fn: FN, lower_bound_fn: FC, best: C) -> (tree: Self)
        ensures
            tree.stack() == seq![start],
            tree.best() == best,
            tree.successor_fn() == successor_fn,
            tree.lower_bound_fn() == lower_bound_fn,
    {
        let mut to_see = Vec::new();
        to_see.push(start);
        BbsReachable { to_see, successor_fn, lower_bound_fn, current_best_cost: best }
    }
}

impl<N, FN, FC, C> Traversal<N> for BbsReachable<N, FN, FC, C> where
    C: Ord + Copy,
    FN: Successors<N>,
    FC: NodeFn<N, Output = C>,
 {
    open spec fn wf(&self) -> bool {
        &&& total_order::<C>()
        &&& self.successor_fn().is_expansion()
        &&& self.lower_bound_fn().is_function()
    }

    open spec fn pulls(&self, next: Option<N>, after: &Self) -> bool {
        &&& after.successor_fn() == self.successor_fn()
        &&& after.lower_bound_fn() == self.lower_bound_fn()
        &&& after.best() == self.best()
        &&& if self.stack().len() == 0 {
            next is None && after.stack() == self.stack()
        } else {
            next == Some(self.stack().last()) && after.stack() == swept(
                self.successor_fn(),
                self.lower_bound_fn(),
                self.stack(),
                self.best(),
            )
        }
    }

    fn next(&mut self) -> (next: Option<N>) {
        match self.to_see.pop() {
            Some(node) => {
                let bound = self.lower_bound_fn.eval(&node);
                if !less(&self.current_best_cost, &bound) {
                    let mut kids = self.successor_fn.successors(&node);
                    self.to_see.append(&mut kids);
                }
                Some(node)
            },
            None => None,
        }
    }
}

/// The branch-and-bound traversal of the tree under `start`, with the
/// largest value of the cost type as its best cost.
pub fn bbs_reach<N, FN, FC, C>(start: N, successor_fn: FN, lower_bound_fn: FC) -> (tree:
    BbsReachable<N, FN, FC, C>) where
    C: Ord + Copy + Bounded,
    FN: Successors<N>,
    FC: NodeFn<N, Output = C>,

    ensures
        tree.stack() == seq![start],
        tree.successor_fn() == successor_fn,
        tree.lower_bound_fn() == lower_bound_fn,
{
    BbsReachable::new(start, successor_fn, lower_bound_fn, ceiling())
}

/// Finds the cheapest leaf under `top` by branch and bound, on a tree that
/// ends.
///
/// The best cost starts at `top`. A node is expanded where its lower bound
/// is at most the best cost, and a visited leaf that costs strictly less
/// than the best cost becomes the best leaf. The search visits nodes until
/// none is left, or until it has visited as many as a machine can count.
/// With `k` the number of visited nodes, the result is the cheapest leaf
/// among them, the first such leaf where several cost the same, where it
/// costs strictly less than `top`; else nothing.
pub fn bbs_under<N, FN, FC1, FC2, C, FR>(
    start: N,
    successor_fn: FN,
    lower_bound_fn: FC1,
    cost_fn: FC2,
    leaf_check_fn: FR,
    top: C,
) -> (best: Option<(C, N)>) where
    C: Ord + Copy,
    FN: Successors<N>,
    FC1: NodeFn<N, Output = C>,
    FC2: NodeFn<N, Output = C>,
    FR: NodeFn<N, Output = bool>,

    requires
        successor_fn.is_expansion(),
        lower_bound_fn.is_function(),
        cost_fn.is_function(),
        leaf_check_fn.is_function(),
        total_order::<C>(),
    ensures
        exists|k: nat|
            {
                &&& k <= usize::MAX
                &&& k < usize::MAX ==> exhausted(
                    sweep_machine(Sweep { successor_fn, lower_bound_fn, cost_fn, leaf_check_fn }),
                    (seq![start], top),
                    k,
                )
                &&& best == under(
                    best_leaf(
                        #[trigger] visits(
                            sweep_machine(
                                Sweep { successor_fn, lower_bound_fn, cost_fn, leaf_check_fn },
                            ),
                            (seq![start], top),
                            k,
                        ),
                        leaf_check_fn,
                        Always(cost_fn),
                    ),
                    top,
                )
            },
{
    let mut res = BbsReachable::new(start, successor_fn, lower_bound_fn, top);
    let ghost m = sweep_machine(Sweep { successor_fn, lower_bound_fn, cost_fn, leaf_check_fn });
    let ghost st = (seq![start], top);
    let ghost mut seen: Seq<N> = Seq::empty();
    let mut best_leaf_node: Option<N> = None;
    let mut ops: usize = 0;
    loop
        invariant_except_break
            ops == seen.len(),
        invariant
            leaf_check_fn.is_function(),
            cost_fn.is_function(),
            res.wf(),
            res.successor_fn() == successor_fn,
            res.lower_bound_fn() == lower_bound_fn,
            m == sweep_machine(Sweep { successor_fn, lower_bound_fn, cost_fn, leaf_check_fn }),
            st == (seq![start], top),
            (res.stack(), res.best()) == after(m, st, ops as nat),
            seen == visits(m, st, ops as nat),
            res.best() == bar(under(best_leaf(seen, leaf_check_fn, Always(cost_fn)), top), top),
            match under(best_leaf(seen, leaf_check_fn, Always(cost_fn)), top) {
                Some(b) => best_leaf_node == Some(b.1),
                None => best_leaf_node is None,
            },
        ensures
            ops < usize::MAX ==> exhausted(m, st, ops as nat),
        decreases usize::MAX - ops,
    {
        if ops == usize::MAX {
            break ;
        }
        let ghost before = (res.stack(), res.best());
        let op_n = res.next();
        match op_n {
            None => {
                break ;
            },
            Some(n) => {
                proof {
                    lemma_under_push(seen, n, leaf_check_fn, Always(cost_fn), top);
                    assert(visits(m, st, (ops + 1) as nat) == seen.push(n));
                    assert(after(m, st, (ops + 1) as nat) == (m.step)(before));
                    seen = seen.push(n);
                }
                if leaf_check_fn.eval(&n) {
                    let cost = cost_fn.eval(&n);
                    if less(&cost, &res.current_best_cost) {
                        res.current_best_cost = cost;
                        best_leaf_node = Some(n);
                    }
                }
                ops += 1;
            },
        }
    }
    match best_leaf_node {
        Some(n) => Some((res.current_best_cost, n)),
        None => None,
    }
}

/// Finds the cheapest leaf by branch and bound, on a tree that ends.
///
/// This is `bbs_under` with the largest value of the cost type as `top`.
/// The search visits nodes until none is left, or until it has visited as
/// many as a machine can count. With `k` the number of visited nodes, the
/// result is the cheapest leaf among the visited nodes, the first such
/// leaf where several cost the same, where it costs strictly less than
/// `top`; else nothing.
pub fn bbs<N, FN, FC1, FC2, C, FR>(
    start: N,
    successor_fn: FN,
    lower_bound_fn: FC1,
    cost_fn: FC2,
    leaf_check_fn: FR,
) -> (best: Option<(C, N)>) where
    C: Ord + Copy + Bounded,
    FN: Successors<N>,
    FC1: NodeFn<N, Output = C>,
    FC2: NodeFn<N, Output = C>,
    FR: NodeFn<N, Output = bool>,

    requires
        successor_fn.is_expansion(),
        lower_bound_fn.is_function(),
        cost_fn.is_function(),
        leaf_check_fn.is_function(),
        total_order::<C>(),
    ensures
        exists|top: C, k: nat|
            {
                &&& k <= usize::MAX
                &&& k < usize::MAX ==> exhausted(
                    sweep_machine(Sweep { successor_fn, lower_bound_fn, cost_fn, leaf_check_fn }),
                    (seq![start], top),
                    k,
                )
                &&& best == under(
                    best_leaf(
                        #[trigger] visits(
                            sweep_machine(
                                Sweep { successor_fn, lower_bound_fn, cost_fn, leaf_check_fn },
                            ),
                            (seq![start], top),
                            k,
                        ),
                        leaf_check_fn,
                        Always(cost_fn),
                    ),
                    top,
                )
            },
{
    bbs_under(start, successor_fn, lower_bound_fn, cost_fn, leaf_check_fn, ceiling())
}

} // verus!
