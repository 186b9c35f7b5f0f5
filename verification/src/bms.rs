//! Beam search against a ceiling.
//!
//! This search has no budget: it runs until the beam is exhausted. Its best
//! cost starts at the largest value of the cost type, which stands for "no
//! leaf yet", so a leaf is found only where it costs strictly less than
//! that.

use crate::bbs::ceiling;
use crate::best::{bar, best_leaf, lemma_under_push, under};
use crate::callback::{NodeFn, Successors};
use crate::model::{exhausted, visits};
use crate::order::{less, total_order};
use crate::traversal::common::{lemma_yields_inside, Traversal, yields};
use crate::traversal::functional::bms::{
    Beam, bms_machine, bms_start, BmsContainer, lemma_bms_follows,
};
use crate::traversal::functional::common::Reachable;
use num_traits::Bounded;
use vstd::prelude::*;

verus! {

/// The beam traversal of a tree.
pub struct BmsReachable<N, FN, FC, C: Ord> {
    state: Reachable<BmsContainer<N, FN, FC, C>>,
}

impl<N, FN, FC, C> BmsReachable<N, FN, FC, C> where
    C: Ord + Copy,
    FN: Successors<N>,
    FC: NodeFn<N, Output = Option<C>>,
 {
    /// The traversal over the frontier that does the work.
    pub closed spec fn state(self) -> Reachable<BmsContainer<N, FN, FC, C>> {
        self.state
    }
}

impl<N, FN, FC, C> Traversal<N> for BmsReachable<N, FN, FC, C> where
    C: Ord + Copy,
    FN: Successors<N>,
    FC: NodeFn<N, Output = Option<C>>,
 {
    open spec fn wf(&self) -> bool {
        self.state().wf()
    }

    open spec fn pulls(&self, next: Option<N>, after: &Self) -> bool {
        self.state().pulls(next, &after.state())
    }

    fn next(&mut self) -> (next: Option<N>) {
        self.state.next()
    }
}

/// The beam traversal of the tree under `start`.
pub fn bms_reach<N, FN, FC, C>(
    start: N,
    successor_fn: FN,
    eval_fn: FC,
    branch_factor: usize,
    beam_width: usize,
) -> (tree: BmsReachable<N, FN, FC, C>) where
    C: Ord + Copy,
    FN: Successors<N>,
    FC: NodeFn<N, Output = Option<C>>,

    ensures
        tree.state().frontier().state() == bms_start::<C, N>(start),
        tree.state().frontier().fns() == (Beam {
            successor_fn,
            eval_fn,
            branch_factor,
            beam_width,
        }),
{
    BmsReachable {
        state: crate::traversal::functional::bms::bms_reach(
            start,
            successor_fn,
            eval_fn,
            branch_factor,
            beam_width,
        ),
    }
}

/// Searches the tree to its end for the cheapest leaf under `top`.
///
/// Nodes are pulled until none is left, or until as many have been pulled
/// as a machine can count. A pulled node that is a leaf with a cost becomes
/// the best leaf where it costs strictly less than the best leaf so far,
/// or than `top` where there is none yet.
pub fn sweep<C, N, T, FC, FL>(tree: &mut T, leaf_check_fn: FL, cost_fn: FC, top: C) -> (best:
    Option<(C, N)>) where
    C: Ord + Copy,
    T: Traversal<N>,
    FC: NodeFn<N, Output = Option<C>>,
    FL: NodeFn<N, Output = bool>,

    requires
        old(tree).wf(),
        leaf_check_fn.is_function(),
        cost_fn.is_function(),
        total_order::<C>(),
    ensures
        final(tree).wf(),
        exists|seen: Seq<N>, mid: T|
            {
                &&& #[trigger] yields(*old(tree), seen, mid)
                &&& mid.wf()
                &&& seen.len() <= usize::MAX
                &&& if seen.len() < usize::MAX {
                    mid.pulls(None, final(tree))
                } else {
                    *final(tree) == mid
                }
                &&& best == under(best_leaf(seen, leaf_check_fn, cost_fn), top)
            },
{
    let mut current_best_cost = top;
    let mut best_leaf_node: Option<N> = None;
    let mut ops: usize = 0;
    let ghost mut seen: Seq<N> = Seq::empty();
    let ghost mut mid: T = *tree;
    loop
        invariant_except_break
            yields(*old(tree), seen, *tree),
        invariant
            ops == seen.len(),
            tree.wf(),
            leaf_check_fn.is_function(),
            cost_fn.is_function(),
            total_order::<C>(),
            current_best_cost == bar(under(best_leaf(seen, leaf_check_fn, cost_fn), top), top),
            match under(best_leaf(seen, leaf_check_fn, cost_fn), top) {
                Some(b) => best_leaf_node == Some(b.1),
                None => best_leaf_node is None,
            },
        ensures
            yields(*old(tree), seen, mid),
            mid.wf(),
            if seen.len() < usize::MAX {
                mid.pulls(None, &*tree)
            } else {
                *tree == mid
            },
        decreases usize::MAX - ops,
    {
        proof {
            mid = *tree;
        }
        if ops == usize::MAX {
            break ;
        }
        let op_n = tree.next();
        match op_n {
            None => {
                break ;
            },
            Some(n) => {
                proof {
                    lemma_under_push(seen, n, leaf_check_fn, cost_fn, top);
                    let ghost grown = seen.push(n);
                    assert(mid.pulls(Some(n), &*tree));
                    assert(grown.drop_last() == seen);
                    assert(grown.last() == n);
                    assert(yields(*old(tree), grown, *tree));
                    seen = grown;
                }
                if leaf_check_fn.eval(&n) {
                    match cost_fn.eval(&n) {
                        Some(cost) => {
                            if less(&cost, &current_best_cost) {
                                current_best_cost = cost;
                                best_leaf_node = Some(n);
                            }
                        },
                        None => {},
                    }
                }
                ops += 1;
            },
        }
    }
    match best_leaf_node {
        Some(n) => Some((current_best_cost, n)),
        None => None,
    }
}

/// Finds a cheap leaf by beam search, on a tree that ends.
///
/// The search visits nodes in beam order until the beam is exhausted, or
/// until it has visited as many as a machine can count. With `top` the
/// largest value of the cost type and `k` the number of visited nodes, the
/// result is the cheapest leaf among the visited nodes, the first such
/// leaf where several cost the same, where it costs strictly less than
/// `top`; else nothing.
pub fn bms<N, FN, FC1, FC2, C, FR>(
    start: N,
    successor_fn: FN,
    eval_fn: FC1,
    branch_factor: usize,
    beam_width: usize,
    cost_fn: FC2,
    leaf_check_fn: FR,
) -> (best: Option<(C, N)>) where
    C: Ord + Copy + Bounded,
    FN: Successors<N>,
    FC1: NodeFn<N, Output = Option<C>>,
    FC2: NodeFn<N, Output = Option<C>>,
    FR: NodeFn<N, Output = bool>,

    requires
        successor_fn.is_expansion(),
        eval_fn.is_function(),
        cost_fn.is_function(),
        leaf_check_fn.is_function(),
        total_order::<C>(),
    ensures
        exists|top: C, k: nat|
            {
                &&& k <= usize::MAX
                &&& k < usize::MAX ==> exhausted(
                    bms_machine(Beam { successor_fn, eval_fn, branch_factor, beam_width }),
                    bms_start::<C, N>(start),
                    k,
                )
                &&& best == #[trigger] under(
                    best_leaf(
                        visits(
                            bms_machine(Beam { successor_fn, eval_fn, branch_factor, beam_width }),
                            bms_start::<C, N>(start),
                            k,
                        ),
                        leaf_check_fn,
                        cost_fn,
                    ),
                    top,
                )
            },
{
    let mut res = bms_reach(start, successor_fn, eval_fn, branch_factor, beam_width);
    let ghost from = res;
    let ghost fns = Beam { successor_fn, eval_fn, branch_factor, beam_width };
    let top: C = ceiling();
    let best = sweep(&mut res, leaf_check_fn, cost_fn, top);
    proof {
        let (seen, mid) = choose|seen: Seq<N>, mid: BmsReachable<N, FN, FC1, C>|
            {
                &&& #[trigger] yields(from, seen, mid)
                &&& mid.wf()
                &&& seen.len() <= usize::MAX
                &&& if seen.len() < usize::MAX {
                    mid.pulls(None, &res)
                } else {
                    res == mid
                }
                &&& best == under(best_leaf(seen, leaf_check_fn, cost_fn), top)
            };
        lemma_yields_inside(|t: BmsReachable<N, FN, FC1, C>| t.state(), from, seen, mid);
        lemma_bms_follows(fns, from.state(), seen, mid.state());
        assert(visits(bms_machine(fns), bms_start::<C, N>(start), seen.len()) == seen);
        if seen.len() < usize::MAX {
            assert(mid.state().pulls(None, &res.state()));
        }
    }
    best
}

} // verus!
