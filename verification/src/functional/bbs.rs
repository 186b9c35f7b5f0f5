//! Branch and bound, searched for the single cheapest leaf.

use crate::best::best_leaf;
use crate::callback::{NodeFn, Successors};
use crate::clock::nanos_of;
use crate::common::search;
use crate::model::visits;
use crate::order::total_order;
use crate::traversal::common::{lemma_yields_inside, Traversal, yields};
use crate::traversal::functional::bbs::{
    bbs_machine, Bounding, BranchAndBoundContainer, lemma_bbs_follows,
};
use crate::traversal::functional::common::Reachable;
use std::time::Duration;
use vstd::prelude::*;

verus! {

/// The branch-and-bound traversal of a tree.
pub struct BbsReachable<C, N, FN, FL, FC, FC2> {
    state: Reachable<BranchAndBoundContainer<C, N, FN, FL, FC, FC2>>,
}

impl<C, N, FN, FL, FC, FC2> BbsReachable<C, N, FN, FL, FC, FC2> where
    C: Ord + Copy,
    FN: Successors<N>,
    FL: NodeFn<N, Output = bool>,
    FC: NodeFn<N, Output = Option<C>>,
    FC2: NodeFn<N, Output = Option<C>>,
 {
    /// The traversal over the frontier that does the work.
    pub closed spec fn state(self) -> Reachable<BranchAndBoundContainer<C, N, FN, FL, FC, FC2>> {
        self.state
    }

    /// The traversal that goes on from the stack `to_see`, whose top is its
    /// last node, with the best cost `current_best_cost`.
    pub fn new(
        to_see: Vec<N>,
        successor_fn: FN,
        leaf_check_fn: FL,
        cost_fn: FC,
        lower_bound_fn: FC2,
        current_best_cost: Option<C>,
    ) -> (tree: Self)
        ensures
            tree.state().frontier().state() == (to_see@, current_best_cost),
            tree.state().frontier().fns() == (Bounding {
                successor_fn,
                leaf_check_fn,
                cost_fn,
                lower_bound_fn,
            }),
    {
        let container = BranchAndBoundContainer::resume(
            to_see,
            successor_fn,
            leaf_check_fn,
            cost_fn,
            lower_bound_fn,
            current_best_cost,
        );
        Self { state: Reachable::new(container) }
    }
}

impl<C, N, FN, FL, FC, FC2> Traversal<N> for BbsReachable<C, N, FN, FL, FC, FC2> where
    C: Ord + Copy,
    FN: Successors<N>,
    FL: NodeFn<N, Output = bool>,
    FC: NodeFn<N, Output = Option<C>>,
    FC2: NodeFn<N, Output = Option<C>>,
 {
    open spec fn wf(&self) -> bool {
        self.state().wf()
    }

    open spec fn pulls(&self, next: Option<N>, after: &Self) -> bool {
        self.state().pulls(next, &after.state())
    }

    fn next(&mut self) -> (next: Option<N>) {
        self.state.next()
    }
}

/// The branch-and-bound traversal of the tree under `start`.
pub fn bbs_reach<C, N, FN, FL, FC, FC2>(
    start: N,
    successor_fn: FN,
    leaf_check_fn: FL,
    cost_fn: FC,
    lower_bound_fn: FC2,
) -> (tree: BbsReachable<C, N, FN, FL, FC, FC2>) where
    C: Ord + Copy,
    FN: Successors<N>,
    FL: NodeFn<N, Output = bool>,
    FC: NodeFn<N, Output = Option<C>>,
    FC2: NodeFn<N, Output = Option<C>>,

    ensures
        tree.state().frontier().state() == (seq![start], None::<C>),
        tree.state().frontier().fns() == (Bounding {
            successor_fn,
            leaf_check_fn,
            cost_fn,
            lower_bound_fn,
        }),
{
    let mut to_see = Vec::new();
    to_see.push(start);
    BbsReachable::new(to_see, successor_fn, leaf_check_fn, cost_fn, lower_bound_fn, None)
}

/// Finds the cheapest leaf by branch and bound, within a budget.
///
/// The nodes are visited depth first from `start`, but a node that is no
/// leaf is expanded only where its lower bound is absent or strictly less
/// than the cost of the cheapest leaf visited before it. The result is the
/// cheapest leaf among the first `k` visited nodes, the first such leaf
/// where several cost the same. The search processes at most `max_ops`
/// nodes, and none where `time_limit` is zero; beyond that `k` depends on
/// the clock.
pub fn bbs<C, N, FN, FL, FC, FC2>(
    start: N,
    successor_fn: FN,
    leaf_check_fn: FL,
    cost_fn: FC,
    lower_bound_fn: FC2,
    max_ops: usize,
    time_limit: Duration,
) -> (best: Option<(C, N)>) where
    C: Ord + Copy,
    FN: Successors<N>,
    FC: Copy + NodeFn<N, Output = Option<C>>,
    FL: Copy + NodeFn<N, Output = bool>,
    FC2: NodeFn<N, Output = Option<C>>,

    requires
        successor_fn.is_expansion(),
        leaf_check_fn.is_function(),
        cost_fn.is_function(),
        lower_bound_fn.is_function(),
        total_order::<C>(),
    ensures
        exists|k: nat|
            {
                &&& k <= max_ops
                &&& nanos_of(time_limit) == 0 ==> k == 0
                &&& best == best_leaf(
                    #[trigger] visits(
                        bbs_machine(
                            Bounding { successor_fn, leaf_check_fn, cost_fn, lower_bound_fn },
                        ),
                        (seq![start], None::<C>),
                        k,
                    ),
                    leaf_check_fn,
                    cost_fn,
                )
            },
        max_ops == 0 ==> best is None,
{
    let mut res = bbs_reach(start, successor_fn, leaf_check_fn, cost_fn, lower_bound_fn);
    let ghost from = res;
    let ghost fns = Bounding { successor_fn, leaf_check_fn, cost_fn, lower_bound_fn };
    let best = search(&mut res, leaf_check_fn, cost_fn, max_ops, time_limit);
    proof {
        let (seen, mid, last) = choose|
            seen: Seq<N>,
            mid: BbsReachable<C, N, FN, FL, FC, FC2>,
            last: Option<N>,
        |
            {
                &&& #[trigger] yields(from, seen, mid)
                &&& mid.wf()
                &&& #[trigger] mid.pulls(last, &res)
                &&& seen.len() <= max_ops
                &&& nanos_of(time_limit) == 0 ==> seen.len() == 0
                &&& best == best_leaf(seen, leaf_check_fn, cost_fn)
            };
        lemma_yields_inside(
            |t: BbsReachable<C, N, FN, FL, FC, FC2>| t.state(),
            from,
            seen,
            mid,
        );
        lemma_bbs_follows(fns, from.state(), seen, mid.state());
        assert(visits(bbs_machine(fns), (seq![start], None::<C>), seen.len()) == seen);
    }
    best
}

} // verus!
