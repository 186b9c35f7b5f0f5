//! Depth-first search as a branch and bound that bounds nothing.

use crate::best::best_leaf;
use crate::callback::{Flat, Never, NodeFn, Successors};
use crate::clock::nanos_of;
use crate::common::search;
use crate::functional::bbs::{bbs_reach, BbsReachable};
use crate::model::{lemma_in_step, visits};
use crate::order::total_order;
use crate::traversal::common::{lemma_yields_inside, Traversal, yields};
use crate::traversal::functional::bbs::{bbs_machine, Bounding, lemma_bbs_follows};
use crate::traversal::functional::dfs::dfs_machine;
use std::time::Duration;
use vstd::prelude::*;

verus! {

/// A branch and bound in which no node is a leaf visits the nodes in
/// depth-first order.
pub proof fn lemma_unbounded_is_dfs<C, N, FN, FC, FC2>(
    fns: Bounding<FN, Never, FC, FC2>,
    stack: Seq<N>,
    k: nat,
) where
    C: Ord,
    FN: Successors<N>,
    FC: NodeFn<N, Output = Option<C>>,
    FC2: NodeFn<N, Output = Option<C>>,

    ensures
        visits(bbs_machine(fns), (stack, None::<C>), k) == visits(
            dfs_machine(fns.successor_fn),
            stack,
            k,
        ),
{
    let first = bbs_machine(fns);
    let second = dfs_machine(fns.successor_fn);
    let rel = |st: (Seq<N>, Option<C>)| st.0;
    let inv = |st: (Seq<N>, Option<C>)| st.1 is None;
    assert forall|a: (Seq<N>, Option<C>)| #[trigger] inv(a) implies inv((first.step)(a)) && (
    first.next)(a) == (second.next)(rel(a)) && rel((first.step)(a)) == (second.step)(rel(a)) by {}
    lemma_in_step(first, second, rel, inv, (stack, None::<C>), k);
}

/// Finds the cheapest leaf by depth-first search, within a budget.
///
/// The traversal is a branch and bound in which no node counts as a leaf,
/// so that nothing is ever bounded: the nodes are visited in depth-first
/// order from `start`. The result is the cheapest leaf among the first `k`
/// of them, the first such leaf where several cost the same. The search
/// processes at most `max_ops` nodes, and none where `time_limit` is zero;
/// beyond that `k` depends on the clock.
pub fn dfs<N, FN, FC, C, FL>(
    start: N,
    successor_fn: FN,
    leaf_check_fn: FL,
    cost_fn: FC,
    max_ops: usize,
    time_limit: Duration,
) -> (best: Option<(C, N)>) where
    C: Ord + Copy + Default,
    FN: Successors<N>,
    FL: NodeFn<N, Output = bool>,
    FC: NodeFn<N, Output = Option<C>>,

    requires
        successor_fn.is_expansion(),
        leaf_check_fn.is_function(),
        cost_fn.is_function(),
        total_order::<C>(),
    ensures
        exists|k: nat|
            {
                &&& k <= max_ops
                &&& nanos_of(time_limit) == 0 ==> k == 0
                &&& best == best_leaf(
                    #[trigger] visits(dfs_machine(successor_fn), seq![start], k),
                    leaf_check_fn,
                    cost_fn,
                )
            },
        max_ops == 0 ==> best is None,
{
    let flat = C::default();
    let mut res = bbs_reach(start, successor_fn, Never, Flat(flat), Flat(flat));
    let ghost from = res;
    let ghost fns = Bounding {
        successor_fn,
        leaf_check_fn: Never,
        cost_fn: Flat(flat),
        lower_bound_fn: Flat(flat),
    };
    let best = search(&mut res, leaf_check_fn, cost_fn, max_ops, time_limit);
    proof {
        let (seen, mid, last) = choose|
            seen: Seq<N>,
            mid: BbsReachable<C, N, FN, Never, Flat<C>, Flat<C>>,
            last: Option<N>,
        |
            {
                &&& #[trigger] yields(from, seen, mid)
                &&& mid.wf()
                &&& #[trigger] mid.pulls(last, &res)
                &&& seen.len() <= max_ops
                &&& nanos_of(time_limit) == 0 ==> seen.len() == 0
                &&& best == best_leaf(seen, leaf_check_fn, cost_fn)
            };
        lemma_yields_inside(
            |t: BbsReachable<C, N, FN, Never, Flat<C>, Flat<C>>| t.state(),
            from,
            seen,
            mid,
        );
        lemma_bbs_follows(fns, from.state(), seen, mid.state());
        lemma_unbounded_is_dfs(fns, seq![start], seen.len());
        assert(visits(dfs_machine(successor_fn), seq![start], seen.len()) == seen);
    }
    best
}

} // verus!
