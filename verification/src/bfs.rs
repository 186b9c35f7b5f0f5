//! Breadth-first search as a beam that is cut nowhere.

use crate::best::best_leaf;
use crate::callback::{Flat, NodeFn, Successors};
use crate::clock::nanos_of;
use crate::model::visits;
use crate::order::total_order;
use crate::traversal::functional::bms::{Beam, bms, bms_machine, bms_start};
use std::time::Duration;
use vstd::prelude::*;

verus! {

/// Finds the cheapest leaf by breadth-first search, within a budget.
///
/// This is a beam search in which all nodes score the same, `flat`, and
/// neither the branches nor the width are limited: the nodes are visited
/// generation by generation, in the order in which they are generated. The
/// result is the cheapest leaf among the first `k` visited nodes, the
/// first such leaf where several cost the same. The search processes at
/// most `max_ops` nodes, and none where `time_limit` is zero; beyond that
/// `k` depends on the clock.
pub fn bfs<N, FN, FC, C, FR>(
    start: N,
    successor_fn: FN,
    leaf_check_fn: FR,
    cost_fn: FC,
    max_ops: usize,
    time_limit: Duration,
) -> (best: Option<(C, N)>) where
    C: Ord + Copy + Default,
    FN: Successors<N>,
    FC: NodeFn<N, Output = Option<C>>,
    FR: NodeFn<N, Output = bool>,

    requires
        successor_fn.is_expansion(),
        leaf_check_fn.is_function(),
        cost_fn.is_function(),
        total_order::<C>(),
    ensures
        exists|flat: C, k: nat|
            {
                &&& k <= max_ops
                &&& nanos_of(time_limit) == 0 ==> k == 0
                &&& best == best_leaf(
                    #[trigger] visits(
                        bms_machine(
                            Beam {
                                successor_fn,
                                eval_fn: Flat(flat),
                                branch_factor: usize::MAX,
                                beam_width: usize::MAX,
                            },
                        ),
                        bms_start::<C, N>(start),
                        k,
                    ),
                    leaf_check_fn,
                    cost_fn,
                )
            },
        max_ops == 0 ==> best is None,
{
    bms(
        start,
        successor_fn,
        leaf_check_fn,
        cost_fn,
        Flat(C::default()),
        usize::MAX,
        usize::MAX,
        max_ops,
        time_limit,
    )
}

} // verus!
