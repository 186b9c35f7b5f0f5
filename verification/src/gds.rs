//! Greedy search against a ceiling.

use crate::best::{best_leaf, under};
use crate::bms::bms;
use crate::callback::{Always, NodeFn, Successors};
use crate::model::{exhausted, visits};
use crate::order::total_order;
use crate::traversal::functional::bms::{Beam, lemma_narrow_beam_is_greedy};
use crate::traversal::functional::gds::{gds_machine, Greedy};
use num_traits::Bounded;
use vstd::prelude::*;

verus! {

/// Finds a cheap leaf by greedy search, on a tree that ends.
///
/// From `start` the search goes down one path: from each node to its
/// successor of lowest score, the first such where several score the same.
/// It is run as a beam search whose beam is one node wide and takes in
/// every successor. Every node has a score and a cost. With `top` the
/// largest value of the cost type and `k` the number of visited nodes, the
/// result is the cheapest leaf on the path, the first such leaf where
/// several cost the same, where it costs strictly less than `top`; else
/// nothing.
pub fn gds<N, FN, FC1, FC2, C, FR>(
    start: N,
    successor_fn: FN,
    eval_fn: FC1,
    cost_fn: FC2,
    leaf_check_fn: FR,
) -> (best: Option<(C, N)>) where
    C: Ord + Copy + Bounded,
    FN: Successors<N>,
    FC1: NodeFn<N, Output = C>,
    FC2: NodeFn<N, Output = C>,
    FR: NodeFn<N, Output = bool>,

    requires
        successor_fn.is_expansion(),
        eval_fn.is_function(),
        cost_fn.is_function(),
        leaf_check_fn.is_function(),
        total_order::<C>(),
    ensures
        exists|top: C, k: nat|
            {
                &&& k <= usize::MAX
                &&& k < usize::MAX ==> exhausted(
                    gds_machine(Greedy { successor_fn, eval_fn: Always(eval_fn) }),
                    Some(start),
                    k,
                )
                &&& best == #[trigger] under(
                    best_leaf(
                        visits(
                            gds_machine(Greedy { successor_fn, eval_fn: Always(eval_fn) }),
                            Some(start),
                            k,
                        ),
                        leaf_check_fn,
                        Always(cost_fn),
                    ),
                    top,
                )
            },
{
    let best = bms(
        start,
        successor_fn,
        Always(eval_fn),
        usize::MAX,
        1,
        Always(cost_fn),
        leaf_check_fn,
    );
    proof {
        let fns = Beam {
            successor_fn,
            eval_fn: Always(eval_fn),
            branch_factor: usize::MAX,
            beam_width: 1,
        };
        assert forall|k: nat| true implies {
            &&& #[trigger] visits(
                crate::traversal::functional::bms::bms_machine(fns),
                crate::traversal::functional::bms::bms_start::<C, N>(start),
                k,
            ) == visits(
                gds_machine(Greedy { successor_fn, eval_fn: Always(eval_fn) }),
                Some(start),
                k,
            )
            &&& exhausted(
                crate::traversal::functional::bms::bms_machine(fns),
                crate::traversal::functional::bms::bms_start::<C, N>(start),
                k,
            ) == exhausted(
                gds_machine(Greedy { successor_fn, eval_fn: Always(eval_fn) }),
                Some(start),
                k,
            )
        } by {
            lemma_narrow_beam_is_greedy(fns, start, k);
        }
    }
    best
}

} // verus!
