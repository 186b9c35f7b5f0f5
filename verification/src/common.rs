//! The search for the single cheapest leaf.

use crate::best::best_leaf;
use crate::callback::NodeFn;
use crate::clock::{nanos_of, Stopwatch, Watch};
use crate::order::{less, total_order};
use crate::traversal::common::{Traversal, yields};
use std::time::Duration;
use vstd::prelude::*;

verus! {

/// The search behind `search`, `search_counted` and `search_replayed`:
/// `watch` says what bounds it in time.
fn seek<C, N, T, FC, FL>(
    tree: &mut T,
    leaf_check_fn: FL,
    cost_fn: FC,
    max_ops: usize,
    watch: Watch,
) -> (best: Option<(C, N)>) where
    C: Ord + Copy,
    T: Traversal<N>,
    FC: NodeFn<N, Output = Option<C>>,
    FL: NodeFn<N, Output = bool>,

    requires
        old(tree).wf(),
        leaf_check_fn.is_function(),
        cost_fn.is_function(),
        total_order::<C>(),
    ensures
        final(tree).wf(),
        exists|seen: Seq<N>, mid: T, last: Option<N>|
            {
                &&& #[trigger] yields(*old(tree), seen, mid)
                &&& mid.wf()
                &&& #[trigger] mid.pulls(last, final(tree))
                &&& seen.len() <= max_ops
                &&& watch.allows(seen.len())
                &&& last is None || seen.len() == max_ops || watch.stops(seen.len())
                &&& best == best_leaf(seen, leaf_check_fn, cost_fn)
            },
        max_ops == 0 ==> best is None,
{
    let mut best: Option<(C, N)> = None;
    let mut ops: usize = 0;
    let ghost mut seen: Seq<N> = Seq::empty();
    let ghost mut mid: T = *tree;
    let ghost mut last: Option<N> = None;
    loop
        invariant_except_break
            ops == seen.len(),
            yields(*old(tree), seen, *tree),
            tree.wf(),
        invariant
            leaf_check_fn.is_function(),
            cost_fn.is_function(),
            total_order::<C>(),
            ops <= max_ops,
            watch.allows(seen.len()),
            best == best_leaf(seen, leaf_check_fn, cost_fn),
        ensures
            tree.wf(),
            yields(*old(tree), seen, mid),
            mid.wf(),
            mid.pulls(last, &*tree),
            seen.len() <= max_ops,
            last is None || seen.len() == max_ops || watch.stops(seen.len()),
        decreases max_ops - ops,
    {
        proof {
            mid = *tree;
        }
        let next = tree.next();
        proof {
            last = next;
        }
        match next {
            None => {
                break ;
            },
            Some(node) => {
                if ops >= max_ops {
                    break ;
                }
                if watch.is_over(ops) {
                    break ;
                }
                proof {
                    let ghost grown = seen.push(node);
                    assert(mid.pulls(Some(node), &*tree));
                    assert(grown.drop_last() == seen);
                    assert(grown.last() == node);
                    assert(yields(*old(tree), grown, *tree));
                    seen = grown;
                }
                ops += 1;
                if leaf_check_fn.eval(&node) {
                    match cost_fn.eval(&node) {
                        Some(cost) => {
                            let better = match &best {
                                Some(b) => less(&cost, &b.0),
                                None => true,
                            };
                            if better {
                                best = Some((cost, node));
                            }
                        },
                        None => {},
                    }
                }
            },
        }
    }
    best
}

/// Searches the tree for its cheapest leaf, within a budget.
///
/// Nodes are pulled from `tree` one at a time. Before a pulled node is
/// processed the budget is checked: the search stops once `max_ops` nodes
/// have been processed or `time_limit` has gone by, and the node that was
/// pulled last is then dropped. A processed node that is a leaf with a cost
/// becomes the best leaf where there is none yet or where it is strictly
/// cheaper, so of leaves of equal cost the first one stays.
///
/// How many nodes are processed depends on the clock. The contract holds
/// whatever their number `seen.len()` is. `search_counted` is the same
/// search without the clock, and `search_replayed` the same search with
/// the readings of the clock given beforehand.
pub fn search<C, N, T, FC, FL>(
    tree: &mut T,
    leaf_check_fn: FL,
    cost_fn: FC,
    max_ops: usize,
    time_limit: Duration,
) -> (best: Option<(C, N)>) where
    C: Ord + Copy,
    T: Traversal<N>,
    FC: NodeFn<N, Output = Option<C>>,
    FL: NodeFn<N, Output = bool>,

    requires
        old(tree).wf(),
        leaf_check_fn.is_function(),
        cost_fn.is_function(),
        total_order::<C>(),
    ensures
        final(tree).wf(),
        exists|seen: Seq<N>, mid: T, last: Option<N>|
            {
                &&& #[trigger] yields(*old(tree), seen, mid)
                &&& mid.wf()
                &&& #[trigger] mid.pulls(last, final(tree))
                &&& seen.len() <= max_ops
                &&& nanos_of(time_limit) == 0 ==> seen.len() == 0
                &&& best == best_leaf(seen, leaf_check_fn, cost_fn)
            },
        max_ops == 0 ==> best is None,
{
    let watch = Watch::Running(Stopwatch::begin(&time_limit));
    seek(tree, leaf_check_fn, cost_fn, max_ops, watch)
}

/// Searches the tree for its cheapest leaf, within a budget of operations
/// alone.
///
/// Nodes are pulled from `tree` one at a time, and processed until
/// `max_ops` nodes have been processed or the tree is exhausted. Where the
/// budget ends the search, one more node has been pulled and dropped. The
/// result is the cheapest leaf among the processed nodes, and of several
/// that cost the same the one that was processed first.
pub fn search_counted<C, N, T, FC, FL>(
    tree: &mut T,
    leaf_check_fn: FL,
    cost_fn: FC,
    max_ops: usize,
) -> (best: Option<(C, N)>) where
    C: Ord + Copy,
    T: Traversal<N>,
    FC: NodeFn<N, Output = Option<C>>,
    FL: NodeFn<N, Output = bool>,

    requires
        old(tree).wf(),
        leaf_check_fn.is_function(),
        cost_fn.is_function(),
        total_order::<C>(),
    ensures
        final(tree).wf(),
        exists|seen: Seq<N>, mid: T, last: Option<N>|
            {
                &&& #[trigger] yields(*old(tree), seen, mid)
                &&& mid.wf()
                &&& #[trigger] mid.pulls(last, final(tree))
                &&& seen.len() <= max_ops
                &&& last is None || seen.len() == max_ops
                &&& best == best_leaf(seen, leaf_check_fn, cost_fn)
            },
        max_ops == 0 ==> best is None,
{
    seek(tree, leaf_check_fn, cost_fn, max_ops, Watch::Unbounded)
}

/// Searches the tree for its cheapest leaf, within a budget of operations
/// and a budget of time that is read off `spent`.
///
/// This is `search` with the clock replaced by readings that are given
/// beforehand: `spent[i]` is the time in nanoseconds that has gone by when
/// the search is about to process its node `i`. The search stops at the
/// first node whose reading has reached `limit`, or for which there is no
/// reading, unless the budget of operations or the tree ends it before.
pub fn search_replayed<C, N, T, FC, FL>(
    tree: &mut T,
    leaf_check_fn: FL,
    cost_fn: FC,
    max_ops: usize,
    spent: Vec<u128>,
    limit: u128,
) -> (best: Option<(C, N)>) where
    C: Ord + Copy,
    T: Traversal<N>,
    FC: NodeFn<N, Output = Option<C>>,
    FL: NodeFn<N, Output = bool>,

    requires
        old(tree).wf(),
        leaf_check_fn.is_function(),
        cost_fn.is_function(),
        total_order::<C>(),
    ensures
        final(tree).wf(),
        exists|seen: Seq<N>, mid: T, last: Option<N>|
            {
                &&& #[trigger] yields(*old(tree), seen, mid)
                &&& mid.wf()
                &&& #[trigger] mid.pulls(last, final(tree))
                &&& seen.len() <= max_ops
                &&& seen.len() <= spent.len()
                &&& forall|i: int| 0 <= i < seen.len() ==> spent[i] < limit
                &&& {
                    ||| last is None
                    ||| seen.len() == max_ops
                    ||| seen.len() == spent.len()
                    ||| spent[seen.len() as int] >= limit
                }
                &&& best == best_leaf(seen, leaf_check_fn, cost_fn)
            },
        max_ops == 0 ==> best is None,
{
    seek(tree, leaf_check_fn, cost_fn, max_ops, Watch::Replayed { spent, limit })
}

} // verus!
