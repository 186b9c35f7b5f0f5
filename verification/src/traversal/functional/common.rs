//! The frontier, the traversal that it drives, and the budgeted search.

use crate::best::{
    best_leaf, candidate, kept, lemma_retained_len, lemma_retained_one, pairs, retained,
};
use crate::callback::NodeFn;
use crate::clock::{nanos_of, Stopwatch, Watch};
use crate::order::total_order;
use crate::ranked::place;
use crate::traversal::common::{Traversal, yields};
use crate::utils::ScoredItem;
use std::time::Duration;
use vstd::prelude::*;

verus! {

/// The nodes that are known and not yet visited, under one strategy.
///
/// A traversal takes a node with `pop` and at once hands the same node to
/// `expand_and_push`, which admits its successors. The strategy lies in
/// which node `pop` takes and in which successors are admitted where.
pub trait NodeContainer: Sized {
    /// The type of the nodes.
    type Node;

    /// Whether the frontier is fit for use.
    spec fn wf(&self) -> bool;

    /// Whether `pop` may take `next` and leave the frontier as `after`.
    spec fn pops(&self, next: Option<Self::Node>, after: &Self) -> bool;

    /// Whether admitting the successors of `node` may leave the frontier as
    /// `after`.
    spec fn expands(&self, node: &Self::Node, after: &Self) -> bool;

    /// Takes the next node to visit; `None` when there is none.
    fn pop(&mut self) -> (next: Option<Self::Node>)
        requires
            old(self).wf(),
        ensures
            final(self).wf(),
            old(self).pops(next, final(self)),
    ;

    /// Admits the successors of `node`, which `pop` has just taken.
    fn expand_and_push(&mut self, node: &Self::Node)
        requires
            old(self).wf(),
        ensures
            final(self).wf(),
            old(self).expands(node, final(self)),
    ;
}

/// The traversal that a frontier drives.
pub struct Reachable<C> {
    to_see: C,
}

impl<C> Reachable<C> {
    /// The frontier.
    pub closed spec fn frontier(self) -> C {
        self.to_see
    }

    /// The traversal over the given frontier.
    pub fn new(to_see: C) -> (tree: Self)
        ensures
            tree.frontier() == to_see,
    {
        Self { to_see }
    }
}

impl<N, C: NodeContainer<Node = N>> Traversal<N> for Reachable<C> {
    open spec fn wf(&self) -> bool {
        self.frontier().wf()
    }

    open spec fn pulls(&self, next: Option<N>, after: &Self) -> bool {
        exists|mid: C|
            mid.wf() && #[trigger] self.frontier().pops(next, &mid) && match next {
                Some(node) => mid.expands(&node, &after.frontier()),
                None => after.frontier() == mid,
            }
    }

    fn next(&mut self) -> (next: Option<N>) {
        let next = self.to_see.pop();
        let ghost mid = self.to_see;
        match next {
            Some(node) => {
                self.to_see.expand_and_push(&node);
                proof {
                    assert(old(self).frontier().pops(Some(node), &mid));
                }
                Some(node)
            },
            None => None,
        }
    }
}

/// Offers `node` to the retained leaves.
///
/// The node is put in its slot where it is a leaf with a cost, and the last
/// entry leaves where there are then more than `queue_size`.
pub fn offer<C, N, FC, FL>(
    queue: &mut Vec<ScoredItem<C, N>>,
    node: N,
    leaf_check_fn: &FL,
    cost_fn: &FC,
    queue_size: usize,
) where C: Ord + Copy, FC: NodeFn<N, Output = Option<C>>, FL: NodeFn<N, Output = bool>
    requires
        leaf_check_fn.is_function(),
        cost_fn.is_function(),
        total_order::<C>(),
    ensures
        final(queue)@ == match candidate(*leaf_check_fn, *cost_fn, node) {
            Some(item) => kept(old(queue)@, item, queue_size as nat),
            None => old(queue)@,
        },
{
    if leaf_check_fn.eval(&node) {
        match cost_fn.eval(&node) {
            Some(cost) => {
                place(queue, ScoredItem(cost, node));
                if queue.len() > queue_size {
                    queue.pop();
                }
            },
            None => {},
        }
    }
}

/// The entries as pairs of cost and node, in the same order.
fn into_pairs<C: Ord, N>(queue: Vec<ScoredItem<C, N>>) -> (found: Vec<(C, N)>)
    ensures
        found@ == pairs(queue@),
{
    let ghost all = queue@;
    let mut found: Vec<(C, N)> = Vec::new();
    for item in it: queue.into_iter()
        invariant
            it.seq() == all,
            found@ == pairs(all.take(it.index() as int)),
    {
        found.push(item.into_inner());
        proof {
            assert(found@ == pairs(all.take(it.index() + 1)));
        }
    }
    proof {
        assert(all.take(all.len() as int) == all);
    }
    found
}

/// The search behind `traverse`, `traverse_counted` and
/// `traverse_replayed`: `watch` says what bounds it in time.
fn drive<C, N, T, FC, FL>(
    tree: &mut T,
    leaf_check_fn: FL,
    cost_fn: FC,
    max_ops: usize,
    watch: Watch,
    queue_size: usize,
) -> (found: Vec<(C, N)>) where
    C: Ord + Copy,
    T: Traversal<N>,
    FC: NodeFn<N, Output = Option<C>>,
    FL: NodeFn<N, Output = bool>,

    requires
        old(tree).wf(),
        leaf_check_fn.is_function(),
        cost_fn.is_function(),
        total_order::<C>(),
    ensures
        final(tree).wf(),
        exists|seen: Seq<N>, mid: T, last: Option<N>|
            {
                &&& #[trigger] yields(*old(tree), seen, mid)
                &&& mid.wf()
                &&& #[trigger] mid.pulls(last, final(tree))
                &&& seen.len() <= max_ops
                &&& watch.allows(seen.len())
                &&& last is None || seen.len() == max_ops || watch.stops(seen.len())
                &&& found@ == pairs(retained(seen, leaf_check_fn, cost_fn, queue_size as nat))
            },
        max_ops == 0 ==> found.len() == 0,
        found.len() <= queue_size,
{
    let mut queue: Vec<ScoredItem<C, N>> = Vec::new();
    let mut ops: usize = 0;
    let ghost mut seen: Seq<N> = Seq::empty();
    let ghost mut mid: T = *tree;
    let ghost mut last: Option<N> = None;
    loop
        invariant_except_break
            ops == seen.len(),
            yields(*old(tree), seen, *tree),
            tree.wf(),
        invariant
            leaf_check_fn.is_function(),
            cost_fn.is_function(),
            total_order::<C>(),
            ops <= max_ops,
            watch.allows(seen.len()),
            queue@ == retained(seen, leaf_check_fn, cost_fn, queue_size as nat),
        ensures
            tree.wf(),
            yields(*old(tree), seen, mid),
            mid.wf(),
            mid.pulls(last, &*tree),
            seen.len() <= max_ops,
            last is None || seen.len() == max_ops || watch.stops(seen.len()),
        decreases max_ops - ops,
    {
        proof {
            mid = *tree;
        }
        let next = tree.next();
        proof {
            last = next;
        }
        match next {
            None => {
                break ;
            },
            Some(node) => {
                if ops >= max_ops {
                    break ;
                }
                if watch.is_over(ops) {
                    break ;
                }
                offer(&mut queue, node, &leaf_check_fn, &cost_fn, queue_size);
                proof {
                    let ghost grown = seen.push(node);
                    assert(mid.pulls(Some(node), &*tree));
                    assert(grown.drop_last() == seen);
                    assert(grown.last() == node);
                    assert(yields(*old(tree), grown.drop_last(), mid));
                    assert(yields(*old(tree), grown, *tree));
                    seen = grown;
                }
                ops += 1;
            },
        }
    }
    proof {
        lemma_retained_len(seen, leaf_check_fn, cost_fn, queue_size as nat);
    }
    into_pairs(queue)
}

/// Searches the tree for its cheapest leaves, within a budget.
///
/// Nodes are pulled from `tree` one at a time. Before a pulled node is
/// processed the budget is checked: the search stops once `max_ops` nodes
/// have been processed or `time_limit` has gone by, and the node that was
/// pulled last is then dropped. Of the processed nodes, those that are
/// leaves with a cost are retained, the `queue_size` cheapest of them, and
/// returned cheapest first.
///
/// How many nodes are processed depends on the clock. The contract holds
/// whatever their number `seen.len()` is. `traverse_counted` is the same
/// search without the clock, and `traverse_replayed` the same search with
/// the readings of the clock given beforehand.
pub fn traverse<C, N, T, FC, FL>(
    tree: &mut T,
    leaf_check_fn: FL,
    cost_fn: FC,
    max_ops: usize,
    time_limit: Duration,
    queue_size: usize,
) -> (found: Vec<(C, N)>) where
    C: Ord + Copy,
    T: Traversal<N>,
    FC: NodeFn<N, Output = Option<C>>,
    FL: NodeFn<N, Output = bool>,

    requires
        old(tree).wf(),
        leaf_check_fn.is_function(),
        cost_fn.is_function(),
        total_order::<C>(),
    ensures
        final(tree).wf(),
        exists|seen: Seq<N>, mid: T, last: Option<N>|
            {
                &&& #[trigger] yields(*old(tree), seen, mid)
                &&& mid.wf()
                &&& #[trigger] mid.pulls(last, final(tree))
                &&& seen.len() <= max_ops
                &&& nanos_of(time_limit) == 0 ==> seen.len() == 0
                &&& found@ == pairs(retained(seen, leaf_check_fn, cost_fn, queue_size as nat))
            },
        max_ops == 0 ==> found.len() == 0,
        found.len() <= queue_size,
{
    let watch = Watch::Running(Stopwatch::begin(&time_limit));
    drive(tree, leaf_check_fn, cost_fn, max_ops, watch, queue_size)
}

/// Searches the tree for its cheapest leaves, within a budget of
/// operations alone.
///
/// Nodes are pulled from `tree` one at a time, and processed until
/// `max_ops` nodes have been processed or the tree is exhausted. Where the
/// budget ends the search, one more node has been pulled and dropped. Of
/// the processed nodes, those that are leaves with a cost are retained,
/// the `queue_size` cheapest of them, and returned cheapest first.
pub fn traverse_counted<C, N, T, FC, FL>(
    tree: &mut T,
    leaf_check_fn: FL,
    cost_fn: FC,
    max_ops: usize,
    queue_size: usize,
) -> (found: Vec<(C, N)>) where
    C: Ord + Copy,
    T: Traversal<N>,
    FC: NodeFn<N, Output = Option<C>>,
    FL: NodeFn<N, Output = bool>,

    requires
        old(tree).wf(),
        leaf_check_fn.is_function(),
        cost_fn.is_function(),
        total_order::<C>(),
    ensures
        final(tree).wf(),
        exists|seen: Seq<N>, mid: T, last: Option<N>|
            {
                &&& #[trigger] yields(*old(tree), seen, mid)
                &&& mid.wf()
                &&& #[trigger] mid.pulls(last, final(tree))
                &&& seen.len() <= max_ops
                &&& last is None || seen.len() == max_ops
                &&& found@ == pairs(retained(seen, leaf_check_fn, cost_fn, queue_size as nat))
            },
        max_ops == 0 ==> found.len() == 0,
        found.len() <= queue_size,
{
    drive(tree, leaf_check_fn, cost_fn, max_ops, Watch::Unbounded, queue_size)
}

/// Searches the tree for its cheapest leaves, within a budget of
/// operations and a budget of time that is read off `spent`.
///
/// This is `traverse` with the clock replaced by readings that are given
/// beforehand: `spent[i]` is the time in nanoseconds that has gone by when
/// the search is about to process its node `i`. The search stops at the
/// first node whose reading has reached `limit`, or for which there is no
/// reading, unless the budget of operations or the tree ends it before.
pub fn traverse_replayed<C, N, T, FC, FL>(
    tree: &mut T,
    leaf_check_fn: FL,
    cost_fn: FC,
    max_ops: usize,
    spent: Vec<u128>,
    limit: u128,
    queue_size: usize,
) -> (found: Vec<(C, N)>) where
    C: Ord + Copy,
    T: Traversal<N>,
    FC: NodeFn<N, Output = Option<C>>,
    FL: NodeFn<N, Output = bool>,

    requires
        old(tree).wf(),
        leaf_check_fn.is_function(),
        cost_fn.is_function(),
        total_order::<C>(),
    ensures
        final(tree).wf(),
        exists|seen: Seq<N>, mid: T, last: Option<N>|
            {
                &&& #[trigger] yields(*old(tree), seen, mid)
                &&& mid.wf()
                &&& #[trigger] mid.pulls(last, final(tree))
                &&& seen.len() <= max_ops
                &&& seen.len() <= spent.len()
                &&& forall|i: int| 0 <= i < seen.len() ==> spent[i] < limit
                &&& {
                    ||| last is None
                    ||| seen.len() == max_ops
                    ||| seen.len() == spent.len()
                    ||| spent[seen.len() as int] >= limit
                }
                &&& found@ == pairs(retained(seen, leaf_check_fn, cost_fn, queue_size as nat))
            },
        max_ops == 0 ==> found.len() == 0,
        found.len() <= queue_size,
{
    drive(tree, leaf_check_fn, cost_fn, max_ops, Watch::Replayed { spent, limit }, queue_size)
}

/// Searches the tree for its cheapest leaf, within a budget.
///
/// This is `traverse` with room for one leaf: the result is the cheapest
/// leaf among the processed nodes, and of several that cost the same the
/// one that was processed first.
pub fn find_best<C, N, T, FC, FL>(
    tree: &mut T,
    leaf_check_fn: FL,
    cost_fn: FC,
    max_ops: usize,
    time_limit: Duration,
) -> (best: Option<(C, N)>) where
    C: Ord + Copy,
    T: Traversal<N>,
    FC: NodeFn<N, Output = Option<C>>,
    FL: NodeFn<N, Output = bool>,

    requires
        old(tree).wf(),
        leaf_check_fn.is_function(),
        cost_fn.is_function(),
        total_order::<C>(),
    ensures
        final(tree).wf(),
        exists|seen: Seq<N>, mid: T, last: Option<N>|
            {
                &&& #[trigger] yields(*old(tree), seen, mid)
                &&& mid.wf()
                &&& #[trigger] mid.pulls(last, final(tree))
                &&& seen.len() <= max_ops
                &&& nanos_of(time_limit) == 0 ==> seen.len() == 0
                &&& best == best_leaf(seen, leaf_check_fn, cost_fn)
            },
        max_ops == 0 ==> best is None,
{
    let mut found = traverse(tree, leaf_check_fn, cost_fn, max_ops, time_limit, 1);
    proof {
        let (seen, mid, last) = choose|seen: Seq<N>, mid: T, last: Option<N>|
            {
                &&& #[trigger] yields(*old(tree), seen, mid)
                &&& mid.wf()
                &&& #[trigger] mid.pulls(last, &*tree)
                &&& seen.len() <= max_ops
                &&& nanos_of(time_limit) == 0 ==> seen.len() == 0
                &&& found@ == pairs(retained(seen, leaf_check_fn, cost_fn, 1))
            };
        lemma_retained_one(seen, leaf_check_fn, cost_fn);
    }
    found.pop()
}

/// Searches the tree for its cheapest leaf, within a budget of operations
/// alone.
///
/// This is `traverse_counted` with room for one leaf: the result is the
/// cheapest leaf among the processed nodes, and of several that cost the
/// same the one that was processed first.
pub fn find_best_counted<C, N, T, FC, FL>(
    tree: &mut T,
    leaf_check_fn: FL,
    cost_fn: FC,
    max_ops: usize,
) -> (best: Option<(C, N)>) where
    C: Ord + Copy,
    T: Traversal<N>,
    FC: NodeFn<N, Output = Option<C>>,
    FL: NodeFn<N, Output = bool>,

    requires
        old(tree).wf(),
        leaf_check_fn.is_function(),
        cost_fn.is_function(),
        total_order::<C>(),
    ensures
        final(tree).wf(),
        exists|seen: Seq<N>, mid: T, last: Option<N>|
            {
                &&& #[trigger] yields(*old(tree), seen, mid)
                &&& mid.wf()
                &&& #[trigger] mid.pulls(last, final(tree))
                &&& seen.len() <= max_ops
                &&& last is None || seen.len() == max_ops
                &&& best == best_leaf(seen, leaf_check_fn, cost_fn)
            },
        max_ops == 0 ==> best is None,
{
    let mut found = traverse_counted(tree, leaf_check_fn, cost_fn, max_ops, 1);
    proof {
        let (seen, mid, last) = choose|seen: Seq<N>, mid: T, last: Option<N>|
            {
                &&& #[trigger] yields(*old(tree), seen, mid)
                &&& mid.wf()
                &&& #[trigger] mid.pulls(last, &*tree)
                &&& seen.len() <= max_ops
                &&& last is None || seen.len() == max_ops
                &&& found@ == pairs(retained(seen, leaf_check_fn, cost_fn, 1))
            };
        lemma_retained_one(seen, leaf_check_fn, cost_fn);
    }
    found.pop()
}

} // verus!
