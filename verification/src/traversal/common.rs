//! The lazy sequence of visited nodes.

use crate::best::{best_leaf, pairs, retained};
use crate::callback::NodeFn;
use crate::clock::nanos_of;
use crate::model::{after, fused, Machine, visits};
use crate::node::{IsLeaf, LeafCost, TreeNode};
use crate::order::total_order;
use std::time::Duration;
use vstd::prelude::*;

verus! {

/// A single-pass sequence of nodes that is produced on demand.
///
/// Each pull hands out the next node, or nothing once the sequence has
/// ended. What a pull may hand out, and what it leaves behind, is the
/// relation `pulls`.
pub trait Traversal<N>: Sized {
    /// Whether the sequence is fit for use.
    spec fn wf(&self) -> bool;

    /// Whether one pull may hand out `next` and leave the sequence as
    /// `after`.
    spec fn pulls(&self, next: Option<N>, after: &Self) -> bool;

    /// Pulls the next node.
    fn next(&mut self) -> (next: Option<N>)
        requires
            old(self).wf(),
        ensures
            final(self).wf(),
            old(self).pulls(next, final(self)),
    ;
}

/// Whether pulling from `from` may hand out exactly `nodes`, one after
/// another, and leave `to`.
pub open spec fn yields<N, T: Traversal<N>>(from: T, nodes: Seq<N>, to: T) -> bool
    decreases nodes.len(),
{
    if nodes.len() == 0 {
        to == from
    } else {
        exists|mid: T|
            yields(from, nodes.drop_last(), mid) && mid.wf() && #[trigger] mid.pulls(
                Some(nodes.last()),
                &to,
            )
    }
}

/// A sequence whose every pull is the step of a machine hands out what the
/// machine visits.
///
/// `abs` reads the machine's state off the sequence, and `inv` is what
/// every pull keeps.
pub proof fn lemma_follows<N, T: Traversal<N>, St>(
    m: Machine<St, N>,
    abs: spec_fn(T) -> St,
    inv: spec_fn(T) -> bool,
    from: T,
    nodes: Seq<N>,
    to: T,
)
    requires
        forall|a: T, next: Option<N>, b: T|
            inv(a) && a.wf() && #[trigger] a.pulls(next, &b) ==> inv(b) && next == (m.next)(
                abs(a),
            ) && abs(b) == (m.step)(abs(a)),
        inv(from),
        from.wf(),
        yields(from, nodes, to),
    ensures
        inv(to),
        visits(m, abs(from), nodes.len()) == nodes,
        after(m, abs(from), nodes.len()) == abs(to),
    decreases nodes.len(),
{
    if nodes.len() > 0 {
        let mid = choose|mid: T|
            yields(from, nodes.drop_last(), mid) && mid.wf() && #[trigger] mid.pulls(
                Some(nodes.last()),
                &to,
            );
        lemma_follows(m, abs, inv, from, nodes.drop_last(), mid);
        assert(nodes.drop_last().push(nodes.last()) == nodes);
    }
}

/// What a sequence hands out that passes every pull on to a sequence
/// inside it, the sequence inside hands out.
///
/// `inner` reads the sequence inside off the one around it.
pub proof fn lemma_yields_inside<N, W: Traversal<N>, T: Traversal<N>>(
    inner: spec_fn(W) -> T,
    from: W,
    nodes: Seq<N>,
    to: W,
)
    requires
        forall|a: W, next: Option<N>, b: W|
            a.wf() && #[trigger] a.pulls(next, &b) ==> inner(a).wf() && inner(a).pulls(
                next,
                &inner(b),
            ),
        yields(from, nodes, to),
    ensures
        yields(inner(from), nodes, inner(to)),
    decreases nodes.len(),
{
    if nodes.len() > 0 {
        let mid = choose|mid: W|
            yields(from, nodes.drop_last(), mid) && mid.wf() && #[trigger] mid.pulls(
                Some(nodes.last()),
                &to,
            );
        lemma_yields_inside(inner, from, nodes.drop_last(), mid);
        assert(inner(mid).pulls(Some(nodes.last()), &inner(to)));
    }
}

/// A search that stops only where the budget of operations or the tree
/// ends has processed what the machine visits in as many pulls as the
/// budget allows.
///
/// Of a sequence whose every pull is the step of a machine: where `nodes`
/// are handed out one after another, at most `max_ops` of them, and the
/// pull after them hands out nothing unless `nodes` are `max_ops` many,
/// `nodes` are what `max_ops` pulls of the machine hand out.
pub proof fn lemma_counted_is_exact<N, T: Traversal<N>, St>(
    m: Machine<St, N>,
    abs: spec_fn(T) -> St,
    inv: spec_fn(T) -> bool,
    from: T,
    nodes: Seq<N>,
    mid: T,
    last: Option<N>,
    to: T,
    max_ops: nat,
)
    requires
        forall|a: T, next: Option<N>, b: T|
            inv(a) && a.wf() && #[trigger] a.pulls(next, &b) ==> inv(b) && next == (m.next)(
                abs(a),
            ) && abs(b) == (m.step)(abs(a)),
        inv(from),
        from.wf(),
        yields(from, nodes, mid),
        mid.wf(),
        mid.pulls(last, &to),
        nodes.len() <= max_ops,
        last is None || nodes.len() == max_ops,
    ensures
        nodes == visits(m, abs(from), max_ops),
{
    lemma_follows(m, abs, inv, from, nodes, mid);
    if nodes.len() < max_ops {
        crate::model::lemma_visits_end(m, abs(from), nodes.len(), max_ops);
    }
}

/// A traversal that has ended stays ended.
///
/// Of a sequence whose every pull is the step of a fused machine, the pull
/// after one that handed out nothing hands out nothing.
pub proof fn lemma_stays_ended<N, T: Traversal<N>, St>(
    m: Machine<St, N>,
    abs: spec_fn(T) -> St,
    inv: spec_fn(T) -> bool,
    from: T,
    ended: T,
    next: Option<N>,
    to: T,
)
    requires
        forall|a: T, next: Option<N>, b: T|
            inv(a) && a.wf() && #[trigger] a.pulls(next, &b) ==> inv(b) && next == (m.next)(
                abs(a),
            ) && abs(b) == (m.step)(abs(a)),
        fused(m),
        inv(from),
        from.wf(),
        from.pulls(None, &ended),
        ended.wf(),
        ended.pulls(next, &to),
    ensures
        next is None,
{
    assert((m.next)(abs(from)) is None);
}

/// Running a traversal again gives the same nodes again.
///
/// Of a sequence whose every pull is the step of a machine, two runs from
/// the same start that hand out equally many nodes hand out the same
/// nodes, and leave the same state.
pub proof fn lemma_rerun_is_same<N, T: Traversal<N>, St>(
    m: Machine<St, N>,
    abs: spec_fn(T) -> St,
    inv: spec_fn(T) -> bool,
    from: T,
    first: Seq<N>,
    first_end: T,
    second: Seq<N>,
    second_end: T,
)
    requires
        forall|a: T, next: Option<N>, b: T|
            inv(a) && a.wf() && #[trigger] a.pulls(next, &b) ==> inv(b) && next == (m.next)(
                abs(a),
            ) && abs(b) == (m.step)(abs(a)),
        inv(from),
        from.wf(),
        yields(from, first, first_end),
        yields(from, second, second_end),
        first.len() == second.len(),
    ensures
        first == second,
        abs(first_end) == abs(second_end),
{
    lemma_follows(m, abs, inv, from, first, first_end);
    lemma_follows(m, abs, inv, from, second, second_end);
}

/// Searches a tree of `TreeNode`s for its cheapest leaves, within a
/// budget.
///
/// This is the search of `functional::traverse`, with the leaf test and the
/// cost that the nodes carry.
pub fn traverse<N: TreeNode, T: Traversal<N>>(
    traversal: &mut T,
    max_ops: usize,
    time_limit: Duration,
    queue_size: usize,
) -> (found: Vec<(<N as TreeNode>::Cost, N)>)
    requires
        old(traversal).wf(),
        NodeFn::<N>::is_function(&IsLeaf),
        NodeFn::<N>::is_function(&LeafCost),
        total_order::<<N as TreeNode>::Cost>(),
    ensures
        final(traversal).wf(),
        exists|seen: Seq<N>, mid: T, last: Option<N>|
            {
                &&& #[trigger] yields(*old(traversal), seen, mid)
                &&& mid.wf()
                &&& #[trigger] mid.pulls(last, final(traversal))
                &&& seen.len() <= max_ops
                &&& nanos_of(time_limit) == 0 ==> seen.len() == 0
                &&& found@ == pairs(retained(seen, IsLeaf, LeafCost, queue_size as nat))
            },
        max_ops == 0 ==> found.len() == 0,
        found.len() <= queue_size,
{
    super::functional::common::traverse(
        traversal,
        IsLeaf,
        LeafCost,
        max_ops,
        time_limit,
        queue_size,
    )
}

/// Searches a tree of `TreeNode`s for its cheapest leaf, within a budget.
///
/// This is the search of `functional::find_best`, with the leaf test and
/// the cost that the nodes carry.
pub fn find_best<N: TreeNode, T: Traversal<N>>(
    traversal: &mut T,
    max_ops: usize,
    time_limit: Duration,
) -> (best: Option<(<N as TreeNode>::Cost, N)>)
    requires
        old(traversal).wf(),
        NodeFn::<N>::is_function(&IsLeaf),
        NodeFn::<N>::is_function(&LeafCost),
        total_order::<<N as TreeNode>::Cost>(),
    ensures
        final(traversal).wf(),
        exists|seen: Seq<N>, mid: T, last: Option<N>|
            {
                &&& #[trigger] yields(*old(traversal), seen, mid)
                &&& mid.wf()
                &&& #[trigger] mid.pulls(last, final(traversal))
                &&& seen.len() <= max_ops
                &&& nanos_of(time_limit) == 0 ==> seen.len() == 0
                &&& best == best_leaf(seen, IsLeaf, LeafCost)
            },
        max_ops == 0 ==> best is None,
{
    super::functional::common::find_best(traversal, IsLeaf, LeafCost, max_ops, time_limit)
}

} // verus!
