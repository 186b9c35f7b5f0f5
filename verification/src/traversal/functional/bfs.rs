//! Breadth-first search.

use crate::best::best_leaf;
use crate::callback::{NodeFn, Successors};
use crate::clock::nanos_of;
use crate::exhaustive::{exhaustive, lemma_visits_all, step_expands};
use crate::model::{after, fused, lemma_visits_end, Machine, visits};
use crate::order::total_order;
use crate::traversal::common::{lemma_follows, Traversal, yields};
use crate::tree::{closed_by, expands_to, reach};
use std::collections::VecDeque;
use std::time::Duration;
use super::common::{find_best, NodeContainer, Reachable};
use vstd::prelude::*;

verus! {

/// The frontier of a breadth-first traversal: a queue.
pub struct BreadthFirstContainer<N, FN> {
    to_see: VecDeque<N>,
    successor_fn: FN,
}

/// Breadth-first order as a machine over the queue, whose head is its first
/// node: the head is visited, and its successors join at the tail.
pub open spec fn bfs_machine<N, FN: Successors<N>>(successor_fn: FN) -> Machine<Seq<N>, N> {
    Machine {
        next: |queue: Seq<N>|
            if queue.len() == 0 {
                None
            } else {
                Some(queue.first())
            },
        step: |queue: Seq<N>|
            if queue.len() == 0 {
                queue
            } else {
                queue.drop_first() + successor_fn.children(&queue.first())
            },
    }
}

impl<N, FN: Successors<N>> BreadthFirstContainer<N, FN> {
    /// The queue, its head first.
    pub closed spec fn queue(self) -> Seq<N> {
        self.to_see@
    }

    /// The successor function.
    pub closed spec fn successor_fn(self) -> FN {
        self.successor_fn
    }

    /// The frontier that holds `start` alone.
    pub fn new(start: N, successor_fn: FN) -> (frontier: Self)
        ensures
            frontier.queue() == seq![start],
            frontier.successor_fn() == successor_fn,
    {
        let mut to_see = VecDeque::new();
        to_see.push_back(start);
        Self { to_see, successor_fn }
    }
}

impl<N, FN: Successors<N>> NodeContainer for BreadthFirstContainer<N, FN> {
    type Node = N;

    open spec fn wf(&self) -> bool {
        self.successor_fn().is_expansion()
    }

    open spec fn pops(&self, next: Option<N>, after: &Self) -> bool {
        &&& after.successor_fn() == self.successor_fn()
        &&& if self.queue().len() == 0 {
            next is None && after.queue() == self.queue()
        } else {
            next == Some(self.queue().first()) && after.queue() == self.queue().drop_first()
        }
    }

    open spec fn expands(&self, node: &N, after: &Self) -> bool {
        &&& after.successor_fn() == self.successor_fn()
        &&& after.queue() == self.queue() + self.successor_fn().children(node)
    }

    fn pop(&mut self) -> (next: Option<N>) {
        let next = self.to_see.pop_front();
        proof {
            if old(self).to_see@.len() > 0 {
                assert(self.to_see@ == old(self).to_see@.drop_first());
            }
        }
        next
    }

    fn expand_and_push(&mut self, node: &N) {
        let kids = self.successor_fn.successors(node);
        let ghost all = kids@;
        for kid in it: kids.into_iter()
            invariant
                it.seq() == all,
                self.successor_fn == old(self).successor_fn,
                self.to_see@ == old(self).to_see@ + all.take(it.index() as int),
        {
            self.to_see.push_back(kid);
            proof {
                assert(all.take(it.index() + 1) == all.take(it.index() as int).push(kid));
            }
        }
        proof {
            assert(all.take(all.len() as int) == all);
        }
    }
}

/// The breadth-first traversal of the tree under `start`.
pub fn bfs_reach<N, FN>(start: N, successor_fn: FN) -> (tree: Reachable<
    BreadthFirstContainer<N, FN>,
>) where FN: Successors<N>
    ensures
        tree.frontier().queue() == seq![start],
        tree.frontier().successor_fn() == successor_fn,
{
    let container = BreadthFirstContainer::new(start, successor_fn);
    Reachable::new(container)
}

/// Every pull of a breadth-first traversal is a step of `bfs_machine` on
/// its queue.
pub proof fn lemma_bfs_follows<N, FN: Successors<N>>(
    successor_fn: FN,
    from: Reachable<BreadthFirstContainer<N, FN>>,
    nodes: Seq<N>,
    to: Reachable<BreadthFirstContainer<N, FN>>,
)
    requires
        from.wf(),
        from.frontier().successor_fn() == successor_fn,
        yields(from, nodes, to),
    ensures
        to.frontier().successor_fn() == successor_fn,
        visits(bfs_machine(successor_fn), from.frontier().queue(), nodes.len()) == nodes,
        after(bfs_machine(successor_fn), from.frontier().queue(), nodes.len())
            == to.frontier().queue(),
{
    let m = bfs_machine(successor_fn);
    let abs = |t: Reachable<BreadthFirstContainer<N, FN>>| t.frontier().queue();
    let inv = |t: Reachable<BreadthFirstContainer<N, FN>>|
        t.frontier().successor_fn() == successor_fn;
    assert forall|
        a: Reachable<BreadthFirstContainer<N, FN>>,
        next: Option<N>,
        b: Reachable<BreadthFirstContainer<N, FN>>,
    |
        inv(a) && a.wf() && #[trigger] a.pulls(next, &b) implies inv(b) && next == (m.next)(
        abs(a),
    ) && abs(b) == (m.step)(abs(a)) by {
        let queue = a.frontier().queue();
        if queue.len() == 0 {
        } else {
            assert(queue.drop_first() + successor_fn.children(&queue.first()) == (m.step)(queue));
        }
    }
    lemma_follows(m, abs, inv, from, nodes, to);
}

/// A breadth-first traversal that has ended stays ended.
pub proof fn lemma_bfs_fused<N, FN: Successors<N>>(successor_fn: FN)
    ensures
        fused(bfs_machine(successor_fn)),
{
}

/// Breadth-first order leaves no node out: every pull visits the head of
/// the queue and puts its successors in the queue instead.
pub proof fn lemma_bfs_exhaustive<N, FN: Successors<N>>(
    successor_fn: FN,
    queue: Seq<N>,
    depth: nat,
)
    ensures
        exhaustive(bfs_machine(successor_fn), successor_fn, |st: Seq<N>| st, queue, depth),
{
    let m = bfs_machine(successor_fn);
    let pending = |st: Seq<N>| st;
    assert forall|a: Seq<N>| #[trigger] step_expands(m, successor_fn, pending, a) by {
        if a.len() > 0 {
            let kids = successor_fn.children(&a.first());
            vstd::seq_lib::lemma_multiset_commutative(a.drop_first(), kids);
            vstd::seq_lib::to_multiset_remove(a, 0);
            assert(a.remove(0) == a.drop_first());
            assert(a[0] == a.first());
            vstd::seq_lib::to_multiset_contains(a, a.first());
            assert(a.drop_first().to_multiset().insert(a.first()) =~= a.to_multiset());
            assert((a.drop_first() + kids).to_multiset().insert(a.first())
                =~= a.to_multiset().add(kids.to_multiset()));
            assert(expands_to(successor_fn, a, a.first(), a.drop_first() + kids));
        }
    }
}

/// On a finite tree a breadth-first traversal visits every node once.
///
/// Where the tree under `start` ends within `depth` levels, pulls that are
/// at least as many as the tree has nodes hand out just the nodes of the
/// tree, each as often as it is generated.
pub proof fn lemma_bfs_visits_all<N, FN: Successors<N>>(
    successor_fn: FN,
    start: N,
    depth: nat,
    k: nat,
)
    requires
        closed_by(successor_fn, seq![start], depth),
        k >= reach(successor_fn, seq![start], depth).len(),
    ensures
        visits(bfs_machine(successor_fn), seq![start], k).to_multiset() == reach(
            successor_fn,
            seq![start],
            depth,
        ),
        visits(bfs_machine(successor_fn), seq![start], k).len() == reach(
            successor_fn,
            seq![start],
            depth,
        ).len(),
{
    let m = bfs_machine(successor_fn);
    let pending = |st: Seq<N>| st;
    let size = reach(successor_fn, seq![start], depth).len();
    lemma_bfs_exhaustive(successor_fn, seq![start], depth);
    lemma_visits_all(m, successor_fn, pending, seq![start], depth);
    lemma_visits_end(m, seq![start], size, k);
}

/// Finds the cheapest leaf by breadth-first search, within a budget.
///
/// The nodes are visited level by level from `start`, and the result is the
/// cheapest leaf among the first `k` of them, the first such leaf where
/// several cost the same. The search processes at most `max_ops` nodes, and
/// none where `time_limit` is zero; beyond that `k` depends on the clock.
pub fn bfs<N, FN, FC, C, FR>(
    start: N,
    successor_fn: FN,
    leaf_check_fn: FR,
    cost_fn: FC,
    max_ops: usize,
    time_limit: Duration,
) -> (best: Option<(C, N)>) where
    C: Ord + Copy,
    FN: Successors<N>,
    FR: NodeFn<N, Output = bool>,
    FC: NodeFn<N, Output = Option<C>>,

    requires
        successor_fn.is_expansion(),
        leaf_check_fn.is_function(),
        cost_fn.is_function(),
        total_order::<C>(),
    ensures
        exists|k: nat|
            {
                &&& k <= max_ops
                &&& nanos_of(time_limit) == 0 ==> k == 0
                &&& best == best_leaf(
                    #[trigger] visits(bfs_machine(successor_fn), seq![start], k),
                    leaf_check_fn,
                    cost_fn,
                )
            },
        max_ops == 0 ==> best is None,
{
    let mut tree = bfs_reach(start, successor_fn);
    let ghost from = tree;
    let best = find_best(&mut tree, leaf_check_fn, cost_fn, max_ops, time_limit);
    proof {
        let (seen, mid, last) = choose|
            seen: Seq<N>,
            mid: Reachable<BreadthFirstContainer<N, FN>>,
            last: Option<N>,
        |
            {
                &&& #[trigger] yields(from, seen, mid)
                &&& mid.wf()
                &&& #[trigger] mid.pulls(last, &tree)
                &&& seen.len() <= max_ops
                &&& nanos_of(time_limit) == 0 ==> seen.len() == 0
                &&& best == best_leaf(seen, leaf_check_fn, cost_fn)
            };
        lemma_bfs_follows(successor_fn, from, seen, mid);
        assert(visits(bfs_machine(successor_fn), seq![start], seen.len()) == seen);
    }
    best
}

} // verus!
