//! Priority-first search.

use crate::best::best_leaf;
use crate::callback::{NodeFn, Successors};
use crate::clock::nanos_of;
use crate::exhaustive::{exhaustive, lemma_visits_all, step_expands};
use crate::model::{after, fused, lemma_visits_end, Machine, visits};
use crate::order::{le, lemma_trichotomy, total_order};
use crate::ranked::{
    admitted, ascending, items, lemma_admitted_ascending, lemma_admitted_items, place_scored,
};
use crate::traversal::common::{lemma_follows, Traversal, yields};
use crate::tree::{closed_by, expands_to, reach};
use crate::utils::ScoredItem;
use std::time::Duration;
use super::common::{find_best, NodeContainer, Reachable};
use vstd::prelude::*;

verus! {

/// The frontier of a priority-first traversal: the nodes with their
/// priorities, in ascending order of priority.
pub struct PriorityFirstContainer<N, FN, FP, P: Ord> {
    to_see: Vec<ScoredItem<P, N>>,
    successor_fn: FN,
    priority_fn: FP,
}

/// The callbacks of a priority-first traversal.
pub struct Prioritized<FN, FP> {
    /// The successors of a node.
    pub successor_fn: FN,
    /// The priority of a node; higher goes first.
    pub priority_fn: FP,
}

/// Priority-first order as a machine over the queue, which ascends in
/// priority: its last node is visited, and each successor that has a
/// priority is put in its slot. Of nodes of equal priority the one that
/// came last goes first.
pub open spec fn pfs_machine<P, N, FN, FP>(fns: Prioritized<FN, FP>) -> Machine<
    Seq<ScoredItem<P, N>>,
    N,
> where P: Ord, FN: Successors<N>, FP: NodeFn<N, Output = Option<P>> {
    Machine {
        next: |queue: Seq<ScoredItem<P, N>>|
            if queue.len() == 0 {
                None
            } else {
                Some(queue.last().1)
            },
        step: |queue: Seq<ScoredItem<P, N>>|
            if queue.len() == 0 {
                queue
            } else {
                admitted(
                    queue.drop_last(),
                    fns.successor_fn.children(&queue.last().1),
                    fns.priority_fn,
                )
            },
    }
}

/// The queue that a priority-first traversal starts with: `start`, where
/// it has a priority.
pub open spec fn pfs_start<P: Ord, N, FP: NodeFn<N, Output = Option<P>>>(
    start: N,
    priority_fn: FP,
) -> Seq<ScoredItem<P, N>> {
    match priority_fn.value(&start) {
        Some(priority) => seq![ScoredItem(priority, start)],
        None => Seq::empty(),
    }
}

impl<N, FN, FP, P> PriorityFirstContainer<N, FN, FP, P> where
    P: Ord + Copy,
    FN: Successors<N>,
    FP: NodeFn<N, Output = Option<P>>,
 {
    /// The queue, in ascending order of priority.
    pub closed spec fn queue(self) -> Seq<ScoredItem<P, N>> {
        self.to_see@
    }

    /// The callbacks.
    pub closed spec fn fns(self) -> Prioritized<FN, FP> {
        Prioritized { successor_fn: self.successor_fn, priority_fn: self.priority_fn }
    }

    /// The frontier that holds `start` alone, or nothing where `start` has
    /// no priority.
    pub fn new(start: N, successor_fn: FN, priority_fn: FP) -> (frontier: Self)
        requires
            priority_fn.is_function(),
        ensures
            frontier.queue() == pfs_start(start, priority_fn),
            frontier.fns() == (Prioritized { successor_fn, priority_fn }),
            ascending(frontier.queue()),
    {
        let mut to_see = Vec::new();
        match priority_fn.eval(&start) {
            Some(priority) => {
                to_see.push(ScoredItem(priority, start));
            },
            None => {},
        }
        Self { to_see, successor_fn, priority_fn }
    }
}

impl<N, FN, FP, P> NodeContainer for PriorityFirstContainer<N, FN, FP, P> where
    P: Ord + Copy,
    FN: Successors<N>,
    FP: NodeFn<N, Output = Option<P>>,
 {
    type Node = N;

    open spec fn wf(&self) -> bool {
        &&& total_order::<P>()
        &&& self.fns().successor_fn.is_expansion()
        &&& self.fns().priority_fn.is_function()
        &&& ascending(self.queue())
    }

    open spec fn pops(&self, next: Option<N>, after: &Self) -> bool {
        &&& after.fns() == self.fns()
        &&& if self.queue().len() == 0 {
            next is None && after.queue() == self.queue()
        } else {
            next == Some(self.queue().last().1) && after.queue() == self.queue().drop_last()
        }
    }

    open spec fn expands(&self, node: &N, after: &Self) -> bool {
        &&& after.fns() == self.fns()
        &&& after.queue() == admitted(
            self.queue(),
            self.fns().successor_fn.children(node),
            self.fns().priority_fn,
        )
    }

    fn pop(&mut self) -> (next: Option<N>) {
        let next = match self.to_see.pop() {
            Some(scored) => Some(scored.into_item()),
            None => None,
        };
        proof {
            let was = old(self).queue();
            assert forall|i: int, j: int| 0 <= i < j < self.queue().len() implies le(
                self.queue()[i].0,
                self.queue()[j].0,
            ) by {
                assert(self.queue()[i] == was[i] && self.queue()[j] == was[j]);
            }
        }
        next
    }

    fn expand_and_push(&mut self, node: &N) {
        let kids = self.successor_fn.successors(node);
        proof {
            lemma_admitted_ascending(self.queue(), kids@, self.priority_fn);
        }
        place_scored(&mut self.to_see, kids, &self.priority_fn);
    }
}

/// The priority-first traversal of the tree under `start`.
pub fn pfs_reach<N, FN, FP, P>(start: N, successor_fn: FN, priority_fn: FP) -> (tree: Reachable<
    PriorityFirstContainer<N, FN, FP, P>,
>) where P: Ord + Copy, FN: Successors<N>, FP: NodeFn<N, Output = Option<P>>
    requires
        priority_fn.is_function(),
    ensures
        tree.frontier().queue() == pfs_start(start, priority_fn),
        tree.frontier().fns() == (Prioritized { successor_fn, priority_fn }),
        ascending(tree.frontier().queue()),
{
    let container = PriorityFirstContainer::new(start, successor_fn, priority_fn);
    Reachable::new(container)
}

/// Every pull of a priority-first traversal is a step of `pfs_machine` on
/// its queue.
pub proof fn lemma_pfs_follows<P, N, FN, FP>(
    fns: Prioritized<FN, FP>,
    from: Reachable<PriorityFirstContainer<N, FN, FP, P>>,
    nodes: Seq<N>,
    to: Reachable<PriorityFirstContainer<N, FN, FP, P>>,
) where P: Ord + Copy, FN: Successors<N>, FP: NodeFn<N, Output = Option<P>>
    requires
        from.wf(),
        from.frontier().fns() == fns,
        yields(from, nodes, to),
    ensures
        to.frontier().fns() == fns,
        visits(pfs_machine(fns), from.frontier().queue(), nodes.len()) == nodes,
        after(pfs_machine(fns), from.frontier().queue(), nodes.len()) == to.frontier().queue(),
{
    let m = pfs_machine::<P, N, FN, FP>(fns);
    let abs = |t: Reachable<PriorityFirstContainer<N, FN, FP, P>>| t.frontier().queue();
    let inv = |t: Reachable<PriorityFirstContainer<N, FN, FP, P>>| t.frontier().fns() == fns;
    assert forall|
        a: Reachable<PriorityFirstContainer<N, FN, FP, P>>,
        next: Option<N>,
        b: Reachable<PriorityFirstContainer<N, FN, FP, P>>,
    |
        inv(a) && a.wf() && #[trigger] a.pulls(next, &b) implies inv(b) && next == (m.next)(
        abs(a),
    ) && abs(b) == (m.step)(abs(a)) by {}
    lemma_follows(m, abs, inv, from, nodes, to);
}

/// The node that a priority-first frontier hands out has the highest
/// priority of all that it holds.
pub proof fn lemma_pfs_highest_first<N, FN, FP, P>(
    frontier: PriorityFirstContainer<N, FN, FP, P>,
    i: int,
) where P: Ord + Copy, FN: Successors<N>, FP: NodeFn<N, Output = Option<P>>
    requires
        frontier.wf(),
        0 <= i < frontier.queue().len(),
    ensures
        le(frontier.queue()[i].0, frontier.queue().last().0),
{
    lemma_trichotomy(frontier.queue().last().0, frontier.queue().last().0);
}

/// A priority-first traversal that has ended stays ended.
pub proof fn lemma_pfs_fused<P, N, FN, FP>(fns: Prioritized<FN, FP>) where
    P: Ord,
    FN: Successors<N>,
    FP: NodeFn<N, Output = Option<P>>,

    ensures
        fused(pfs_machine(fns)),
{
}

/// Where every node has a priority, priority-first order leaves no node
/// out: every pull visits the last node of the queue and puts its
/// successors in the queue instead.
pub proof fn lemma_pfs_exhaustive<P, N, FN, FP>(
    fns: Prioritized<FN, FP>,
    queue: Seq<ScoredItem<P, N>>,
    depth: nat,
) where P: Ord, FN: Successors<N>, FP: NodeFn<N, Output = Option<P>>
    requires
        forall|n: N| fns.priority_fn.value(&n) is Some,
    ensures
        exhaustive(
            pfs_machine(fns),
            fns.successor_fn,
            |st: Seq<ScoredItem<P, N>>| items(st),
            queue,
            depth,
        ),
{
    let m = pfs_machine(fns);
    let pending = |st: Seq<ScoredItem<P, N>>| items(st);
    assert forall|a: Seq<ScoredItem<P, N>>| #[trigger]
        step_expands(m, fns.successor_fn, pending, a) by {
        if a.len() > 0 {
            let node = a.last().1;
            let kids = fns.successor_fn.children(&node);
            let rest = a.drop_last();
            lemma_admitted_items(rest, kids, fns.priority_fn);
            vstd::seq_lib::to_multiset_build(items(rest), node);
            assert(items(rest).push(node) =~= items(a));
            assert(items(a)[a.len() - 1] == node);
            assert(items(admitted(rest, kids, fns.priority_fn)).to_multiset().insert(node)
                =~= items(a).to_multiset().add(kids.to_multiset()));
            assert(expands_to(
                fns.successor_fn,
                items(a),
                node,
                items(admitted(rest, kids, fns.priority_fn)),
            ));
        }
    }
}

/// On a finite tree whose every node has a priority, a priority-first
/// traversal visits every node once.
///
/// Where the tree under `start` ends within `depth` levels, pulls that are
/// at least as many as the tree has nodes hand out just the nodes of the
/// tree, each as often as it is generated.
pub proof fn lemma_pfs_visits_all<P, N, FN, FP>(
    fns: Prioritized<FN, FP>,
    start: N,
    depth: nat,
    k: nat,
) where P: Ord, FN: Successors<N>, FP: NodeFn<N, Output = Option<P>>
    requires
        forall|n: N| fns.priority_fn.value(&n) is Some,
        closed_by(fns.successor_fn, seq![start], depth),
        k >= reach(fns.successor_fn, seq![start], depth).len(),
    ensures
        visits(pfs_machine(fns), pfs_start(start, fns.priority_fn), k).to_multiset() == reach(
            fns.successor_fn,
            seq![start],
            depth,
        ),
        visits(pfs_machine(fns), pfs_start(start, fns.priority_fn), k).len() == reach(
            fns.successor_fn,
            seq![start],
            depth,
        ).len(),
{
    let m = pfs_machine(fns);
    let pending = |st: Seq<ScoredItem<P, N>>| items(st);
    let st = pfs_start(start, fns.priority_fn);
    assert(items(st) =~= seq![start]);
    let size = reach(fns.successor_fn, seq![start], depth).len();
    lemma_pfs_exhaustive(fns, st, depth);
    lemma_visits_all(m, fns.successor_fn, pending, st, depth);
    lemma_visits_end(m, st, size, k);
}

/// Finds the cheapest leaf by priority-first search, within a budget.
///
/// Of the nodes that are known and not yet visited, the one of highest
/// priority is visited next; nodes without a priority are never visited.
/// The result is the cheapest leaf among the first `k` visited nodes, the
/// first such leaf where several cost the same. The search processes at
/// most `max_ops` nodes, and none where `time_limit` is zero; beyond that
/// `k` depends on the clock.
pub fn pfs<N, FN, FC, FP, C, P, FR>(
    start: N,
    successor_fn: FN,
    leaf_check_fn: FR,
    cost_fn: FC,
    priority_fn: FP,
    max_ops: usize,
    time_limit: Duration,
) -> (best: Option<(C, N)>) where
    C: Ord + Copy,
    P: Ord + Copy,
    FN: Successors<N>,
    FC: NodeFn<N, Output = Option<C>>,
    FP: NodeFn<N, Output = Option<P>>,
    FR: NodeFn<N, Output = bool>,

    requires
        successor_fn.is_expansion(),
        leaf_check_fn.is_function(),
        cost_fn.is_function(),
        priority_fn.is_function(),
        total_order::<C>(),
        total_order::<P>(),
    ensures
        exists|k: nat|
            {
                &&& k <= max_ops
                &&& nanos_of(time_limit) == 0 ==> k == 0
                &&& best == best_leaf(
                    #[trigger] visits(
                        pfs_machine(Prioritized { successor_fn, priority_fn }),
                        pfs_start(start, priority_fn),
                        k,
                    ),
                    leaf_check_fn,
                    cost_fn,
                )
            },
        max_ops == 0 ==> best is None,
{
    let mut tree = pfs_reach(start, successor_fn, priority_fn);
    let ghost from = tree;
    let ghost fns = Prioritized { successor_fn, priority_fn };
    let best = find_best(&mut tree, leaf_check_fn, cost_fn, max_ops, time_limit);
    proof {
        let (seen, mid, last) = choose|
            seen: Seq<N>,
            mid: Reachable<PriorityFirstContainer<N, FN, FP, P>>,
            last: Option<N>,
        |
            {
                &&& #[trigger] yields(from, seen, mid)
                &&& mid.wf()
                &&& #[trigger] mid.pulls(last, &tree)
                &&& seen.len() <= max_ops
                &&& nanos_of(time_limit) == 0 ==> seen.len() == 0
                &&& best == best_leaf(seen, leaf_check_fn, cost_fn)
            };
        lemma_pfs_follows(fns, from, seen, mid);
        assert(visits(pfs_machine(fns), pfs_start(start, priority_fn), seen.len()) == seen);
    }
    best
}

} // verus!
