//! Greedy search.

use crate::best::{best_leaf, candidate, lemma_best_leaf_minimal};
use crate::callback::{Every, NodeFn, Successors};
use crate::clock::nanos_of;
use crate::model::{after, fused, lemma_visits_index, lemma_visits_unfold, Machine, visits};
use crate::order::{le, lemma_trichotomy, less, lt, total_order};
use crate::utils::ScoredItem;
use crate::traversal::common::{lemma_follows, Traversal, yields};
use std::time::Duration;
use super::common::{find_best, NodeContainer, Reachable};
use vstd::prelude::*;

verus! {

/// The frontier of a greedy traversal: the one node to visit next, if any.
pub struct GreedyContainer<N, FN, FC> {
    next_node: Option<N>,
    successor_fn: FN,
    eval_fn: FC,
}

/// The callbacks of a greedy traversal.
pub struct Greedy<FN, FC> {
    /// The successors of a node.
    pub successor_fn: FN,
    /// The score of a node; lower is better.
    pub eval_fn: FC,
}

/// The node of lowest score among `nodes`, with its score; of nodes of
/// equal score the first. Nodes without a score are passed over.
pub open spec fn best_scored<C: Ord, N, FC: NodeFn<N, Output = Option<C>>>(
    nodes: Seq<N>,
    eval_fn: FC,
) -> Option<(C, N)>
    decreases nodes.len(),
{
    if nodes.len() == 0 {
        None
    } else {
        let before = best_scored(nodes.drop_last(), eval_fn);
        match eval_fn.value(&nodes.last()) {
            Some(score) => match before {
                Some(best) => if lt(score, best.0) {
                    Some((score, nodes.last()))
                } else {
                    before
                },
                None => Some((score, nodes.last())),
            },
            None => before,
        }
    }
}

/// The successor of `node` that a greedy traversal goes on with.
pub open spec fn greedy_choice<C, N, FN, FC>(fns: Greedy<FN, FC>, node: N) -> Option<N> where
    C: Ord,
    FN: Successors<N>,
    FC: NodeFn<N, Output = Option<C>>,
 {
    match best_scored(fns.successor_fn.children(&node), fns.eval_fn) {
        Some(best) => Some(best.1),
        None => None,
    }
}

/// Greedy order as a machine over the slot: the node in the slot is
/// visited, and its best-scoring successor takes its place.
pub open spec fn gds_machine<C, N, FN, FC>(fns: Greedy<FN, FC>) -> Machine<Option<N>, N> where
    C: Ord,
    FN: Successors<N>,
    FC: NodeFn<N, Output = Option<C>>,
 {
    Machine {
        next: |slot: Option<N>| slot,
        step: |slot: Option<N>|
            match slot {
                Some(node) => greedy_choice(fns, node),
                None => None,
            },
    }
}

impl<C, N, FN, FC> GreedyContainer<N, FN, FC> where
    C: Ord + Copy,
    FN: Successors<N>,
    FC: NodeFn<N, Output = Option<C>>,
 {
    /// The node to visit next.
    pub closed spec fn slot(self) -> Option<N> {
        self.next_node
    }

    /// The callbacks.
    pub closed spec fn fns(self) -> Greedy<FN, FC> {
        Greedy { successor_fn: self.successor_fn, eval_fn: self.eval_fn }
    }

    /// The frontier that holds `start`.
    pub fn new(start: N, successor_fn: FN, eval_fn: FC) -> (frontier: Self)
        ensures
            frontier.slot() == Some(start),
            frontier.fns() == (Greedy { successor_fn, eval_fn }),
    {
        Self { next_node: Some(start), successor_fn, eval_fn }
    }
}

impl<C, N, FN, FC> NodeContainer for GreedyContainer<N, FN, FC> where
    C: Ord + Copy,
    FN: Successors<N>,
    FC: NodeFn<N, Output = Option<C>>,
 {
    type Node = N;

    open spec fn wf(&self) -> bool {
        &&& total_order::<C>()
        &&& self.fns().successor_fn.is_expansion()
        &&& self.fns().eval_fn.is_function()
    }

    open spec fn pops(&self, next: Option<N>, after: &Self) -> bool {
        &&& after.fns() == self.fns()
        &&& next == self.slot()
        &&& after.slot() is None
    }

    open spec fn expands(&self, node: &N, after: &Self) -> bool {
        &&& after.fns() == self.fns()
        &&& after.slot() == greedy_choice(self.fns(), *node)
    }

    fn pop(&mut self) -> (next: Option<N>) {
        self.next_node.take()
    }

    fn expand_and_push(&mut self, node: &N) {
        let kids = self.successor_fn.successors(node);
        let ghost all = kids@;
        let mut best: Option<(C, N)> = None;
        for kid in it: kids.into_iter()
            invariant
                total_order::<C>(),
                self.eval_fn.is_function(),
                *self == *old(self),
                it.seq() == all,
                best == best_scored(all.take(it.index() as int), self.eval_fn),
        {
            proof {
                assert(all.take(it.index() + 1).drop_last() == all.take(it.index() as int));
            }
            match self.eval_fn.eval(&kid) {
                Some(score) => {
                    let better = match &best {
                        Some(b) => less(&score, &b.0),
                        None => true,
                    };
                    if better {
                        best = Some((score, kid));
                    }
                },
                None => {},
            }
        }
        proof {
            assert(all.take(all.len() as int) == all);
        }
        self.next_node =
        match best {
            Some(b) => Some(b.1),
            None => None,
        };
    }
}

/// The greedy traversal of the tree under `start`.
pub fn gds_reach<N, FN, FC, C>(start: N, successor_fn: FN, eval_fn: FC) -> (tree: Reachable<
    GreedyContainer<N, FN, FC>,
>) where C: Ord + Copy, FN: Successors<N>, FC: NodeFn<N, Output = Option<C>>
    ensures
        tree.frontier().slot() == Some(start),
        tree.frontier().fns() == (Greedy { successor_fn, eval_fn }),
{
    let container = GreedyContainer::new(start, successor_fn, eval_fn);
    Reachable::new(container)
}

/// Every pull of a greedy traversal is a step of `gds_machine` on its slot.
pub proof fn lemma_gds_follows<C, N, FN, FC>(
    fns: Greedy<FN, FC>,
    from: Reachable<GreedyContainer<N, FN, FC>>,
    nodes: Seq<N>,
    to: Reachable<GreedyContainer<N, FN, FC>>,
) where C: Ord + Copy, FN: Successors<N>, FC: NodeFn<N, Output = Option<C>>
    requires
        from.wf(),
        from.frontier().fns() == fns,
        yields(from, nodes, to),
    ensures
        to.frontier().fns() == fns,
        visits(gds_machine(fns), from.frontier().slot(), nodes.len()) == nodes,
        after(gds_machine(fns), from.frontier().slot(), nodes.len()) == to.frontier().slot(),
{
    let m = gds_machine::<C, N, FN, FC>(fns);
    let abs = |t: Reachable<GreedyContainer<N, FN, FC>>| t.frontier().slot();
    let inv = |t: Reachable<GreedyContainer<N, FN, FC>>| t.frontier().fns() == fns;
    assert forall|
        a: Reachable<GreedyContainer<N, FN, FC>>,
        next: Option<N>,
        b: Reachable<GreedyContainer<N, FN, FC>>,
    |
        inv(a) && a.wf() && #[trigger] a.pulls(next, &b) implies inv(b) && next == (m.next)(
        abs(a),
    ) && abs(b) == (m.step)(abs(a)) by {}
    lemma_follows(m, abs, inv, from, nodes, to);
}

/// A greedy traversal that has ended stays ended.
pub proof fn lemma_gds_fused<C, N, FN, FC>(fns: Greedy<FN, FC>) where
    C: Ord,
    FN: Successors<N>,
    FC: NodeFn<N, Output = Option<C>>,

    ensures
        fused(gds_machine(fns)),
{
}

/// The best-scoring node is one of the nodes, and has the score that it
/// is listed with. There is none only where no node has a score.
pub proof fn lemma_best_scored_member<C: Ord, N, FC: NodeFn<N, Output = Option<C>>>(
    nodes: Seq<N>,
    eval_fn: FC,
)
    ensures
        match best_scored(nodes, eval_fn) {
            Some(best) => nodes.contains(best.1) && eval_fn.value(&best.1) == Some(best.0),
            None => forall|i: int|
                0 <= i < nodes.len() ==> eval_fn.value(&#[trigger] nodes[i]) is None,
        },
    decreases nodes.len(),
{
    if nodes.len() > 0 {
        let front = nodes.drop_last();
        lemma_best_scored_member(front, eval_fn);
        assert(nodes[nodes.len() - 1] == nodes.last());
        match best_scored(front, eval_fn) {
            Some(best) => {
                let i = choose|i: int| 0 <= i < front.len() && front[i] == best.1;
                assert(nodes[i] == best.1);
            },
            None => {
                assert forall|i: int| 0 <= i < nodes.len() && best_scored(
                    nodes,
                    eval_fn,
                ) is None implies eval_fn.value(&#[trigger] nodes[i]) is None by {
                    if i < front.len() {
                        assert(front[i] == nodes[i]);
                    }
                }
            },
        }
    }
}

/// The best-scoring node is the best leaf, were every node a leaf and its
/// score its cost.
pub proof fn lemma_best_scored_is_best_leaf<C: Ord, N, FC: NodeFn<N, Output = Option<C>>>(
    nodes: Seq<N>,
    eval_fn: FC,
)
    ensures
        best_scored(nodes, eval_fn) == best_leaf(nodes, Every, eval_fn),
    decreases nodes.len(),
{
    if nodes.len() > 0 {
        lemma_best_scored_is_best_leaf(nodes.drop_last(), eval_fn);
    }
}

/// No node scores lower than the best-scoring node.
pub proof fn lemma_best_scored_lowest<C: Ord, N, FC: NodeFn<N, Output = Option<C>>>(
    nodes: Seq<N>,
    eval_fn: FC,
    i: int,
)
    requires
        total_order::<C>(),
        0 <= i < nodes.len(),
    ensures
        match (best_scored(nodes, eval_fn), eval_fn.value(&nodes[i])) {
            (Some(best), Some(score)) => le(best.0, score),
            (None, Some(_)) => false,
            _ => true,
        },
{
    lemma_best_scored_is_best_leaf(nodes, eval_fn);
    lemma_best_leaf_minimal(nodes, Every, eval_fn);
    match (best_scored(nodes, eval_fn), eval_fn.value(&nodes[i])) {
        (Some(best), Some(score)) => {
            assert(candidate(Every, eval_fn, nodes[i]) == Some(ScoredItem(score, nodes[i])));
            lemma_trichotomy(best.0, score);
        },
        (None, Some(score)) => {
            assert(candidate(Every, eval_fn, nodes[i]) == Some(ScoredItem(score, nodes[i])));
        },
        _ => {},
    }
}

/// A greedy traversal never turns back: each visited node is a successor
/// of the node visited just before it.
pub proof fn lemma_gds_one_path<C, N, FN, FC>(fns: Greedy<FN, FC>, start: N, k: nat, i: nat) where
    C: Ord,
    FN: Successors<N>,
    FC: NodeFn<N, Output = Option<C>>,

    requires
        i + 1 < visits(gds_machine(fns), Some(start), k).len(),
    ensures
        fns.successor_fn.children(&visits(gds_machine(fns), Some(start), k)[i as int]).contains(
            visits(gds_machine(fns), Some(start), k)[i as int + 1],
        ),
{
    let m = gds_machine(fns);
    let path = visits(m, Some(start), k);
    lemma_visits_index(m, Some(start), k, i);
    lemma_visits_index(m, Some(start), k, i + 1);
    let here = after(m, Some(start), i);
    assert(after(m, Some(start), i + 1) == (m.step)(here));
    lemma_best_scored_member(fns.successor_fn.children(&path[i as int]), fns.eval_fn);
}

/// Whether the tree under `node` has the same depth everywhere: every
/// path from `node` ends after `depth` steps, and every node before the
/// end has a successor with a score.
pub open spec fn uniform<C, N, FN, FC>(fns: Greedy<FN, FC>, node: N, depth: nat) -> bool where
    C: Ord,
    FN: Successors<N>,
    FC: NodeFn<N, Output = Option<C>>,

    decreases depth,
{
    let kids = fns.successor_fn.children(&node);
    if depth == 0 {
        kids.len() == 0
    } else {
        &&& exists|i: int| 0 <= i < kids.len() && fns.eval_fn.value(&#[trigger] kids[i]) is Some
        &&& forall|i: int|
            0 <= i < kids.len() ==> uniform(fns, #[trigger] kids[i], (depth - 1) as nat)
    }
}

/// In a tree of uniform depth a greedy traversal visits one node of each
/// level: `depth + 1` nodes, where it is given as many pulls.
pub proof fn lemma_gds_path_length<C, N, FN, FC>(
    fns: Greedy<FN, FC>,
    start: N,
    depth: nat,
    k: nat,
) where C: Ord, FN: Successors<N>, FC: NodeFn<N, Output = Option<C>>
    requires
        uniform(fns, start, depth),
    ensures
        visits(gds_machine(fns), Some(start), k).len() == if k <= depth {
            k
        } else {
            depth + 1
        },
    decreases k,
{
    let m = gds_machine(fns);
    if k > 0 {
        let j = (k - 1) as nat;
        lemma_visits_unfold(m, Some(start), j);
        let kids = fns.successor_fn.children(&start);
        lemma_best_scored_member(kids, fns.eval_fn);
        match greedy_choice(fns, start) {
            Some(next) => {
                let i = choose|i: int| 0 <= i < kids.len() && kids[i] == next;
                assert(depth > 0);
                assert(uniform(fns, kids[i], (depth - 1) as nat));
                lemma_gds_path_length(fns, next, (depth - 1) as nat, j);
            },
            None => {
                assert(depth == 0);
                if j > 0 {
                    lemma_visits_unfold(m, None::<N>, (j - 1) as nat);
                } else {
                    assert(visits(m, None::<N>, 0) == Seq::<N>::empty());
                }
            },
        }
    }
}

/// Finds a cheap leaf by greedy search, within a budget.
///
/// From `start` the search goes down one path: from each node to its
/// successor of lowest score, the first such where several score the same.
/// The result is the cheapest leaf among the first `k` nodes of that path,
/// the first such leaf where several cost the same. The search processes
/// at most `max_ops` nodes, and none where `time_limit` is zero; beyond
/// that `k` depends on the clock.
pub fn gds<N, FN, FC1, FC2, C, FR>(
    start: N,
    successor_fn: FN,
    leaf_check_fn: FR,
    cost_fn: FC2,
    eval_fn: FC1,
    max_ops: usize,
    time_limit: Duration,
) -> (best: Option<(C, N)>) where
    C: Ord + Copy,
    FN: Successors<N>,
    FC1: NodeFn<N, Output = Option<C>>,
    FC2: NodeFn<N, Output = Option<C>>,
    FR: NodeFn<N, Output = bool>,

    requires
        successor_fn.is_expansion(),
        leaf_check_fn.is_function(),
        cost_fn.is_function(),
        eval_fn.is_function(),
        total_order::<C>(),
    ensures
        exists|k: nat|
            {
                &&& k <= max_ops
                &&& nanos_of(time_limit) == 0 ==> k == 0
                &&& best == best_leaf(
                    #[trigger] visits(
                        gds_machine(Greedy { successor_fn, eval_fn }),
                        Some(start),
                        k,
                    ),
                    leaf_check_fn,
                    cost_fn,
                )
            },
        max_ops == 0 ==> best is None,
{
    let mut tree = gds_reach(start, successor_fn, eval_fn);
    let ghost from = tree;
    let ghost fns = Greedy { successor_fn, eval_fn };
    let best = find_best(&mut tree, leaf_check_fn, cost_fn, max_ops, time_limit);
    proof {
        let (seen, mid, last) = choose|
            seen: Seq<N>,
            mid: Reachable<GreedyContainer<N, FN, FC1>>,
            last: Option<N>,
        |
            {
                &&& #[trigger] yields(from, seen, mid)
                &&& mid.wf()
                &&& #[trigger] mid.pulls(last, &tree)
                &&& seen.len() <= max_ops
                &&& nanos_of(time_limit) == 0 ==> seen.len() == 0
                &&& best == best_leaf(seen, leaf_check_fn, cost_fn)
            };
        lemma_gds_follows(fns, from, seen, mid);
        assert(visits(gds_machine(fns), Some(start), seen.len()) == seen);
    }
    best
}

} // verus!
