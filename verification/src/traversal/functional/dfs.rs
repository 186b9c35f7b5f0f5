//! Depth-first search.

use crate::best::best_leaf;
use crate::callback::{NodeFn, Successors};
use crate::clock::nanos_of;
use crate::exhaustive::{exhaustive, lemma_visits_all, step_expands};
use crate::model::{fused, lemma_visits_end, Machine, visits};
use crate::order::total_order;
use crate::traversal::common::{lemma_follows, Traversal, yields};
use crate::tree::{closed_by, expands_to, reach};
use std::time::Duration;
use super::common::{find_best, NodeContainer, Reachable};
use vstd::prelude::*;

verus! {

/// The frontier of a depth-first traversal: a stack.
pub struct DepthFirstContainer<N, FN> {
    to_see: Vec<N>,
    successor_fn: FN,
}

/// Depth-first order as a machine over the stack, whose top is its last
/// node: the top is visited, and its successors take its place, the last
/// of them on top.
pub open spec fn dfs_machine<N, FN: Successors<N>>(successor_fn: FN) -> Machine<Seq<N>, N> {
    Machine {
        next: |stack: Seq<N>|
            if stack.len() == 0 {
                None
            } else {
                Some(stack.last())
            },
        step: |stack: Seq<N>|
            if stack.len() == 0 {
                stack
            } else {
                stack.drop_last() + successor_fn.children(&stack.last())
            },
    }
}

impl<N, FN: Successors<N>> DepthFirstContainer<N, FN> {
    /// The stack, its top last.
    pub closed spec fn stack(self) -> Seq<N> {
        self.to_see@
    }

    /// The successor function.
    pub closed spec fn successor_fn(self) -> FN {
        self.successor_fn
    }

    /// The frontier that holds `start` alone.
    pub fn new(start: N, successor_fn: FN) -> (frontier: Self)
        ensures
            frontier.stack() == seq![start],
            frontier.successor_fn() == successor_fn,
    {
        let mut to_see = Vec::new();
        to_see.push(start);
        Self { to_see, successor_fn }
    }
}

impl<N, FN: Successors<N>> NodeContainer for DepthFirstContainer<N, FN> {
    type Node = N;

    open spec fn wf(&self) -> bool {
        self.successor_fn().is_expansion()
    }

    open spec fn pops(&self, next: Option<N>, after: &Self) -> bool {
        &&& after.successor_fn() == self.successor_fn()
        &&& if self.stack().len() == 0 {
            next is None && after.stack() == self.stack()
        } else {
            next == Some(self.stack().last()) && after.stack() == self.stack().drop_last()
        }
    }

    open spec fn expands(&self, node: &N, after: &Self) -> bool {
        &&& after.successor_fn() == self.successor_fn()
        &&& after.stack() == self.stack() + self.successor_fn().children(node)
    }

    fn pop(&mut self) -> (next: Option<N>) {
        self.to_see.pop()
    }

    fn expand_and_push(&mut self, node: &N) {
        let mut kids = self.successor_fn.successors(node);
        self.to_see.append(&mut kids);
    }
}

/// The depth-first traversal of the tree under `start`.
pub fn dfs_reach<N, FN>(start: N, successor_fn: FN) -> (tree: Reachable<
    DepthFirstContainer<N, FN>,
>) where FN: Successors<N>
    ensures
        tree.frontier().stack() == seq![start],
        tree.frontier().successor_fn() == successor_fn,
{
    let container = DepthFirstContainer::new(start, successor_fn);
    Reachable::new(container)
}

/// Every pull of a depth-first traversal is a step of `dfs_machine` on its
/// stack.
pub proof fn lemma_dfs_follows<N, FN: Successors<N>>(
    successor_fn: FN,
    from: Reachable<DepthFirstContainer<N, FN>>,
    nodes: Seq<N>,
    to: Reachable<DepthFirstContainer<N, FN>>,
)
    requires
        from.wf(),
        from.frontier().successor_fn() == successor_fn,
        yields(from, nodes, to),
    ensures
        to.frontier().successor_fn() == successor_fn,
        visits(dfs_machine(successor_fn), from.frontier().stack(), nodes.len()) == nodes,
        crate::model::after(dfs_machine(successor_fn), from.frontier().stack(), nodes.len())
            == to.frontier().stack(),
{
    let m = dfs_machine(successor_fn);
    let abs = |t: Reachable<DepthFirstContainer<N, FN>>| t.frontier().stack();
    let inv = |t: Reachable<DepthFirstContainer<N, FN>>|
        t.frontier().successor_fn() == successor_fn;
    assert forall|
        a: Reachable<DepthFirstContainer<N, FN>>,
        next: Option<N>,
        b: Reachable<DepthFirstContainer<N, FN>>,
    |
        inv(a) && a.wf() && #[trigger] a.pulls(next, &b) implies inv(b) && next == (m.next)(
        abs(a),
    ) && abs(b) == (m.step)(abs(a)) by {
        let stack = a.frontier().stack();
        if stack.len() == 0 {
        } else {
            assert(stack.drop_last() + successor_fn.children(&stack.last()) == (m.step)(stack));
        }
    }
    lemma_follows(m, abs, inv, from, nodes, to);
}

/// A depth-first traversal that has ended stays ended.
pub proof fn lemma_dfs_fused<N, FN: Successors<N>>(successor_fn: FN)
    ensures
        fused(dfs_machine(successor_fn)),
{
}

/// Depth-first order leaves no node out: every pull visits the top of the
/// stack and puts its successors on the stack instead.
pub proof fn lemma_dfs_exhaustive<N, FN: Successors<N>>(
    successor_fn: FN,
    stack: Seq<N>,
    depth: nat,
)
    ensures
        exhaustive(dfs_machine(successor_fn), successor_fn, |st: Seq<N>| st, stack, depth),
{
    let m = dfs_machine(successor_fn);
    let pending = |st: Seq<N>| st;
    assert forall|a: Seq<N>| #[trigger] step_expands(m, successor_fn, pending, a) by {
        if a.len() > 0 {
            let kids = successor_fn.children(&a.last());
            vstd::seq_lib::lemma_multiset_commutative(a.drop_last(), kids);
            vstd::seq_lib::to_multiset_build(a.drop_last(), a.last());
            assert(a.drop_last().push(a.last()) == a);
            assert(a[a.len() - 1] == a.last());
            assert((a.drop_last() + kids).to_multiset().insert(a.last()) =~= a.to_multiset().add(
                kids.to_multiset(),
            ));
            assert(expands_to(successor_fn, a, a.last(), a.drop_last() + kids));
        }
    }
}

/// On a finite tree a depth-first traversal visits every node once.
///
/// Where the tree under `start` ends within `depth` levels, pulls that are
/// at least as many as the tree has nodes hand out just the nodes of the
/// tree, each as often as it is generated.
pub proof fn lemma_dfs_visits_all<N, FN: Successors<N>>(
    successor_fn: FN,
    start: N,
    depth: nat,
    k: nat,
)
    requires
        closed_by(successor_fn, seq![start], depth),
        k >= reach(successor_fn, seq![start], depth).len(),
    ensures
        visits(dfs_machine(successor_fn), seq![start], k).to_multiset() == reach(
            successor_fn,
            seq![start],
            depth,
        ),
        visits(dfs_machine(successor_fn), seq![start], k).len() == reach(
            successor_fn,
            seq![start],
            depth,
        ).len(),
{
    let m = dfs_machine(successor_fn);
    let pending = |st: Seq<N>| st;
    let size = reach(successor_fn, seq![start], depth).len();
    lemma_dfs_exhaustive(successor_fn, seq![start], depth);
    lemma_visits_all(m, successor_fn, pending, seq![start], depth);
    lemma_visits_end(m, seq![start], size, k);
}

/// Finds the cheapest leaf by depth-first search, within a budget.
///
/// The nodes are visited in depth-first order from `start`, and the result
/// is the cheapest leaf among the first `k` of them, the first such leaf
/// where several cost the same. The search processes at most `max_ops`
/// nodes, and none where `time_limit` is zero; beyond that `k` depends on
/// the clock.
pub fn dfs<N, FN, FC, C, FL>(
    start: N,
    successor_fn: FN,
    leaf_check_fn: FL,
    cost_fn: FC,
    max_ops: usize,
    time_limit: Duration,
) -> (best: Option<(C, N)>) where
    C: Ord + Copy,
    FN: Successors<N>,
    FL: NodeFn<N, Output = bool>,
    FC: NodeFn<N, Output = Option<C>>,

    requires
        successor_fn.is_expansion(),
        leaf_check_fn.is_function(),
        cost_fn.is_function(),
        total_order::<C>(),
    ensures
        exists|k: nat|
            {
                &&& k <= max_ops
                &&& nanos_of(time_limit) == 0 ==> k == 0
                &&& best == best_leaf(
                    #[trigger] visits(dfs_machine(successor_fn), seq![start], k),
                    leaf_check_fn,
                    cost_fn,
                )
            },
        max_ops == 0 ==> best is None,
{
    let mut tree = dfs_reach(start, successor_fn);
    let ghost from = tree;
    let best = find_best(&mut tree, leaf_check_fn, cost_fn, max_ops, time_limit);
    proof {
        let (seen, mid, last) = choose|
            seen: Seq<N>,
            mid: Reachable<DepthFirstContainer<N, FN>>,
            last: Option<N>,
        |
            {
                &&& #[trigger] yields(from, seen, mid)
                &&& mid.wf()
                &&& #[trigger] mid.pulls(last, &tree)
                &&& seen.len() <= max_ops
                &&& nanos_of(time_limit) == 0 ==> seen.len() == 0
                &&& best == best_leaf(seen, leaf_check_fn, cost_fn)
            };
        lemma_dfs_follows(successor_fn, from, seen, mid);
        assert(visits(dfs_machine(successor_fn), seq![start], seen.len()) == seen);
    }
    best
}

} // verus!
