//! Branch and bound.
//!
//! The frontier keeps the cost of the cheapest leaf that it has handed
//! out, and bounds against it. A search keeps its own best leaf, among the
//! nodes that it has processed. These are all the nodes that were handed
//! out, but for the one that a search pulls and drops when its budget
//! ends; up to that node the two costs agree.

use crate::best::{
    best_leaf, best_position, candidate, cost_of, lemma_best_leaf_minimal, lemma_best_position,
};
use crate::callback::{NodeFn, Successors};
use crate::clock::nanos_of;
use crate::model::{after, fused, lemma_visits_end, Machine, visits};
use crate::order::{le, lemma_le_transitive, lemma_trichotomy, less, lt, total_order};
use crate::traversal::common::{lemma_follows, Traversal, yields};
use crate::tree::{
    closed_by, lemma_closed_children, lemma_generation_concat, lemma_reach_concat,
    lemma_reach_len, lemma_reach_none, lemma_reach_one, lemma_reach_top, reach,
};
use crate::utils::ScoredItem;
use std::time::Duration;
use super::bfs::{bfs_machine, lemma_bfs_visits_all};
use super::common::{find_best, NodeContainer, Reachable};
use vstd::multiset::Multiset;
use vstd::prelude::*;

verus! {

/// The frontier of a branch-and-bound traversal: a stack, and the cost of
/// the cheapest leaf that the traversal has visited.
pub struct BranchAndBoundContainer<C, N, FN, FL, FC, FC2> {
    to_see: Vec<N>,
    successor_fn: FN,
    leaf_check_fn: FL,
    cost_fn: FC,
    lower_bound_fn: FC2,
    current_best_cost: Option<C>,
}

/// The callbacks of a branch-and-bound traversal.
pub struct Bounding<FN, FL, FC, FC2> {
    /// The successors of a node.
    pub successor_fn: FN,
    /// Whether a node is a leaf.
    pub leaf_check_fn: FL,
    /// The cost of a leaf.
    pub cost_fn: FC,
    /// A lower bound on the cost of every leaf under a node.
    pub lower_bound_fn: FC2,
}

/// Whether `cost` improves on the best cost so far: there is none yet, or
/// `cost` is strictly less.
pub open spec fn improves<C: Ord>(cost: C, best: Option<C>) -> bool {
    match best {
        Some(b) => lt(cost, b),
        None => true,
    }
}

/// The best cost once a leaf of cost `cost` has been visited.
pub open spec fn improved<C: Ord>(cost: Option<C>, best: Option<C>) -> Option<C> {
    match cost {
        Some(c) => if improves(c, best) {
            Some(c)
        } else {
            best
        },
        None => best,
    }
}

/// Whether a node with lower bound `bound` is expanded: it has no bound, or
/// its bound improves on the best cost so far.
pub open spec fn admits<C: Ord>(bound: Option<C>, best: Option<C>) -> bool {
    match bound {
        Some(b) => improves(b, best),
        None => true,
    }
}

/// The stack and the best cost once `node`, taken from the top, has been
/// dealt with.
///
/// A leaf is not expanded; its cost becomes the best cost where it improves
/// on it. Another node is expanded where its lower bound admits it, and
/// dropped with all that lies under it where it does not.
pub open spec fn bbs_expand<C, N, FN, FL, FC, FC2>(
    fns: Bounding<FN, FL, FC, FC2>,
    node: N,
    stack: Seq<N>,
    best: Option<C>,
) -> (Seq<N>, Option<C>) where
    C: Ord,
    FN: Successors<N>,
    FL: NodeFn<N, Output = bool>,
    FC: NodeFn<N, Output = Option<C>>,
    FC2: NodeFn<N, Output = Option<C>>,
 {
    if fns.leaf_check_fn.value(&node) {
        (stack, improved(fns.cost_fn.value(&node), best))
    } else if admits(fns.lower_bound_fn.value(&node), best) {
        (stack + fns.successor_fn.children(&node), best)
    } else {
        (stack, best)
    }
}

/// Branch-and-bound order as a machine over the stack, whose top is its
/// last node, and the best cost so far.
pub open spec fn bbs_machine<C, N, FN, FL, FC, FC2>(fns: Bounding<FN, FL, FC, FC2>) -> Machine<
    (Seq<N>, Option<C>),
    N,
> where
    C: Ord,
    FN: Successors<N>,
    FL: NodeFn<N, Output = bool>,
    FC: NodeFn<N, Output = Option<C>>,
    FC2: NodeFn<N, Output = Option<C>>,
 {
    Machine {
        next: |st: (Seq<N>, Option<C>)|
            if st.0.len() == 0 {
                None
            } else {
                Some(st.0.last())
            },
        step: |st: (Seq<N>, Option<C>)|
            if st.0.len() == 0 {
                st
            } else {
                bbs_expand(fns, st.0.last(), st.0.drop_last(), st.1)
            },
    }
}

impl<C, N, FN, FL, FC, FC2> BranchAndBoundContainer<C, N, FN, FL, FC, FC2> where
    C: Ord + Copy,
    FN: Successors<N>,
    FL: NodeFn<N, Output = bool>,
    FC: NodeFn<N, Output = Option<C>>,
    FC2: NodeFn<N, Output = Option<C>>,
 {
    /// The stack, its top last.
    pub closed spec fn stack(self) -> Seq<N> {
        self.to_see@
    }

    /// The cost of the cheapest leaf visited so far.
    pub closed spec fn best(self) -> Option<C> {
        self.current_best_cost
    }

    /// The callbacks.
    pub closed spec fn fns(self) -> Bounding<FN, FL, FC, FC2> {
        Bounding {
            successor_fn: self.successor_fn,
            leaf_check_fn: self.leaf_check_fn,
            cost_fn: self.cost_fn,
            lower_bound_fn: self.lower_bound_fn,
        }
    }

    /// The stack and the best cost.
    pub open spec fn state(self) -> (Seq<N>, Option<C>) {
        (self.stack(), self.best())
    }

    /// The frontier that holds `start` alone, with no best cost yet.
    pub fn new(
        start: N,
        successor_fn: FN,
        leaf_check_fn: FL,
        cost_fn: FC,
        lower_bound_fn: FC2,
    ) -> (frontier: Self)
        ensures
            frontier.state() == (seq![start], None::<C>),
            frontier.fns() == (Bounding { successor_fn, leaf_check_fn, cost_fn, lower_bound_fn }),
    {
        let mut to_see = Vec::new();
        to_see.push(start);
        Self {
            to_see,
            successor_fn,
            leaf_check_fn,
            cost_fn,
            lower_bound_fn,
            current_best_cost: None,
        }
    }

    /// The frontier that holds the stack `to_see`, its top last, with the
    /// best cost `current_best_cost`.
    pub fn resume(
        to_see: Vec<N>,
        successor_fn: FN,
        leaf_check_fn: FL,
        cost_fn: FC,
        lower_bound_fn: FC2,
        current_best_cost: Option<C>,
    ) -> (frontier: Self)
        ensures
            frontier.state() == (to_see@, current_best_cost),
            frontier.fns() == (Bounding { successor_fn, leaf_check_fn, cost_fn, lower_bound_fn }),
    {
        Self { to_see, successor_fn, leaf_check_fn, cost_fn, lower_bound_fn, current_best_cost }
    }

    /// Whether `cost` improves on the best cost so far.
    fn beats(&self, cost: &C) -> (yes: bool)
        requires
            total_order::<C>(),
        ensures
            yes == improves(*cost, self.best()),
    {
        match &self.current_best_cost {
            Some(best) => less(cost, best),
            None => true,
        }
    }
}

impl<C, N, FN, FL, FC, FC2> NodeContainer for BranchAndBoundContainer<C, N, FN, FL, FC, FC2> where
    C: Ord + Copy,
    FN: Successors<N>,
    FL: NodeFn<N, Output = bool>,
    FC: NodeFn<N, Output = Option<C>>,
    FC2: NodeFn<N, Output = Option<C>>,
 {
    type Node = N;

    open spec fn wf(&self) -> bool {
        &&& total_order::<C>()
        &&& self.fns().successor_fn.is_expansion()
        &&& self.fns().leaf_check_fn.is_function()
        &&& self.fns().cost_fn.is_function()
        &&& self.fns().lower_bound_fn.is_function()
    }

    open spec fn pops(&self, next: Option<N>, after: &Self) -> bool {
        &&& after.fns() == self.fns()
        &&& after.best() == self.best()
        &&& if self.stack().len() == 0 {
            next is None && after.stack() == self.stack()
        } else {
            next == Some(self.stack().last()) && after.stack() == self.stack().drop_last()
        }
    }

    open spec fn expands(&self, node: &N, after: &Self) -> bool {
        &&& after.fns() == self.fns()
        &&& after.state() == bbs_expand(self.fns(), *node, self.stack(), self.best())
    }

    fn pop(&mut self) -> (next: Option<N>) {
        self.to_see.pop()
    }

    fn expand_and_push(&mut self, node: &N) {
        if self.leaf_check_fn.eval(node) {
            match self.cost_fn.eval(node) {
                Some(cost) => {
                    if self.beats(&cost) {
                        self.current_best_cost = Some(cost);
                    }
                },
                None => {},
            }
        } else {
            let admitted = match self.lower_bound_fn.eval(node) {
                Some(bound) => self.beats(&bound),
                None => true,
            };
            if admitted {
                let mut kids = self.successor_fn.successors(node);
                self.to_see.append(&mut kids);
            } else {
                proof {
                    assert(self.to_see@ == old(self).to_see@);
                }
            }
        }
    }
}

/// The branch-and-bound traversal of the tree under `start`.
pub fn bbs_reach<C, N, FN, FL, FC, FC2>(
    start: N,
    successor_fn: FN,
    leaf_check_fn: FL,
    cost_fn: FC,
    lower_bound_fn: FC2,
) -> (tree: Reachable<BranchAndBoundContainer<C, N, FN, FL, FC, FC2>>) where
    C: Ord + Copy,
    FN: Successors<N>,
    FL: NodeFn<N, Output = bool>,
    FC: NodeFn<N, Output = Option<C>>,
    FC2: NodeFn<N, Output = Option<C>>,

    ensures
        tree.frontier().state() == (seq![start], None::<C>),
        tree.frontier().fns() == (Bounding {
            successor_fn,
            leaf_check_fn,
            cost_fn,
            lower_bound_fn,
        }),
{
    let container = BranchAndBoundContainer::new(
        start,
        successor_fn,
        leaf_check_fn,
        cost_fn,
        lower_bound_fn,
    );
    Reachable::new(container)
}

/// Every pull of a branch-and-bound traversal is a step of `bbs_machine` on
/// its stack and best cost.
pub proof fn lemma_bbs_follows<C, N, FN, FL, FC, FC2>(
    fns: Bounding<FN, FL, FC, FC2>,
    from: Reachable<BranchAndBoundContainer<C, N, FN, FL, FC, FC2>>,
    nodes: Seq<N>,
    to: Reachable<BranchAndBoundContainer<C, N, FN, FL, FC, FC2>>,
) where
    C: Ord + Copy,
    FN: Successors<N>,
    FL: NodeFn<N, Output = bool>,
    FC: NodeFn<N, Output = Option<C>>,
    FC2: NodeFn<N, Output = Option<C>>,

    requires
        from.wf(),
        from.frontier().fns() == fns,
        yields(from, nodes, to),
    ensures
        to.frontier().fns() == fns,
        visits(bbs_machine(fns), from.frontier().state(), nodes.len()) == nodes,
        after(bbs_machine(fns), from.frontier().state(), nodes.len()) == to.frontier().state(),
{
    let m = bbs_machine::<C, N, FN, FL, FC, FC2>(fns);
    let abs = |t: Reachable<BranchAndBoundContainer<C, N, FN, FL, FC, FC2>>| t.frontier().state();
    let inv = |t: Reachable<BranchAndBoundContainer<C, N, FN, FL, FC, FC2>>|
        t.frontier().fns() == fns;
    assert forall|
        a: Reachable<BranchAndBoundContainer<C, N, FN, FL, FC, FC2>>,
        next: Option<N>,
        b: Reachable<BranchAndBoundContainer<C, N, FN, FL, FC, FC2>>,
    |
        inv(a) && a.wf() && #[trigger] a.pulls(next, &b) implies inv(b) && next == (m.next)(
        abs(a),
    ) && abs(b) == (m.step)(abs(a)) by {
        let st = a.frontier().state();
        if st.0.len() == 0 {
            assert(abs(b) == st);
        } else {
            assert(abs(b) == bbs_expand(fns, st.0.last(), st.0.drop_last(), st.1));
        }
    }
    lemma_follows(m, abs, inv, from, nodes, to);
}

/// A branch-and-bound traversal that has ended stays ended.
pub proof fn lemma_bbs_fused<C, N, FN, FL, FC, FC2>(fns: Bounding<FN, FL, FC, FC2>) where
    C: Ord,
    FN: Successors<N>,
    FL: NodeFn<N, Output = bool>,
    FC: NodeFn<N, Output = Option<C>>,
    FC2: NodeFn<N, Output = Option<C>>,

    ensures
        fused(bbs_machine(fns)),
{
}

/// The best cost of the frontier is the cost of the best leaf that it has
/// handed out.
///
/// The frontier keeps its own best cost, apart from what a search retains.
/// The two agree: after any number of pulls, the best cost is that of the
/// cheapest leaf among the visited nodes.
pub proof fn lemma_bbs_best_cost<C, N, FN, FL, FC, FC2>(
    fns: Bounding<FN, FL, FC, FC2>,
    stack: Seq<N>,
    k: nat,
) where
    C: Ord,
    FN: Successors<N>,
    FL: NodeFn<N, Output = bool>,
    FC: NodeFn<N, Output = Option<C>>,
    FC2: NodeFn<N, Output = Option<C>>,

    ensures
        after(bbs_machine(fns), (stack, None::<C>), k).1 == cost_of(
            best_leaf(
                visits(bbs_machine(fns), (stack, None::<C>), k),
                fns.leaf_check_fn,
                fns.cost_fn,
            ),
        ),
        visits(bbs_machine(fns), (stack, None::<C>), k).len() == k || after(
            bbs_machine(fns),
            (stack, None::<C>),
            k,
        ).0.len() == 0,
    decreases k,
{
    let m = bbs_machine(fns);
    let st0 = (stack, None::<C>);
    if k > 0 {
        let j = (k - 1) as nat;
        lemma_bbs_best_cost(fns, stack, j);
        let st = after(m, st0, j);
        let seen = visits(m, st0, j);
        if st.0.len() > 0 {
            let grown = seen.push(st.0.last());
            assert(visits(m, st0, k) == grown);
            assert(grown.drop_last() == seen);
            assert(grown.last() == st.0.last());
        } else {
            assert(after(m, st0, k) == st);
            assert(visits(m, st0, k) == seen);
        }
    }
}

/// Whether `node` is a successor of one of the first `upto` nodes of
/// `seen` that is no leaf.
pub open spec fn comes_from<C, N, FN, FL, FC, FC2>(
    fns: Bounding<FN, FL, FC, FC2>,
    seen: Seq<N>,
    upto: int,
    node: N,
) -> bool where
    C: Ord,
    FN: Successors<N>,
    FL: NodeFn<N, Output = bool>,
    FC: NodeFn<N, Output = Option<C>>,
    FC2: NodeFn<N, Output = Option<C>>,
 {
    exists|j: int|
        0 <= j < upto && j < seen.len() && !fns.leaf_check_fn.value(&seen[j])
            && #[trigger] fns.successor_fn.children(&seen[j]).contains(node)
}

/// Branch and bound visits the start first, and after it only successors
/// of nodes that it has visited before and that are no leaves.
pub proof fn lemma_bbs_visits_successors<C, N, FN, FL, FC, FC2>(
    fns: Bounding<FN, FL, FC, FC2>,
    start: N,
    k: nat,
) where
    C: Ord,
    FN: Successors<N>,
    FL: NodeFn<N, Output = bool>,
    FC: NodeFn<N, Output = Option<C>>,
    FC2: NodeFn<N, Output = Option<C>>,

    ensures
        ({
            let seen = visits(bbs_machine(fns), (seq![start], None::<C>), k);
            let stack = after(bbs_machine(fns), (seq![start], None::<C>), k).0;
            &&& seen.len() > 0 ==> seen[0] == start
            &&& forall|i: int| 0 < i < seen.len() ==> comes_from(fns, seen, i, #[trigger] seen[i])
            &&& k > 0 ==> forall|i: int|
                0 <= i < stack.len() ==> comes_from(fns, seen, seen.len() as int, #[trigger] stack[i])
            &&& k == 0 ==> stack == seq![start]
            &&& seen.len() == k || stack.len() == 0
        }),
    decreases k,
{
    let m = bbs_machine(fns);
    let st0 = (seq![start], None::<C>);
    if k > 0 {
        let j = (k - 1) as nat;
        lemma_bbs_visits_successors(fns, start, j);
        let st = after(m, st0, j);
        let was = visits(m, st0, j);
        let seen = visits(m, st0, k);
        let stack = after(m, st0, k).0;
        if st.0.len() > 0 {
            let node = st.0.last();
            let rest = st.0.drop_last();
            let kids = fns.successor_fn.children(&node);
            assert(seen == was.push(node));
            assert(st.0[st.0.len() - 1] == node);
            assert forall|i: int| 0 < i < seen.len() implies comes_from(
                fns,
                seen,
                i,
                #[trigger] seen[i],
            ) by {
                if i < was.len() {
                    let w = choose|w: int|
                        0 <= w < i && w < was.len() && !fns.leaf_check_fn.value(&was[w])
                            && #[trigger] fns.successor_fn.children(&was[w]).contains(was[i]);
                    assert(seen[w] == was[w]);
                    assert(fns.successor_fn.children(&seen[w]).contains(seen[i]));
                } else {
                    let w = choose|w: int|
                        0 <= w < was.len() && !fns.leaf_check_fn.value(&was[w])
                            && #[trigger] fns.successor_fn.children(&was[w]).contains(node);
                    assert(seen[w] == was[w]);
                    assert(fns.successor_fn.children(&seen[w]).contains(seen[i]));
                }
            }
            assert forall|i: int| 0 <= i < stack.len() implies comes_from(
                fns,
                seen,
                seen.len() as int,
                #[trigger] stack[i],
            ) by {
                if i < rest.len() {
                    assert(stack[i] == rest[i]);
                    assert(rest[i] == st.0[i]);
                    let w = choose|w: int|
                        0 <= w < was.len() && !fns.leaf_check_fn.value(&was[w])
                            && #[trigger] fns.successor_fn.children(&was[w]).contains(st.0[i]);
                    assert(seen[w] == was[w]);
                    assert(fns.successor_fn.children(&seen[w]).contains(stack[i]));
                } else {
                    assert(stack == rest + kids);
                    assert(stack[i] == kids[i - rest.len()]);
                    assert(seen[was.len() as int] == node);
                    assert(fns.successor_fn.children(&seen[was.len() as int]).contains(stack[i]));
                }
            }
        } else {
            assert(after(m, st0, k) == st);
            assert(seen == was);
        }
    }
}

/// Branch and bound visits no node that is not of the tree, and none more
/// often than the tree holds it: on a tree that ends within `depth`
/// levels, each node is visited at most as often as it is generated, and
/// no more nodes are visited than the tree has.
pub proof fn lemma_bbs_visits_within<C, N, FN, FL, FC, FC2>(
    fns: Bounding<FN, FL, FC, FC2>,
    start: N,
    depth: nat,
    k: nat,
) where
    C: Ord,
    FN: Successors<N>,
    FL: NodeFn<N, Output = bool>,
    FC: NodeFn<N, Output = Option<C>>,
    FC2: NodeFn<N, Output = Option<C>>,

    requires
        closed_by(fns.successor_fn, seq![start], depth),
    ensures
        ({
            let seen = visits(bbs_machine(fns), (seq![start], None::<C>), k);
            let stack = after(bbs_machine(fns), (seq![start], None::<C>), k).0;
            let all = reach(fns.successor_fn, seq![start], depth);
            let left = reach(fns.successor_fn, stack, depth);
            &&& closed_by(fns.successor_fn, stack, depth)
            &&& forall|x: N| #[trigger] seen.to_multiset().count(x) + left.count(x) <= all.count(x)
            &&& forall|x: N| #[trigger] seen.to_multiset().count(x) <= all.count(x)
            &&& seen.len() + left.len() <= all.len()
            &&& seen.len() <= all.len()
        }),
    decreases k,
{
    let s = fns.successor_fn;
    let m = bbs_machine(fns);
    let st0 = (seq![start], None::<C>);
    let all = reach(s, seq![start], depth);
    if k == 0 {
        vstd::seq_lib::to_multiset_len(visits(m, st0, 0));
        assert(after(m, st0, 0) == st0);
        assert(visits(m, st0, 0).to_multiset() =~= Multiset::<N>::empty());
    } else {
        let j = (k - 1) as nat;
        lemma_bbs_visits_within(fns, start, depth, j);
        let st = after(m, st0, j);
        let was = visits(m, st0, j);
        let seen = visits(m, st0, k);
        let stack = after(m, st0, k).0;
        let left = reach(s, st.0, depth);
        if st.0.len() > 0 {
            let node = st.0.last();
            let rest = st.0.drop_last();
            let kids = s.children(&node);
            let aside = reach(s, rest, depth);
            let below = reach(s, kids, depth);
            let one = Multiset::singleton(node);
            lemma_reach_top(s, st.0, depth);
            lemma_bbs_best_cost(fns, seq![start], j);
            assert(seen == was.push(node));
            vstd::seq_lib::to_multiset_build(was, node);
            let now = reach(s, stack, depth);
            assert(stack == rest || stack == rest + kids);
            assert(now == aside || now == aside.add(below));
            assert(left == aside.add(one.add(below)));
            assert forall|x: N| #[trigger]
                seen.to_multiset().count(x) + now.count(x) <= all.count(x) by {
                assert(was.to_multiset().count(x) + left.count(x) <= all.count(x));
                assert(left.count(x) == aside.count(x) + one.count(x) + below.count(x));
            }
            assert forall|x: N| #[trigger] seen.to_multiset().count(x) <= all.count(x) by {
                assert(seen.to_multiset().count(x) + now.count(x) <= all.count(x));
            }
            assert(left.len() == aside.len() + 1 + below.len());
        } else {
            assert(after(m, st0, k) == st);
            assert(seen == was);
        }
    }
}

/// Whether the lower bounds never promise too much: the bound of a node,
/// where it has one, is at most the cost of every leaf that lies under it,
/// down to `depth` levels under its successors.
pub open spec fn admissible<C, N, FN, FL, FC, FC2>(
    fns: Bounding<FN, FL, FC, FC2>,
    depth: nat,
) -> bool where
    C: Ord,
    FN: Successors<N>,
    FL: NodeFn<N, Output = bool>,
    FC: NodeFn<N, Output = Option<C>>,
    FC2: NodeFn<N, Output = Option<C>>,
 {
    forall|n: N, x: N|
        #[trigger] reach(fns.successor_fn, fns.successor_fn.children(&n), depth).count(x) > 0
            ==> match (
            fns.lower_bound_fn.value(&n),
            candidate(fns.leaf_check_fn, fns.cost_fn, x),
        ) {
            (Some(bound), Some(item)) => le(bound, item.0),
            _ => true,
        }
}

/// Whether the tree ends at its leaves: a leaf has no successors.
pub open spec fn leaves_end<C, N, FN, FL, FC, FC2>(fns: Bounding<FN, FL, FC, FC2>) -> bool where
    C: Ord,
    FN: Successors<N>,
    FL: NodeFn<N, Output = bool>,
    FC: NodeFn<N, Output = Option<C>>,
    FC2: NodeFn<N, Output = Option<C>>,
 {
    forall|n: N| #[trigger]
        fns.leaf_check_fn.value(&n) ==> fns.successor_fn.children(&n).len() == 0
}

/// Whether the best cost so far is at most `cost`.
pub open spec fn settles<C: Ord>(best: Option<C>, cost: C) -> bool {
    match best {
        Some(b) => le(b, cost),
        None => false,
    }
}

/// What holds of a branch-and-bound traversal of the tree under `start`
/// once it has visited `seen` and is in state `st`.
///
/// The stack spans trees that end within `depth` levels and lie within the
/// tree under `start`, as do the visited nodes; the best cost is that of
/// the best leaf visited; and every leaf of the tree is still reached from
/// the stack, or costs at least the best cost.
pub open spec fn bbs_on_course<C, N, FN, FL, FC, FC2>(
    fns: Bounding<FN, FL, FC, FC2>,
    start: N,
    depth: nat,
    st: (Seq<N>, Option<C>),
    seen: Seq<N>,
) -> bool where
    C: Ord,
    FN: Successors<N>,
    FL: NodeFn<N, Output = bool>,
    FC: NodeFn<N, Output = Option<C>>,
    FC2: NodeFn<N, Output = Option<C>>,
 {
    let s = fns.successor_fn;
    let all = reach(s, seq![start], depth);
    let left = reach(s, st.0, depth);
    &&& closed_by(s, st.0, depth)
    &&& seen.len() + left.len() <= all.len()
    &&& st.1 == cost_of(best_leaf(seen, fns.leaf_check_fn, fns.cost_fn))
    &&& forall|x: N| #[trigger] left.count(x) <= all.count(x)
    &&& forall|i: int| 0 <= i < seen.len() ==> all.count(#[trigger] seen[i]) > 0
    &&& forall|x: N|
        all.count(x) > 0 ==> match #[trigger] candidate(fns.leaf_check_fn, fns.cost_fn, x) {
            Some(item) => left.count(x) > 0 || settles(st.1, item.0),
            None => true,
        }
}

/// The best cost never goes up, and is at most the cost that was offered.
proof fn lemma_improved<C: Ord>(cost: Option<C>, best: Option<C>, other: C)
    requires
        total_order::<C>(),
    ensures
        settles(best, other) ==> settles(improved(cost, best), other),
        cost is Some ==> settles(improved(cost, best), cost.unwrap()),
{
    match (cost, best) {
        (Some(c), Some(b)) => {
            lemma_trichotomy(c, b);
            lemma_trichotomy(c, c);
            if settles(best, other) && lt(c, b) {
                lemma_le_transitive(c, b, other);
            }
        },
        (Some(c), None) => {
            lemma_trichotomy(c, c);
        },
        _ => {},
    }
}

/// One pull of branch and bound keeps the traversal on course.
proof fn lemma_bbs_keeps<C, N, FN, FL, FC, FC2>(
    fns: Bounding<FN, FL, FC, FC2>,
    start: N,
    depth: nat,
    st: (Seq<N>, Option<C>),
    seen: Seq<N>,
) where
    C: Ord,
    FN: Successors<N>,
    FL: NodeFn<N, Output = bool>,
    FC: NodeFn<N, Output = Option<C>>,
    FC2: NodeFn<N, Output = Option<C>>,

    requires
        total_order::<C>(),
        admissible(fns, depth),
        leaves_end(fns),
        bbs_on_course(fns, start, depth, st, seen),
        st.0.len() > 0,
    ensures
        bbs_on_course(
            fns,
            start,
            depth,
            bbs_expand(fns, st.0.last(), st.0.drop_last(), st.1),
            seen.push(st.0.last()),
        ),
{
    let s = fns.successor_fn;
    let leaf = fns.leaf_check_fn;
    let cost = fns.cost_fn;
    let all = reach(s, seq![start], depth);
    let left = reach(s, st.0, depth);
    let node = st.0.last();
    let rest = st.0.drop_last();
    let kids = s.children(&node);
    let now = bbs_expand(fns, node, rest, st.1);
    let grown = seen.push(node);
    let under = reach(s, kids, depth);
    let aside = reach(s, rest, depth);
    let one = Multiset::singleton(node);

    assert(st.0 == rest + seq![node]);
    assert(st.0[st.0.len() - 1] == node);
    lemma_reach_concat(s, rest, seq![node], depth);
    lemma_generation_concat(s, rest, seq![node], depth + 1);
    lemma_closed_children(s, st.0, node, depth);
    lemma_reach_one(s, node, depth);
    assert(reach(s, seq![node], depth) == one.add(under));
    assert(left == aside.add(one.add(under)));
    assert(left.len() == aside.len() + 1 + under.len());
    assert(closed_by(s, rest, depth));
    lemma_reach_concat(s, rest, kids, depth);
    lemma_generation_concat(s, rest, kids, depth + 1);
    assert(closed_by(s, rest + kids, depth));
    assert(left.count(node) > 0);
    assert(all.count(node) > 0) by {
        assert(left.count(node) <= all.count(node));
    }

    assert(grown.drop_last() == seen);
    assert(grown.last() == node);
    let after = reach(s, now.0, depth);
    assert(after == aside || after == aside.add(under));
    assert(after.len() + 1 <= left.len());
    assert forall|x: N| #[trigger] after.count(x) <= all.count(x) by {
        assert(left.count(x) <= all.count(x));
        assert(left.count(x) == aside.count(x) + one.count(x) + under.count(x));
    }
    assert forall|i: int| 0 <= i < grown.len() implies all.count(#[trigger] grown[i]) > 0 by {
        if i < seen.len() {
            assert(grown[i] == seen[i]);
        }
    }
    if leaf.value(&node) {
        lemma_reach_none(s, kids, depth);
    }
    assert(now.1 == cost_of(best_leaf(grown, leaf, cost)));
    assert forall|x: N| all.count(x) > 0 implies match #[trigger] candidate(leaf, cost, x) {
        Some(item) => after.count(x) > 0 || settles(now.1, item.0),
        None => true,
    } by {
        match candidate(leaf, cost, x) {
            Some(item) => {
                assert(left.count(x) == aside.count(x) + one.count(x) + under.count(x));
                if leaf.value(&node) {
                    lemma_improved(cost.value(&node), st.1, item.0);
                    if x == node {
                        assert(cost.value(&node) == Some(item.0));
                    }
                } else if admits(fns.lower_bound_fn.value(&node), st.1) {
                    assert(x != node);
                } else {
                    assert(x != node);
                    if under.count(x) > 0 {
                        let bound = fns.lower_bound_fn.value(&node).unwrap();
                        let best = st.1.unwrap();
                        lemma_trichotomy(bound, best);
                        lemma_le_transitive(best, bound, item.0);
                    }
                }
            },
            None => {},
        }
    }
}

/// Branch and bound stays on course for as long as it runs, and hands out
/// a node at every pull until its stack is empty.
proof fn lemma_bbs_runs<C, N, FN, FL, FC, FC2>(
    fns: Bounding<FN, FL, FC, FC2>,
    start: N,
    depth: nat,
    k: nat,
) where
    C: Ord,
    FN: Successors<N>,
    FL: NodeFn<N, Output = bool>,
    FC: NodeFn<N, Output = Option<C>>,
    FC2: NodeFn<N, Output = Option<C>>,

    requires
        total_order::<C>(),
        admissible(fns, depth),
        leaves_end(fns),
        closed_by(fns.successor_fn, seq![start], depth),
    ensures
        bbs_on_course(
            fns,
            start,
            depth,
            after(bbs_machine(fns), (seq![start], None::<C>), k),
            visits(bbs_machine(fns), (seq![start], None::<C>), k),
        ),
        visits(bbs_machine(fns), (seq![start], None::<C>), k).len() == k || after(
            bbs_machine(fns),
            (seq![start], None::<C>),
            k,
        ).0.len() == 0,
    decreases k,
{
    let m = bbs_machine(fns);
    let st0 = (seq![start], None::<C>);
    if k == 0 {
        let all = reach(fns.successor_fn, seq![start], depth);
        assert(visits(m, st0, 0) == Seq::<N>::empty());
        assert(after(m, st0, 0) == st0);
        assert(bbs_on_course(fns, start, depth, st0, Seq::<N>::empty()));
    } else {
        let j = (k - 1) as nat;
        lemma_bbs_runs(fns, start, depth, j);
        let st = after(m, st0, j);
        let seen = visits(m, st0, j);
        if st.0.len() > 0 {
            lemma_bbs_keeps(fns, start, depth, st, seen);
            assert(visits(m, st0, k) == seen.push(st.0.last()));
        } else {
            assert(after(m, st0, k) == st);
            assert(visits(m, st0, k) == seen);
        }
    }
}

/// With admissible lower bounds, branch and bound finds a leaf of the
/// least cost: the cost that breadth-first search finds when it visits the
/// whole tree.
///
/// This holds on a finite tree that ends at its leaves, and of searches
/// that run to the end: `k`, the number of nodes that each may process, is
/// at least the number of nodes of the tree.
pub proof fn lemma_bbs_optimal<C, N, FN, FL, FC, FC2>(
    fns: Bounding<FN, FL, FC, FC2>,
    start: N,
    depth: nat,
    k: nat,
) where
    C: Ord,
    FN: Successors<N>,
    FL: NodeFn<N, Output = bool>,
    FC: NodeFn<N, Output = Option<C>>,
    FC2: NodeFn<N, Output = Option<C>>,

    requires
        total_order::<C>(),
        admissible(fns, depth),
        leaves_end(fns),
        closed_by(fns.successor_fn, seq![start], depth),
        k >= reach(fns.successor_fn, seq![start], depth).len(),
    ensures
        cost_of(
            best_leaf(
                visits(bbs_machine(fns), (seq![start], None::<C>), k),
                fns.leaf_check_fn,
                fns.cost_fn,
            ),
        ) == cost_of(
            best_leaf(
                visits(bfs_machine(fns.successor_fn), seq![start], k),
                fns.leaf_check_fn,
                fns.cost_fn,
            ),
        ),
{
    let s = fns.successor_fn;
    let leaf = fns.leaf_check_fn;
    let cost = fns.cost_fn;
    let m = bbs_machine(fns);
    let st0 = (seq![start], None::<C>);
    let all = reach(s, seq![start], depth);
    let size = all.len();
    lemma_bbs_runs(fns, start, depth, size);
    let st = after(m, st0, size);
    let seen = visits(m, st0, size);
    lemma_reach_len(s, st.0, depth);
    assert(st.0.len() == 0);
    assert(crate::model::exhausted(m, st0, size));
    lemma_visits_end(m, st0, size, k);
    lemma_reach_none(s, st.0, depth);
    let wide = visits(bfs_machine(s), seq![start], k);
    lemma_bfs_visits_all(s, start, depth, k);
    lemma_best_leaf_minimal(wide, leaf, cost);
    lemma_best_position(wide, leaf, cost);
    lemma_best_leaf_minimal(seen, leaf, cost);
    lemma_best_position(seen, leaf, cost);
    match best_leaf(wide, leaf, cost) {
        Some(w) => {
            let at = best_position(wide, leaf, cost);
            vstd::seq_lib::to_multiset_contains(wide, wide[at]);
            assert(wide.contains(wide[at]));
            assert(all.count(wide[at]) > 0);
            assert(candidate(leaf, cost, wide[at]) == Some(ScoredItem(w.0, w.1)));
            assert(settles(st.1, w.0));
            let b = best_leaf(seen, leaf, cost).unwrap();
            let here = best_position(seen, leaf, cost);
            assert(all.count(seen[here]) > 0);
            vstd::seq_lib::to_multiset_contains(wide, seen[here]);
            let there = choose|i: int| 0 <= i < wide.len() && wide[i] == seen[here];
            assert(candidate(leaf, cost, wide[there]) == Some(ScoredItem(b.0, b.1)));
            lemma_trichotomy(b.0, w.0);
        },
        None => {
            match best_leaf(seen, leaf, cost) {
                Some(b) => {
                    let here = best_position(seen, leaf, cost);
                    assert(all.count(seen[here]) > 0);
                    vstd::seq_lib::to_multiset_contains(wide, seen[here]);
                    let there = choose|i: int| 0 <= i < wide.len() && wide[i] == seen[here];
                    assert(candidate(leaf, cost, wide[there]) is Some);
                },
                None => {},
            }
        },
    }
}

/// Finds the cheapest leaf by branch and bound, within a budget.
///
/// The nodes are visited depth first from `start`, but a node that is no
/// leaf is expanded only where its lower bound is absent or strictly less
/// than the cost of the cheapest leaf visited before it. The result is the
/// cheapest leaf among the first `k` visited nodes, the first such leaf
/// where several cost the same. The search processes at most `max_ops`
/// nodes, and none where `time_limit` is zero; beyond that `k` depends on
/// the clock.
pub fn bbs<C, N, FN, FL, FC, FC2>(
    start: N,
    successor_fn: FN,
    leaf_check_fn: FL,
    cost_fn: FC,
    lower_bound_fn: FC2,
    max_ops: usize,
    time_limit: Duration,
) -> (best: Option<(C, N)>) where
    C: Ord + Copy,
    FN: Successors<N>,
    FC: Copy + NodeFn<N, Output = Option<C>>,
    FL: Copy + NodeFn<N, Output = bool>,
    FC2: NodeFn<N, Output = Option<C>>,

    requires
        successor_fn.is_expansion(),
        leaf_check_fn.is_function(),
        cost_fn.is_function(),
        lower_bound_fn.is_function(),
        total_order::<C>(),
    ensures
        exists|k: nat|
            {
                &&& k <= max_ops
                &&& nanos_of(time_limit) == 0 ==> k == 0
                &&& best == best_leaf(
                    #[trigger] visits(
                        bbs_machine(
                            Bounding { successor_fn, leaf_check_fn, cost_fn, lower_bound_fn },
                        ),
                        (seq![start], None::<C>),
                        k,
                    ),
                    leaf_check_fn,
                    cost_fn,
                )
            },
        max_ops == 0 ==> best is None,
{
    let mut tree = bbs_reach(start, successor_fn, leaf_check_fn, cost_fn, lower_bound_fn);
    let ghost from = tree;
    let ghost fns = Bounding { successor_fn, leaf_check_fn, cost_fn, lower_bound_fn };
    let best = find_best(&mut tree, leaf_check_fn, cost_fn, max_ops, time_limit);
    proof {
        let (seen, mid, last) = choose|
            seen: Seq<N>,
            mid: Reachable<BranchAndBoundContainer<C, N, FN, FL, FC, FC2>>,
            last: Option<N>,
        |
            {
                &&& #[trigger] yields(from, seen, mid)
                &&& mid.wf()
                &&& #[trigger] mid.pulls(last, &tree)
                &&& seen.len() <= max_ops
                &&& nanos_of(time_limit) == 0 ==> seen.len() == 0
                &&& best == best_leaf(seen, leaf_check_fn, cost_fn)
            };
        lemma_bbs_follows(fns, from, seen, mid);
        assert(visits(bbs_machine(fns), (seq![start], None::<C>), seen.len()) == seen);
    }
    best
}

} // verus!
