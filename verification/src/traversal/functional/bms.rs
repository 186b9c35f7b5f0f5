//! Beam search.

use crate::best::{best_leaf, cost_of, lemma_same_nodes_same_cost};
use crate::callback::{Flat, NodeFn, Successors};
use crate::clock::nanos_of;
use crate::exhaustive::{exhaustive, lemma_visits_all, step_expands};
use crate::model::{after, exhausted, fused, lemma_in_step, lemma_visits_end, Machine, visits};
use crate::order::{le, lemma_le_transitive, lemma_trichotomy, total_order};
use crate::ranked::{
    admitted, ascending, items, leading, lemma_admitted_ascending, lemma_admitted_items,
    lemma_merged_ascending, lemma_merged_items, lemma_merged_keeps_ascending, lemma_placed_last, lemma_slot, merge, merged,
    place_scored, placed, slot,
};
use crate::traversal::common::{lemma_follows, Traversal, yields};
use crate::tree::{
    closed_by, expands_to, lemma_expansion, lemma_reach_counts_children, lemma_reach_len, reach,
};
use crate::utils::ScoredItem;
use std::collections::VecDeque;
use std::time::Duration;
use super::bfs::{bfs_machine, lemma_bfs_visits_all};
use super::common::{find_best, NodeContainer, Reachable};
use super::gds::{best_scored, gds_machine, Greedy, greedy_choice};
use vstd::prelude::*;

verus! {

/// The frontier of a beam traversal: the batch of nodes that are visited
/// now, and the pool of scored nodes from which the next batch is drawn.
pub struct BmsContainer<N, FN, FC, C: Ord> {
    to_see: VecDeque<N>,
    successor_fn: FN,
    eval_fn: FC,
    branch_factor: usize,
    beam_width: usize,
    pool: Vec<ScoredItem<C, N>>,
}

/// The callbacks and the limits of a beam traversal.
pub struct Beam<FN, FC> {
    /// The successors of a node.
    pub successor_fn: FN,
    /// The score of a node; lower is better.
    pub eval_fn: FC,
    /// How many successors of one node enter the pool at most.
    pub branch_factor: usize,
    /// How many nodes of the pool form the next batch at most.
    pub beam_width: usize,
}

/// The batch and the pool of a beam traversal.
pub struct BeamState<C: Ord, N> {
    /// The nodes that are visited now, the next one first.
    pub batch: Seq<N>,
    /// The scored nodes from which the next batch is drawn, in ascending
    /// order of score.
    pub pool: Seq<ScoredItem<C, N>>,
}

/// The state with its batch refilled where it is empty: the `beam_width`
/// best of the pool form the batch, best first, and the rest of the pool is
/// dropped.
pub open spec fn refilled<C: Ord, N>(st: BeamState<C, N>, beam_width: usize) -> BeamState<C, N> {
    if st.batch.len() == 0 {
        BeamState { batch: items(leading(st.pool, beam_width as nat)), pool: Seq::empty() }
    } else {
        st
    }
}

/// The pool once the successors of `node` have been offered: those with a
/// score are ranked by it, and the `branch_factor` best enter the pool.
pub open spec fn pooled<C, N, FN, FC>(
    fns: Beam<FN, FC>,
    node: N,
    pool: Seq<ScoredItem<C, N>>,
) -> Seq<ScoredItem<C, N>> where C: Ord, FN: Successors<N>, FC: NodeFn<N, Output = Option<C>> {
    let ranked = admitted(Seq::empty(), fns.successor_fn.children(&node), fns.eval_fn);
    merged(pool, leading(ranked, fns.branch_factor as nat))
}

/// Beam order as a machine: the head of the batch is visited, after the
/// batch has been refilled where it was empty, and the best successors of
/// the visited node enter the pool.
pub open spec fn bms_machine<C, N, FN, FC>(fns: Beam<FN, FC>) -> Machine<BeamState<C, N>, N> where
    C: Ord,
    FN: Successors<N>,
    FC: NodeFn<N, Output = Option<C>>,
 {
    Machine {
        next: |st: BeamState<C, N>|
            {
                let ready = refilled(st, fns.beam_width);
                if ready.batch.len() == 0 {
                    None
                } else {
                    Some(ready.batch.first())
                }
            },
        step: |st: BeamState<C, N>|
            {
                let ready = refilled(st, fns.beam_width);
                if ready.batch.len() == 0 {
                    ready
                } else {
                    BeamState {
                        batch: ready.batch.drop_first(),
                        pool: pooled(fns, ready.batch.first(), ready.pool),
                    }
                }
            },
    }
}

/// The state that a beam traversal starts with: `start` in the batch, and
/// an empty pool.
pub open spec fn bms_start<C: Ord, N>(start: N) -> BeamState<C, N> {
    BeamState { batch: seq![start], pool: Seq::empty() }
}

impl<N, FN, FC, C> BmsContainer<N, FN, FC, C> where
    C: Ord + Copy,
    FN: Successors<N>,
    FC: NodeFn<N, Output = Option<C>>,
 {
    /// The batch and the pool.
    pub closed spec fn state(self) -> BeamState<C, N> {
        BeamState { batch: self.to_see@, pool: self.pool@ }
    }

    /// The callbacks and the limits.
    pub closed spec fn fns(self) -> Beam<FN, FC> {
        Beam {
            successor_fn: self.successor_fn,
            eval_fn: self.eval_fn,
            branch_factor: self.branch_factor,
            beam_width: self.beam_width,
        }
    }

    /// The frontier that holds `start` alone.
    pub fn new(
        start: N,
        successor_fn: FN,
        eval_fn: FC,
        branch_factor: usize,
        beam_width: usize,
    ) -> (frontier: Self)
        ensures
            frontier.state() == bms_start::<C, N>(start),
            frontier.fns() == (Beam { successor_fn, eval_fn, branch_factor, beam_width }),
            ascending(frontier.state().pool),
    {
        let mut to_see = VecDeque::new();
        to_see.push_back(start);
        Self { to_see, successor_fn, eval_fn, branch_factor, beam_width, pool: Vec::new() }
    }

    /// Draws the next batch from the pool.
    fn refill(&mut self)
        requires
            old(self).state().batch.len() == 0,
        ensures
            final(self).fns() == old(self).fns(),
            final(self).state() == refilled(old(self).state(), old(self).fns().beam_width),
    {
        let mut pool: Vec<ScoredItem<C, N>> = Vec::new();
        core::mem::swap(&mut pool, &mut self.pool);
        let ghost all = pool@;
        let ghost chosen = leading(all, self.beam_width as nat);
        let mut taken: usize = 0;
        for item in it: pool.into_iter()
            invariant
                it.seq() == all,
                self.fns() == old(self).fns(),
                self.pool@.len() == 0,
                chosen == leading(all, self.beam_width as nat),
                taken == if it.index() < self.beam_width {
                    it.index()
                } else {
                    self.beam_width as int
                },
                self.to_see@ == items(chosen.take(taken as int)),
        {
            if taken < self.beam_width {
                self.to_see.push_back(item.into_item());
                taken += 1;
                proof {
                    assert(self.to_see@ =~= items(chosen.take(taken as int)));
                }
            }
        }
        proof {
            assert(chosen.take(chosen.len() as int) == chosen);
            assert(self.pool@ =~= Seq::empty());
        }
    }
}

impl<N, FN, FC, C> NodeContainer for BmsContainer<N, FN, FC, C> where
    C: Ord + Copy,
    FN: Successors<N>,
    FC: NodeFn<N, Output = Option<C>>,
 {
    type Node = N;

    open spec fn wf(&self) -> bool {
        &&& total_order::<C>()
        &&& self.fns().successor_fn.is_expansion()
        &&& self.fns().eval_fn.is_function()
        &&& ascending(self.state().pool)
    }

    open spec fn pops(&self, next: Option<N>, after: &Self) -> bool {
        let ready = refilled(self.state(), self.fns().beam_width);
        &&& after.fns() == self.fns()
        &&& after.state().pool == ready.pool
        &&& if ready.batch.len() == 0 {
            next is None && after.state().batch == ready.batch
        } else {
            next == Some(ready.batch.first()) && after.state().batch == ready.batch.drop_first()
        }
    }

    open spec fn expands(&self, node: &N, after: &Self) -> bool {
        &&& after.fns() == self.fns()
        &&& after.state().batch == self.state().batch
        &&& after.state().pool == pooled(self.fns(), *node, self.state().pool)
    }

    fn pop(&mut self) -> (next: Option<N>) {
        if self.to_see.len() == 0 {
            self.refill();
        }
        let ghost ready = self.state();
        let next = self.to_see.pop_front();
        proof {
            if ready.batch.len() > 0 {
                assert(self.to_see@ == ready.batch.drop_first());
            }
        }
        next
    }

    fn expand_and_push(&mut self, node: &N) {
        let kids = self.successor_fn.successors(node);
        let mut ranked: Vec<ScoredItem<C, N>> = Vec::new();
        place_scored(&mut ranked, kids, &self.eval_fn);
        proof {
            lemma_merged_keeps_ascending(
                self.pool@,
                leading(ranked@, self.branch_factor as nat),
            );
        }
        merge(&mut self.pool, ranked, self.branch_factor);
    }
}

/// The beam traversal of the tree under `start`.
pub fn bms_reach<N, FN, FC, C>(
    start: N,
    successor_fn: FN,
    eval_fn: FC,
    branch_factor: usize,
    beam_width: usize,
) -> (tree: Reachable<BmsContainer<N, FN, FC, C>>) where
    C: Ord + Copy,
    FN: Successors<N>,
    FC: NodeFn<N, Output = Option<C>>,

    ensures
        tree.frontier().state() == bms_start::<C, N>(start),
        tree.frontier().fns() == (Beam { successor_fn, eval_fn, branch_factor, beam_width }),
{
    let container = BmsContainer::new(start, successor_fn, eval_fn, branch_factor, beam_width);
    Reachable::new(container)
}

/// Every pull of a beam traversal is a step of `bms_machine` on its batch
/// and pool.
pub proof fn lemma_bms_follows<C, N, FN, FC>(
    fns: Beam<FN, FC>,
    from: Reachable<BmsContainer<N, FN, FC, C>>,
    nodes: Seq<N>,
    to: Reachable<BmsContainer<N, FN, FC, C>>,
) where C: Ord + Copy, FN: Successors<N>, FC: NodeFn<N, Output = Option<C>>
    requires
        from.wf(),
        from.frontier().fns() == fns,
        yields(from, nodes, to),
    ensures
        to.frontier().fns() == fns,
        visits(bms_machine(fns), from.frontier().state(), nodes.len()) == nodes,
        after(bms_machine(fns), from.frontier().state(), nodes.len()) == to.frontier().state(),
        forall|last: Option<N>, end: Reachable<BmsContainer<N, FN, FC, C>>|
            to.wf() && #[trigger] to.pulls(last, &end) ==> last == (bms_machine(fns).next)(
                to.frontier().state(),
            ),
{
    let m = bms_machine::<C, N, FN, FC>(fns);
    let abs = |t: Reachable<BmsContainer<N, FN, FC, C>>| t.frontier().state();
    let inv = |t: Reachable<BmsContainer<N, FN, FC, C>>| t.frontier().fns() == fns;
    assert forall|
        a: Reachable<BmsContainer<N, FN, FC, C>>,
        next: Option<N>,
        b: Reachable<BmsContainer<N, FN, FC, C>>,
    |
        inv(a) && a.wf() && #[trigger] a.pulls(next, &b) implies inv(b) && next == (m.next)(
        abs(a),
    ) && abs(b) == (m.step)(abs(a)) by {
        let ready = refilled(abs(a), fns.beam_width);
        if ready.batch.len() == 0 {
            assert(abs(b) == ready);
        } else {
            assert(abs(b) == BeamState {
                batch: ready.batch.drop_first(),
                pool: pooled(fns, ready.batch.first(), ready.pool),
            });
        }
    }
    lemma_follows(m, abs, inv, from, nodes, to);
}

/// The batch that a beam frontier draws holds the lowest scores of the
/// pool: no entry that is drawn scores higher than one that is dropped.
pub proof fn lemma_bms_lowest_drawn<N, FN, FC, C>(
    frontier: BmsContainer<N, FN, FC, C>,
    drawn: int,
    dropped: int,
) where C: Ord + Copy, FN: Successors<N>, FC: NodeFn<N, Output = Option<C>>
    requires
        frontier.wf(),
        0 <= drawn < leading(frontier.state().pool, frontier.fns().beam_width as nat).len(),
        leading(frontier.state().pool, frontier.fns().beam_width as nat).len() <= dropped
            < frontier.state().pool.len(),
    ensures
        le(frontier.state().pool[drawn].0, frontier.state().pool[dropped].0),
{
}

/// A beam traversal that has ended stays ended.
pub proof fn lemma_bms_fused<C, N, FN, FC>(fns: Beam<FN, FC>) where
    C: Ord,
    FN: Successors<N>,
    FC: NodeFn<N, Output = Option<C>>,

    ensures
        fused(bms_machine(fns)),
{
    let m = bms_machine(fns);
    assert forall|st: BeamState<C, N>| #[trigger] (m.next)(st) is None implies (m.next)(
        (m.step)(st),
    ) is None by {
        let ready = refilled(st, fns.beam_width);
        assert((m.step)(st) == ready);
        if st.batch.len() == 0 {
            assert(leading(ready.pool, fns.beam_width as nat) =~= Seq::empty());
            assert(items(Seq::<ScoredItem<C, N>>::empty()) =~= Seq::<N>::empty());
        }
    }
}

/// The nodes that a beam traversal has still to visit: the batch, and
/// behind it the pool.
pub open spec fn beam_pending<C: Ord, N>(st: BeamState<C, N>) -> Seq<N> {
    st.batch + items(st.pool)
}

/// Whether the beam is cut nowhere: every node has a score, and neither
/// the branches nor the width are limited short of what a machine can
/// count.
pub open spec fn uncut<C, N, FN, FC>(fns: Beam<FN, FC>) -> bool where
    C: Ord,
    FN: Successors<N>,
    FC: NodeFn<N, Output = Option<C>>,
 {
    &&& forall|n: N| fns.eval_fn.value(&n) is Some
    &&& fns.branch_factor == usize::MAX
    &&& fns.beam_width == usize::MAX
}

/// A beam that is cut nowhere leaves no node out, on a tree with no more
/// nodes than a machine can count.
pub proof fn lemma_bms_exhaustive<C, N, FN, FC>(
    fns: Beam<FN, FC>,
    st: BeamState<C, N>,
    depth: nat,
) where
    C: Ord,
    FN: Successors<N>,
    FC: NodeFn<N, Output = Option<C>>,

    requires
        uncut(fns),
        reach(fns.successor_fn, beam_pending(st), depth).len() <= usize::MAX,
    ensures
        exhaustive(
            bms_machine(fns),
            fns.successor_fn,
            |a: BeamState<C, N>| beam_pending(a),
            st,
            depth,
        ),
{
    let m = bms_machine(fns);
    let s = fns.successor_fn;
    let pending = |a: BeamState<C, N>| beam_pending(a);
    assert forall|a: BeamState<C, N>|
        closed_by(s, pending(a), depth) && reach(s, pending(a), depth).len() <= reach(
            s,
            pending(st),
            depth,
        ).len() implies #[trigger] step_expands(m, s, pending, a) by {
        lemma_bms_step(fns, a, depth);
    }
}

/// One pull of a beam that is cut nowhere visits a pending node and makes
/// its successors pending instead.
pub proof fn lemma_bms_step<C, N, FN, FC>(fns: Beam<FN, FC>, a: BeamState<C, N>, depth: nat) where
    C: Ord,
    FN: Successors<N>,
    FC: NodeFn<N, Output = Option<C>>,

    requires
        uncut(fns),
        closed_by(fns.successor_fn, beam_pending(a), depth),
        reach(fns.successor_fn, beam_pending(a), depth).len() <= usize::MAX,
    ensures
        step_expands(bms_machine(fns), fns.successor_fn, |a: BeamState<C, N>| beam_pending(a), a),
{
    let m = bms_machine(fns);
    let s = fns.successor_fn;
    let was = beam_pending(a);
    lemma_reach_len(s, was, depth);
    let ready = refilled(a, fns.beam_width);
    assert(leading(a.pool, fns.beam_width as nat) == a.pool);
    assert(beam_pending(ready) =~= was);
    if was.len() > 0 {
        assert(ready.batch.len() > 0);
        let node = ready.batch.first();
        assert(was[0] == node);
        let kids = s.children(&node);
        lemma_reach_counts_children(s, was, node, depth);
        let ranked = admitted(Seq::<ScoredItem<C, N>>::empty(), kids, fns.eval_fn);
        lemma_admitted_items(Seq::<ScoredItem<C, N>>::empty(), kids, fns.eval_fn);
        assert(leading(ranked, fns.branch_factor as nat) == ranked);
        let pool = merged(ready.pool, ranked);
        lemma_merged_items(ready.pool, ranked);
        let now = ready.batch.drop_first() + items(pool);
        assert((m.step)(a) == BeamState { batch: ready.batch.drop_first(), pool });
        assert(beam_pending((m.step)(a)) == now);
        vstd::seq_lib::lemma_multiset_commutative(ready.batch.drop_first(), items(pool));
        vstd::seq_lib::lemma_multiset_commutative(ready.batch, items(ready.pool));
        vstd::seq_lib::to_multiset_remove(ready.batch, 0);
        vstd::seq_lib::to_multiset_contains(ready.batch, node);
        assert(ready.batch.remove(0) == ready.batch.drop_first());
        assert(ready.batch[0] == node);
        assert(ready.batch.drop_first().to_multiset().insert(node) =~= ready.batch.to_multiset());
        assert(items(Seq::<ScoredItem<C, N>>::empty()).to_multiset() =~= vstd::multiset::Multiset::<
            N,
        >::empty()) by {
            vstd::seq_lib::to_multiset_len(items(Seq::<ScoredItem<C, N>>::empty()));
        }
        assert(now.to_multiset().insert(node) =~= was.to_multiset().add(kids.to_multiset()));
        assert(expands_to(s, was, node, now));
    } else {
        assert(ready.batch.len() == 0);
    }
}

/// On a finite tree a beam that is cut nowhere visits every node once.
///
/// Where the tree under `start` ends within `depth` levels and has no more
/// nodes than a machine can count, pulls that are at least as many as the
/// tree has nodes hand out just the nodes of the tree, each as often as it
/// is generated.
pub proof fn lemma_bms_visits_all<C, N, FN, FC>(
    fns: Beam<FN, FC>,
    start: N,
    depth: nat,
    k: nat,
) where
    C: Ord,
    FN: Successors<N>,
    FC: NodeFn<N, Output = Option<C>>,

    requires
        uncut(fns),
        closed_by(fns.successor_fn, seq![start], depth),
        reach(fns.successor_fn, seq![start], depth).len() <= usize::MAX,
        k >= reach(fns.successor_fn, seq![start], depth).len(),
    ensures
        visits(bms_machine(fns), bms_start::<C, N>(start), k).to_multiset() == reach(
            fns.successor_fn,
            seq![start],
            depth,
        ),
        visits(bms_machine(fns), bms_start::<C, N>(start), k).len() == reach(
            fns.successor_fn,
            seq![start],
            depth,
        ).len(),
{
    let m = bms_machine(fns);
    let pending = |a: BeamState<C, N>| beam_pending(a);
    let st = bms_start::<C, N>(start);
    assert(beam_pending(st) =~= seq![start]);
    let size = reach(fns.successor_fn, seq![start], depth).len();
    lemma_bms_exhaustive(fns, st, depth);
    lemma_visits_all(m, fns.successor_fn, pending, st, depth);
    lemma_visits_end(m, st, size, k);
}

/// On a finite tree, a beam that is cut nowhere finds a leaf of the same
/// cost as breadth-first search does.
///
/// This holds of searches that run to the end: `k`, the number of nodes
/// that each may process, is at least the number of nodes of the tree.
pub proof fn lemma_uncut_beam_matches_bfs<C, N, FN, FC, FL, FC2>(
    fns: Beam<FN, FC>,
    leaf_check_fn: FL,
    cost_fn: FC2,
    start: N,
    depth: nat,
    k: nat,
) where
    C: Ord,
    FN: Successors<N>,
    FC: NodeFn<N, Output = Option<C>>,
    FL: NodeFn<N, Output = bool>,
    FC2: NodeFn<N, Output = Option<C>>,

    requires
        total_order::<C>(),
        uncut(fns),
        closed_by(fns.successor_fn, seq![start], depth),
        reach(fns.successor_fn, seq![start], depth).len() <= usize::MAX,
        k >= reach(fns.successor_fn, seq![start], depth).len(),
    ensures
        cost_of(
            best_leaf(
                visits(bms_machine(fns), bms_start::<C, N>(start), k),
                leaf_check_fn,
                cost_fn,
            ),
        ) == cost_of(
            best_leaf(
                visits(bfs_machine(fns.successor_fn), seq![start], k),
                leaf_check_fn,
                cost_fn,
            ),
        ),
{
    lemma_bms_visits_all(fns, start, depth, k);
    lemma_bfs_visits_all(fns.successor_fn, start, depth, k);
    lemma_same_nodes_same_cost(
        visits(bms_machine(fns), bms_start::<C, N>(start), k),
        visits(bfs_machine(fns.successor_fn), seq![start], k),
        leaf_check_fn,
        cost_fn,
    );
}

/// The first of the ranked nodes is the best-scoring node.
pub proof fn lemma_first_ranked<C: Ord, N, FC: NodeFn<N, Output = Option<C>>>(
    nodes: Seq<N>,
    eval_fn: FC,
)
    requires
        total_order::<C>(),
    ensures
        match best_scored(nodes, eval_fn) {
            Some(best) => {
                let ranked = admitted(Seq::empty(), nodes, eval_fn);
                ranked.len() > 0 && ranked[0] == ScoredItem(best.0, best.1)
            },
            None => admitted(Seq::empty(), nodes, eval_fn).len() == 0,
        },
    decreases nodes.len(),
{
    if nodes.len() > 0 {
        let front = nodes.drop_last();
        let before = admitted(Seq::<ScoredItem<C, N>>::empty(), front, eval_fn);
        lemma_first_ranked(front, eval_fn);
        lemma_admitted_ascending(Seq::<ScoredItem<C, N>>::empty(), front, eval_fn);
        match eval_fn.value(&nodes.last()) {
            Some(score) => {
                let item = ScoredItem(score, nodes.last());
                lemma_slot(before, score);
                let at = slot(before, score);
                if before.len() > 0 {
                    lemma_trichotomy(score, before[0].0);
                    if at > 0 {
                        lemma_trichotomy(before[0].0, before[at - 1].0);
                        lemma_le_transitive(before[0].0, before[at - 1].0, score);
                        assert(placed(before, item)[0] == before[0]);
                    } else {
                        assert(placed(before, item)[0] == item);
                    }
                } else {
                    assert(placed(before, item)[0] == item);
                }
            },
            None => {},
        }
    }
}

/// A beam that is one node wide is a greedy traversal.
///
/// Where at least one successor of each node may enter the pool and the
/// beam is one node wide, the beam visits the nodes that a greedy
/// traversal with the same callbacks visits.
pub proof fn lemma_narrow_beam_is_greedy<C, N, FN, FC>(fns: Beam<FN, FC>, start: N, k: nat) where
    C: Ord,
    FN: Successors<N>,
    FC: NodeFn<N, Output = Option<C>>,

    requires
        total_order::<C>(),
        fns.branch_factor >= 1,
        fns.beam_width == 1,
    ensures
        visits(bms_machine(fns), bms_start::<C, N>(start), k) == visits(
            gds_machine(Greedy { successor_fn: fns.successor_fn, eval_fn: fns.eval_fn }),
            Some(start),
            k,
        ),
        exhausted(bms_machine(fns), bms_start::<C, N>(start), k) == exhausted(
            gds_machine(Greedy { successor_fn: fns.successor_fn, eval_fn: fns.eval_fn }),
            Some(start),
            k,
        ),
{
    let beam = bms_machine(fns);
    let greedy = Greedy { successor_fn: fns.successor_fn, eval_fn: fns.eval_fn };
    let single = gds_machine(greedy);
    let rel = |st: BeamState<C, N>|
        if st.batch.len() > 0 {
            Some(st.batch[0])
        } else if st.pool.len() > 0 {
            Some(st.pool[0].1)
        } else {
            None
        };
    let inv = |st: BeamState<C, N>|
        st.batch.len() <= 1 && (st.batch.len() == 1 ==> st.pool.len() == 0);
    assert forall|a: BeamState<C, N>| #[trigger] inv(a) implies inv((beam.step)(a)) && (
    beam.next)(a) == (single.next)(rel(a)) && rel((beam.step)(a)) == (single.step)(rel(a)) by {
        let ready = refilled(a, fns.beam_width);
        if a.batch.len() == 0 {
            assert(leading(a.pool, 1) =~= if a.pool.len() > 0 {
                seq![a.pool[0]]
            } else {
                Seq::empty()
            });
            assert(ready.batch =~= if a.pool.len() > 0 {
                seq![a.pool[0].1]
            } else {
                Seq::empty()
            });
        }
        if ready.batch.len() > 0 {
            let node = ready.batch.first();
            assert(ready.pool.len() == 0);
            assert(ready.pool =~= Seq::empty());
            let kids = fns.successor_fn.children(&node);
            let ranked = admitted(Seq::<ScoredItem<C, N>>::empty(), kids, fns.eval_fn);
            let chosen = leading(ranked, fns.branch_factor as nat);
            lemma_first_ranked(kids, fns.eval_fn);
            lemma_admitted_ascending(Seq::<ScoredItem<C, N>>::empty(), kids, fns.eval_fn);
            assert(ascending(chosen)) by {
                assert forall|i: int, j: int| 0 <= i < j < chosen.len() implies le(
                    chosen[i].0,
                    chosen[j].0,
                ) by {
                    assert(chosen[i] == ranked[i] && chosen[j] == ranked[j]);
                }
            }
            lemma_merged_ascending(chosen);
            assert(pooled(fns, node, ready.pool) == chosen);
            assert(ready.batch.drop_first().len() == 0);
            if ranked.len() > 0 {
                assert(chosen[0] == ranked[0]);
            }
            assert(rel((beam.step)(a)) == greedy_choice(greedy, node));
        } else {
            assert(a.pool.len() == 0);
        }
    }
    lemma_in_step(beam, single, rel, inv, bms_start::<C, N>(start), k);
}

/// Whether every entry scores `flat`.
pub open spec fn all_flat<C: Ord, N>(entries: Seq<ScoredItem<C, N>>, flat: C) -> bool {
    forall|i: int| 0 <= i < entries.len() ==> (#[trigger] entries[i]).0 == flat
}

/// Nodes that all score the same are put behind the entries that score
/// the same, in their own order.
proof fn lemma_flat_admitted<C: Ord + Copy, N>(
    entries: Seq<ScoredItem<C, N>>,
    nodes: Seq<N>,
    flat: C,
)
    requires
        total_order::<C>(),
        all_flat(entries, flat),
    ensures
        all_flat(admitted(entries, nodes, Flat(flat)), flat),
        items(admitted(entries, nodes, Flat(flat))) == items(entries) + nodes,
        admitted(entries, nodes, Flat(flat)).len() == entries.len() + nodes.len(),
    decreases nodes.len(),
{
    lemma_trichotomy(flat, flat);
    if nodes.len() == 0 {
        assert(items(entries) + nodes =~= items(entries));
    } else {
        let front = nodes.drop_last();
        lemma_flat_admitted(entries, front, flat);
        let before = admitted(entries, front, Flat(flat));
        let item = ScoredItem(flat, nodes.last());
        lemma_placed_last(before, item);
        assert(items(before.push(item)) =~= items(before).push(item.1));
        assert(front.push(nodes.last()) == nodes);
        assert((items(entries) + front).push(nodes.last()) =~= items(entries) + nodes);
    }
}

/// Entries that all score the same are put behind the entries that score
/// the same, in their own order.
proof fn lemma_flat_merged<C: Ord, N>(
    entries: Seq<ScoredItem<C, N>>,
    more: Seq<ScoredItem<C, N>>,
    flat: C,
)
    requires
        total_order::<C>(),
        all_flat(entries, flat),
        all_flat(more, flat),
    ensures
        merged(entries, more) == entries + more,
    decreases more.len(),
{
    lemma_trichotomy(flat, flat);
    if more.len() == 0 {
        assert(entries + more =~= entries);
    } else {
        let front = more.drop_last();
        lemma_flat_merged(entries, front, flat);
        let before = entries + front;
        if before.len() > 0 {
            assert(before.last().0 == flat);
        }
        lemma_placed_last(before, more.last());
        assert(before.push(more.last()) =~= entries + more);
    }
}

/// A beam that is cut nowhere, and in which all nodes score the same, is
/// a breadth-first traversal.
///
/// On a tree that ends within `depth` levels and has no more nodes than a
/// machine can count, the beam visits the nodes in the order in which a
/// breadth-first traversal visits them.
pub proof fn lemma_flat_beam_is_bfs<C, N, FN>(
    successor_fn: FN,
    flat: C,
    start: N,
    depth: nat,
    k: nat,
) where C: Ord + Copy, FN: Successors<N>
    requires
        total_order::<C>(),
        closed_by(successor_fn, seq![start], depth),
        reach(successor_fn, seq![start], depth).len() <= usize::MAX,
    ensures
        visits(
            bms_machine(
                Beam {
                    successor_fn,
                    eval_fn: Flat(flat),
                    branch_factor: usize::MAX,
                    beam_width: usize::MAX,
                },
            ),
            bms_start::<C, N>(start),
            k,
        ) == visits(bfs_machine(successor_fn), seq![start], k),
{
    let fns = Beam {
        successor_fn,
        eval_fn: Flat(flat),
        branch_factor: usize::MAX,
        beam_width: usize::MAX,
    };
    let beam = bms_machine(fns);
    let wide = bfs_machine(successor_fn);
    let rel = |st: BeamState<C, N>| beam_pending(st);
    let inv = |st: BeamState<C, N>|
        closed_by(successor_fn, beam_pending(st), depth) && reach(
            successor_fn,
            beam_pending(st),
            depth,
        ).len() <= usize::MAX && all_flat(st.pool, flat);
    assert forall|a: BeamState<C, N>| #[trigger] inv(a) implies inv((beam.step)(a)) && (
    beam.next)(a) == (wide.next)(rel(a)) && rel((beam.step)(a)) == (wide.step)(rel(a)) by {
        let was = beam_pending(a);
        lemma_reach_len(successor_fn, was, depth);
        let ready = refilled(a, fns.beam_width);
        assert(leading(a.pool, fns.beam_width as nat) == a.pool);
        assert(beam_pending(ready) =~= was);
        if was.len() > 0 {
            let node = ready.batch.first();
            assert(was[0] == node);
            let kids = successor_fn.children(&node);
            lemma_reach_counts_children(successor_fn, was, node, depth);
            let none = Seq::<ScoredItem<C, N>>::empty();
            let ranked = admitted(none, kids, Flat(flat));
            lemma_flat_admitted(none, kids, flat);
            assert(items(none) + kids =~= kids);
            assert(leading(ranked, fns.branch_factor as nat) == ranked);
            lemma_flat_merged(ready.pool, ranked, flat);
            let pool = ready.pool + ranked;
            assert((beam.step)(a) == BeamState { batch: ready.batch.drop_first(), pool });
            assert(items(pool) =~= items(ready.pool) + kids);
            assert(beam_pending((beam.step)(a)) =~= was.drop_first() + kids);
            lemma_bms_step(fns, a, depth);
            lemma_expansion(successor_fn, was, node, beam_pending((beam.step)(a)), depth);
        } else {
            assert((beam.step)(a) == ready);
            assert(ready.pool =~= a.pool);
        }
    }
    assert(beam_pending(bms_start::<C, N>(start)) =~= seq![start]);
    lemma_in_step(beam, wide, rel, inv, bms_start::<C, N>(start), k);
}

/// Finds a cheap leaf by beam search, within a budget.
///
/// The nodes are visited generation by generation from `start`. Of the
/// successors of a node the `branch_factor` of lowest score are kept, and of
/// all that are kept in one generation the `beam_width` of lowest score
/// form the next one. The result is the cheapest leaf among the first `k`
/// visited nodes, the first such leaf where several cost the same. The
/// search processes at most `max_ops` nodes, and none where `time_limit` is
/// zero; beyond that `k` depends on the clock.
pub fn bms<N, FN, FC1, FC2, C, FR>(
    start: N,
    successor_fn: FN,
    leaf_check_fn: FR,
    cost_fn: FC2,
    eval_fn: FC1,
    branch_factor: usize,
    beam_width: usize,
    max_ops: usize,
    time_limit: Duration,
) -> (best: Option<(C, N)>) where
    C: Ord + Copy,
    FN: Successors<N>,
    FC1: NodeFn<N, Output = Option<C>>,
    FC2: NodeFn<N, Output = Option<C>>,
    FR: NodeFn<N, Output = bool>,

    requires
        successor_fn.is_expansion(),
        leaf_check_fn.is_function(),
        cost_fn.is_function(),
        eval_fn.is_function(),
        total_order::<C>(),
    ensures
        exists|k: nat|
            {
                &&& k <= max_ops
                &&& nanos_of(time_limit) == 0 ==> k == 0
                &&& best == best_leaf(
                    #[trigger] visits(
                        bms_machine(Beam { successor_fn, eval_fn, branch_factor, beam_width }),
                        bms_start::<C, N>(start),
                        k,
                    ),
                    leaf_check_fn,
                    cost_fn,
                )
            },
        max_ops == 0 ==> best is None,
{
    let mut tree = bms_reach(start, successor_fn, eval_fn, branch_factor, beam_width);
    let ghost from = tree;
    let ghost fns = Beam { successor_fn, eval_fn, branch_factor, beam_width };
    let best = find_best(&mut tree, leaf_check_fn, cost_fn, max_ops, time_limit);
    proof {
        let (seen, mid, last) = choose|
            seen: Seq<N>,
            mid: Reachable<BmsContainer<N, FN, FC1, C>>,
            last: Option<N>,
        |
            {
                &&& #[trigger] yields(from, seen, mid)
                &&& mid.wf()
                &&& #[trigger] mid.pulls(last, &tree)
                &&& seen.len() <= max_ops
                &&& nanos_of(time_limit) == 0 ==> seen.len() == 0
                &&& best == best_leaf(seen, leaf_check_fn, cost_fn)
            };
        lemma_bms_follows(fns, from, seen, mid);
        assert(visits(bms_machine(fns), bms_start::<C, N>(start), seen.len()) == seen);
    }
    best
}

} // verus!
