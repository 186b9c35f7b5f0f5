//! The best leaves among the nodes that a search has processed.
//!
//! A processed node counts where it is a leaf and has a cost. A search
//! retains the cheapest of these, cheapest first; of leaves of equal cost
//! the one that was processed first comes first, and stays where room
//! runs out.

use crate::callback::NodeFn;
use crate::model::{lemma_visits_prefix, Machine, visits};
use crate::order::{le, lemma_le_transitive, lemma_lt_transitive, lemma_trichotomy, lt, total_order};
use crate::ranked::{ascending, lemma_placed_ascending, lemma_slot, placed, slot};
use crate::utils::ScoredItem;
use vstd::prelude::*;

verus! {

/// The leaf that `node` is, scored by its cost; nothing where the node is
/// no leaf or has no cost.
pub open spec fn candidate<C, N, FL, FC>(
    leaf: FL,
    cost: FC,
    node: N,
) -> Option<ScoredItem<C, N>> where
    C: Ord,
    FL: NodeFn<N, Output = bool>,
    FC: NodeFn<N, Output = Option<C>>,
 {
    if leaf.value(&node) {
        match cost.value(&node) {
            Some(c) => Some(ScoredItem(c, node)),
            None => None,
        }
    } else {
        None
    }
}

/// The retained leaves once `item` has been offered: `item` is put in its
/// slot, and the last entry leaves where there are then more than `size`.
pub open spec fn kept<C: Ord, N>(
    entries: Seq<ScoredItem<C, N>>,
    item: ScoredItem<C, N>,
    size: nat,
) -> Seq<ScoredItem<C, N>> {
    let all = placed(entries, item);
    if all.len() > size {
        all.drop_last()
    } else {
        all
    }
}

/// The leaves retained once the nodes `seen` have been processed in order,
/// with room for `size` leaves: cheapest first, and among leaves of equal
/// cost the one seen first.
pub open spec fn retained<C, N, FL, FC>(
    seen: Seq<N>,
    leaf: FL,
    cost: FC,
    size: nat,
) -> Seq<ScoredItem<C, N>> where
    C: Ord,
    FL: NodeFn<N, Output = bool>,
    FC: NodeFn<N, Output = Option<C>>,

    decreases seen.len(),
{
    if seen.len() == 0 {
        Seq::empty()
    } else {
        let before = retained(seen.drop_last(), leaf, cost, size);
        match candidate(leaf, cost, seen.last()) {
            Some(item) => kept(before, item, size),
            None => before,
        }
    }
}

/// The cheapest leaf among `seen`, with its cost; of leaves of equal cost
/// the one seen first. Nothing where no node of `seen` is a leaf with a
/// cost.
pub open spec fn best_leaf<C, N, FL, FC>(
    seen: Seq<N>,
    leaf: FL,
    cost: FC,
) -> Option<(C, N)> where
    C: Ord,
    FL: NodeFn<N, Output = bool>,
    FC: NodeFn<N, Output = Option<C>>,

    decreases seen.len(),
{
    if seen.len() == 0 {
        None
    } else {
        let before = best_leaf(seen.drop_last(), leaf, cost);
        match candidate(leaf, cost, seen.last()) {
            Some(item) => match before {
                Some(best) => if lt(item.0, best.0) {
                    Some((item.0, item.1))
                } else {
                    before
                },
                None => Some((item.0, item.1)),
            },
            None => before,
        }
    }
}

/// The entries as pairs of cost and node.
pub open spec fn pairs<C: Ord, N>(entries: Seq<ScoredItem<C, N>>) -> Seq<(C, N)> {
    Seq::new(entries.len(), |i: int| (entries[i].0, entries[i].1))
}

/// With room for no leaf nothing is retained; with room for some, never
/// more than that.
pub proof fn lemma_retained_len<C, N, FL, FC>(
    seen: Seq<N>,
    leaf: FL,
    cost: FC,
    size: nat,
) where
    C: Ord,
    FL: NodeFn<N, Output = bool>,
    FC: NodeFn<N, Output = Option<C>>,

    ensures
        retained(seen, leaf, cost, size).len() <= size,
        retained(seen, leaf, cost, size).len() <= seen.len(),
    decreases seen.len(),
{
    if seen.len() > 0 {
        lemma_retained_len(seen.drop_last(), leaf, cost, size);
        crate::ranked::lemma_slot(
            retained(seen.drop_last(), leaf, cost, size),
            cost.value(&seen.last()).unwrap(),
        );
    }
}

/// The retained leaves come cheapest first.
pub proof fn lemma_retained_ascending<C: Ord, N, FL, FC>(
    seen: Seq<N>,
    leaf: FL,
    cost: FC,
    size: nat,
) where FL: NodeFn<N, Output = bool>, FC: NodeFn<N, Output = Option<C>>
    requires
        total_order::<C>(),
    ensures
        ascending(retained(seen, leaf, cost, size)),
    decreases seen.len(),
{
    if seen.len() > 0 {
        let before = retained(seen.drop_last(), leaf, cost, size);
        lemma_retained_ascending(seen.drop_last(), leaf, cost, size);
        match candidate(leaf, cost, seen.last()) {
            Some(item) => {
                lemma_placed_ascending(before, item);
                let all = placed(before, item);
                let now = kept(before, item, size);
                assert forall|i: int, j: int| 0 <= i < j < now.len() implies le(
                    now[i].0,
                    now[j].0,
                ) by {
                    assert(now[i] == all[i] && now[j] == all[j]);
                }
            },
            None => {},
        }
    }
}

/// The retained leaves are the cheapest that were seen.
///
/// Every leaf with a cost among `seen` is retained, or the room is used up
/// and the leaf costs at least as much as each retained leaf.
pub proof fn lemma_retained_cheapest<C: Ord, N, FL, FC>(
    seen: Seq<N>,
    leaf: FL,
    cost: FC,
    size: nat,
    at: int,
) where FL: NodeFn<N, Output = bool>, FC: NodeFn<N, Output = Option<C>>
    requires
        total_order::<C>(),
        0 <= at < seen.len(),
    ensures
        match candidate(leaf, cost, seen[at]) {
            Some(item) => {
                let found = retained(seen, leaf, cost, size);
                ||| found.contains(item)
                ||| found.len() == size && forall|i: int|
                    0 <= i < found.len() ==> le(#[trigger] found[i].0, item.0)
            },
            None => true,
        },
    decreases seen.len(),
{
    let front = seen.drop_last();
    let before = retained(front, leaf, cost, size);
    let found = retained(seen, leaf, cost, size);
    lemma_retained_ascending(front, leaf, cost, size);
    lemma_retained_ascending(seen, leaf, cost, size);
    lemma_retained_len(front, leaf, cost, size);
    lemma_retained_len(seen, leaf, cost, size);
    match candidate(leaf, cost, seen.last()) {
        Some(new) => {
            let all = placed(before, new);
            let spot = slot(before, new.0);
            lemma_slot(before, new.0);
            lemma_placed_ascending(before, new);
            assert(all.len() == before.len() + 1);
            assert(all[spot] == new);
            if at == seen.len() - 1 {
                if all.len() > size {
                    if spot < found.len() {
                        assert(found[spot] == new);
                    } else {
                        assert forall|i: int| 0 <= i < found.len() implies le(
                            #[trigger] found[i].0,
                            new.0,
                        ) by {
                            assert(found[i] == all[i]);
                        }
                    }
                } else {
                    assert(found[spot] == new);
                }
            } else {
                assert(front[at] == seen[at]);
                lemma_retained_cheapest(front, leaf, cost, size, at);
                match candidate(leaf, cost, seen[at]) {
                    Some(item) => {
                        if before.contains(item) {
                            let was = choose|i: int| 0 <= i < before.len() && before[i] == item;
                            let is = if was < spot {
                                was
                            } else {
                                was + 1
                            };
                            assert(all[is] == item);
                            if is < found.len() {
                                assert(found[is] == item);
                            } else {
                                assert forall|i: int| 0 <= i < found.len() implies le(
                                    #[trigger] found[i].0,
                                    item.0,
                                ) by {
                                    assert(found[i] == all[i]);
                                }
                            }
                        } else {
                            assert forall|i: int| 0 <= i < found.len() implies le(
                                #[trigger] found[i].0,
                                item.0,
                            ) by {
                                assert(found[i] == all[i]);
                                if i < spot {
                                    assert(all[i] == before[i]);
                                } else if i == spot {
                                    lemma_trichotomy(new.0, before[spot].0);
                                    lemma_le_transitive(new.0, before[spot].0, item.0);
                                } else {
                                    assert(all[i] == before[i - 1]);
                                }
                            }
                        }
                    },
                    None => {},
                }
            }
        },
        None => {
            if at < seen.len() - 1 {
                assert(front[at] == seen[at]);
                lemma_retained_cheapest(front, leaf, cost, size, at);
            }
        },
    }
}

/// With room for one leaf, what is retained is the cheapest leaf seen, the
/// first of them where several cost the same.
pub proof fn lemma_retained_one<C, N, FL, FC>(
    seen: Seq<N>,
    leaf: FL,
    cost: FC,
) where
    C: Ord,
    FL: NodeFn<N, Output = bool>,
    FC: NodeFn<N, Output = Option<C>>,

    ensures
        pairs(retained(seen, leaf, cost, 1)) == match best_leaf(seen, leaf, cost) {
            Some(best) => seq![best],
            None => Seq::empty(),
        },
    decreases seen.len(),
{
    if seen.len() == 0 {
        assert(pairs(retained(seen, leaf, cost, 1)) == Seq::<(C, N)>::empty());
    } else {
        let front = seen.drop_last();
        lemma_retained_one(front, leaf, cost);
        lemma_retained_len(front, leaf, cost, 1);
        let before = retained(front, leaf, cost, 1);
        match candidate(leaf, cost, seen.last()) {
            Some(item) => {
                let now = kept(before, item, 1);
                if before.len() == 0 {
                    assert(placed(before, item) == seq![item]);
                    assert(pairs(now) == seq![(item.0, item.1)]);
                } else {
                    assert(before.len() == 1);
                    assert(pairs(before) =~= seq![(before[0].0, before[0].1)]);
                    assert(before.last() == before[0]);
                    assert(slot(before.drop_last(), item.0) == 0);
                    if lt(item.0, before[0].0) {
                        assert(now =~= seq![item]);
                        assert(pairs(now) == seq![(item.0, item.1)]);
                    } else {
                        assert(now =~= before);
                    }
                }
            },
            None => {},
        }
    }
}

/// The cost of a found leaf.
pub open spec fn cost_of<C, N>(found: Option<(C, N)>) -> Option<C> {
    match found {
        Some(best) => Some(best.0),
        None => None,
    }
}

/// The found leaf, where it is strictly cheaper than `top`; else nothing.
pub open spec fn under<C: Ord, N>(found: Option<(C, N)>, top: C) -> Option<(C, N)> {
    match found {
        Some(best) => if lt(best.0, top) {
            found
        } else {
            None
        },
        None => None,
    }
}

/// The cost that a further leaf has to beat: that of the found leaf, or
/// `top` where nothing is found.
pub open spec fn bar<C: Ord, N>(found: Option<(C, N)>, top: C) -> C {
    match found {
        Some(best) => best.0,
        None => top,
    }
}

/// The best leaf under a ceiling, one node on: the node takes the place of
/// the best leaf where it is a leaf that beats the bar, and else the best
/// leaf stays.
pub proof fn lemma_under_push<C: Ord, N, FL, FC>(
    seen: Seq<N>,
    node: N,
    leaf: FL,
    cost: FC,
    top: C,
) where
    FL: NodeFn<N, Output = bool>,
    FC: NodeFn<N, Output = Option<C>>,

    requires
        total_order::<C>(),
    ensures
        under(best_leaf(seen.push(node), leaf, cost), top) == match candidate(leaf, cost, node) {
            Some(item) => if lt(item.0, bar(under(best_leaf(seen, leaf, cost), top), top)) {
                Some((item.0, item.1))
            } else {
                under(best_leaf(seen, leaf, cost), top)
            },
            None => under(best_leaf(seen, leaf, cost), top),
        },
{
    let grown = seen.push(node);
    assert(grown.drop_last() == seen);
    assert(grown.last() == node);
    match (candidate(leaf, cost, node), best_leaf(seen, leaf, cost)) {
        (Some(item), Some(best)) => {
            lemma_trichotomy(item.0, best.0);
            lemma_trichotomy(item.0, top);
            lemma_trichotomy(best.0, top);
            if lt(item.0, best.0) && lt(best.0, top) {
                lemma_lt_transitive(item.0, best.0, top);
            }
            if lt(item.0, top) && !lt(best.0, top) {
                lemma_le_transitive(item.0, top, best.0);
            }
        },
        _ => {},
    }
}

/// Whether the result `a` is at least as good as the result `b`: `b` found
/// nothing, or `a` found a leaf that costs no more.
pub open spec fn no_worse<C: Ord, N>(a: Option<(C, N)>, b: Option<(C, N)>) -> bool {
    match (a, b) {
        (Some(x), Some(y)) => le(x.0, y.0),
        (None, Some(_)) => false,
        _ => true,
    }
}

/// Where the best leaf stands in `seen`; `-1` where there is none.
pub open spec fn best_position<C: Ord, N, FL, FC>(seen: Seq<N>, leaf: FL, cost: FC) -> int where
    FL: NodeFn<N, Output = bool>,
    FC: NodeFn<N, Output = Option<C>>,

    decreases seen.len(),
{
    if seen.len() == 0 {
        -1
    } else {
        let before = best_position(seen.drop_last(), leaf, cost);
        match candidate(leaf, cost, seen.last()) {
            Some(item) => if before < 0 || lt(
                item.0,
                candidate(leaf, cost, seen[before]).unwrap().0,
            ) {
                seen.len() - 1
            } else {
                before
            },
            None => before,
        }
    }
}

/// Whether no leaf with a cost stands in `seen` before `end` that is as
/// cheap as `c`, and none from `end` on that is cheaper.
pub open spec fn first_cheapest<C: Ord, N, FL, FC>(
    seen: Seq<N>,
    leaf: FL,
    cost: FC,
    end: int,
    c: C,
) -> bool where FL: NodeFn<N, Output = bool>, FC: NodeFn<N, Output = Option<C>> {
    forall|j: int|
        0 <= j < seen.len() ==> match #[trigger] candidate(leaf, cost, seen[j]) {
            Some(item) => if j < end {
                lt(c, item.0)
            } else {
                le(c, item.0)
            },
            None => true,
        }
}

/// The best leaf stands at the best position.
pub proof fn lemma_best_position<C: Ord, N, FL, FC>(seen: Seq<N>, leaf: FL, cost: FC) where
    FL: NodeFn<N, Output = bool>,
    FC: NodeFn<N, Output = Option<C>>,

    ensures
        -1 <= best_position(seen, leaf, cost) < seen.len(),
        match best_leaf(seen, leaf, cost) {
            Some(best) => {
                &&& best_position(seen, leaf, cost) >= 0
                &&& candidate(leaf, cost, seen[best_position(seen, leaf, cost)]) == Some(
                    ScoredItem(best.0, best.1),
                )
            },
            None => best_position(seen, leaf, cost) == -1,
        },
    decreases seen.len(),
{
    if seen.len() > 0 {
        let front = seen.drop_last();
        lemma_best_position(front, leaf, cost);
        let before = best_position(front, leaf, cost);
        if before >= 0 {
            assert(front[before] == seen[before]);
        }
    }
}

/// The best leaf is the first of the cheapest leaves.
///
/// Where some node of `seen` is a leaf with a cost, the best leaf is such a
/// node: it is strictly cheaper than every such node before it, and costs
/// no more than any such node after it. Where none is, there is no best
/// leaf.
pub proof fn lemma_best_leaf_minimal<C: Ord, N, FL, FC>(seen: Seq<N>, leaf: FL, cost: FC) where
    FL: NodeFn<N, Output = bool>,
    FC: NodeFn<N, Output = Option<C>>,

    requires
        total_order::<C>(),
    ensures
        match best_leaf(seen, leaf, cost) {
            Some(best) => first_cheapest(
                seen,
                leaf,
                cost,
                best_position(seen, leaf, cost),
                best.0,
            ),
            None => forall|j: int|
                0 <= j < seen.len() ==> #[trigger] candidate(leaf, cost, seen[j]) is None,
        },
    decreases seen.len(),
{
    if seen.len() > 0 {
        let front = seen.drop_last();
        let end = seen.len() - 1;
        lemma_best_leaf_minimal(front, leaf, cost);
        lemma_best_position(front, leaf, cost);
        lemma_best_position(seen, leaf, cost);
        assert(front.len() == end);
        assert forall|j: int| 0 <= j < end implies #[trigger] seen[j] == front[j] by {}
        let at = best_position(seen, leaf, cost);
        match best_leaf(seen, leaf, cost) {
            Some(best) => {
                assert forall|j: int| 0 <= j < seen.len() implies match #[trigger] candidate(
                    leaf,
                    cost,
                    seen[j],
                ) {
                    Some(item) => if j < at {
                        lt(best.0, item.0)
                    } else {
                        le(best.0, item.0)
                    },
                    None => true,
                } by {
                    lemma_step_minimal(seen, leaf, cost, j);
                }
            },
            None => {
                assert forall|j: int| 0 <= j < seen.len() implies #[trigger] candidate(
                    leaf,
                    cost,
                    seen[j],
                ) is None by {
                    if j < end {
                        assert(seen[j] == front[j]);
                    }
                }
            },
        }
    }
}

/// One step of `lemma_best_leaf_minimal`: the claim for the node at `j`,
/// given the claim for the list without its last node.
proof fn lemma_step_minimal<C: Ord, N, FL, FC>(seen: Seq<N>, leaf: FL, cost: FC, j: int) where
    FL: NodeFn<N, Output = bool>,
    FC: NodeFn<N, Output = Option<C>>,

    requires
        total_order::<C>(),
        0 <= j < seen.len(),
        best_leaf(seen, leaf, cost) is Some,
        match best_leaf(seen.drop_last(), leaf, cost) {
            Some(best) => first_cheapest(
                seen.drop_last(),
                leaf,
                cost,
                best_position(seen.drop_last(), leaf, cost),
                best.0,
            ),
            None => forall|i: int|
                0 <= i < seen.drop_last().len() ==> #[trigger] candidate(
                    leaf,
                    cost,
                    seen.drop_last()[i],
                ) is None,
        },
    ensures
        match candidate(leaf, cost, seen[j]) {
            Some(item) => if j < best_position(seen, leaf, cost) {
                lt(best_leaf(seen, leaf, cost).unwrap().0, item.0)
            } else {
                le(best_leaf(seen, leaf, cost).unwrap().0, item.0)
            },
            None => true,
        },
{
    let front = seen.drop_last();
    let end = seen.len() - 1;
    let best = best_leaf(seen, leaf, cost).unwrap();
    lemma_best_position(front, leaf, cost);
    lemma_best_position(seen, leaf, cost);
    lemma_trichotomy(best.0, best.0);
    if j < end {
        assert(seen[j] == front[j]);
        match (best_leaf(front, leaf, cost), candidate(leaf, cost, front[j])) {
            (Some(old), Some(item)) => {
                lemma_trichotomy(old.0, item.0);
                lemma_trichotomy(best.0, old.0);
                lemma_trichotomy(best.0, item.0);
                if best.0 != old.0 {
                    lemma_le_transitive(best.0, old.0, item.0);
                }
            },
            _ => {},
        }
    } else {
        match (best_leaf(front, leaf, cost), candidate(leaf, cost, seen[j])) {
            (Some(old), Some(item)) => {
                lemma_trichotomy(old.0, item.0);
            },
            _ => {},
        }
    }
}

/// Seeing more nodes never makes the best leaf worse.
pub proof fn lemma_longer_is_no_worse<C: Ord, N, FL, FC>(
    seen: Seq<N>,
    len: nat,
    leaf: FL,
    cost: FC,
) where FL: NodeFn<N, Output = bool>, FC: NodeFn<N, Output = Option<C>>
    requires
        total_order::<C>(),
        len <= seen.len(),
    ensures
        no_worse(best_leaf(seen, leaf, cost), best_leaf(seen.take(len as int), leaf, cost)),
    decreases seen.len() - len,
{
    if len == seen.len() {
        assert(seen.take(len as int) == seen);
        match best_leaf(seen, leaf, cost) {
            Some(best) => {
                lemma_trichotomy(best.0, best.0);
            },
            None => {},
        }
    } else {
        let front = seen.drop_last();
        lemma_longer_is_no_worse(front, len, leaf, cost);
        assert(front.take(len as int) == seen.take(len as int));
        let short = best_leaf(seen.take(len as int), leaf, cost);
        match (best_leaf(front, leaf, cost), best_leaf(seen, leaf, cost), short) {
            (Some(a), Some(b), Some(c)) => {
                lemma_trichotomy(b.0, a.0);
                lemma_le_transitive(b.0, a.0, c.0);
            },
            _ => {},
        }
    }
}

/// A larger budget of operations never makes the result worse.
///
/// For every visiting order, the best leaf among the first `k` visited
/// nodes is at least as good as the best leaf among the first `j`, where
/// `j <= k`.
pub proof fn lemma_budget_monotone<C: Ord, N, St, FL, FC>(
    m: Machine<St, N>,
    st: St,
    j: nat,
    k: nat,
    leaf: FL,
    cost: FC,
) where FL: NodeFn<N, Output = bool>, FC: NodeFn<N, Output = Option<C>>
    requires
        total_order::<C>(),
        j <= k,
    ensures
        no_worse(best_leaf(visits(m, st, k), leaf, cost), best_leaf(visits(m, st, j), leaf, cost)),
{
    lemma_visits_prefix(m, st, j, k);
    lemma_longer_is_no_worse(visits(m, st, k), visits(m, st, j).len(), leaf, cost);
}

/// Lists that hold the same nodes have best leaves of the same cost.
pub proof fn lemma_same_nodes_same_cost<C: Ord, N, FL, FC>(
    a: Seq<N>,
    b: Seq<N>,
    leaf: FL,
    cost: FC,
) where FL: NodeFn<N, Output = bool>, FC: NodeFn<N, Output = Option<C>>
    requires
        total_order::<C>(),
        a.to_multiset() == b.to_multiset(),
    ensures
        cost_of(best_leaf(a, leaf, cost)) == cost_of(best_leaf(b, leaf, cost)),
{
    assert forall|i: int| 0 <= i < a.len() implies b.contains(#[trigger] a[i]) by {
        vstd::seq_lib::to_multiset_contains(a, a[i]);
        vstd::seq_lib::to_multiset_contains(b, a[i]);
    }
    assert forall|i: int| 0 <= i < b.len() implies a.contains(#[trigger] b[i]) by {
        vstd::seq_lib::to_multiset_contains(a, b[i]);
        vstd::seq_lib::to_multiset_contains(b, b[i]);
    }
    lemma_no_cheaper_elsewhere(a, b, leaf, cost);
    lemma_no_cheaper_elsewhere(b, a, leaf, cost);
    match (best_leaf(a, leaf, cost), best_leaf(b, leaf, cost)) {
        (Some(x), Some(y)) => {
            lemma_trichotomy(x.0, y.0);
        },
        _ => {},
    }
}

/// The best leaf of a list costs no more than the best leaf of a list whose
/// nodes it holds.
pub proof fn lemma_no_cheaper_elsewhere<C: Ord, N, FL, FC>(
    a: Seq<N>,
    b: Seq<N>,
    leaf: FL,
    cost: FC,
) where FL: NodeFn<N, Output = bool>, FC: NodeFn<N, Output = Option<C>>
    requires
        total_order::<C>(),
        forall|i: int| 0 <= i < b.len() ==> a.contains(#[trigger] b[i]),
    ensures
        no_worse(best_leaf(a, leaf, cost), best_leaf(b, leaf, cost)),
{
    lemma_best_leaf_minimal(a, leaf, cost);
    lemma_best_position(b, leaf, cost);
    match best_leaf(b, leaf, cost) {
        Some(y) => {
            let j = best_position(b, leaf, cost);
            assert(a.contains(b[j]));
            let i = choose|i: int| 0 <= i < a.len() && a[i] == b[j];
            assert(candidate(leaf, cost, a[i]) == Some(ScoredItem(y.0, y.1)));
            match best_leaf(a, leaf, cost) {
                Some(x) => {
                    lemma_trichotomy(x.0, y.0);
                },
                None => {},
            }
        },
        None => {},
    }
}

} // verus!
