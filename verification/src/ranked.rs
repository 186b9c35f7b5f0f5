//! Lists of scored entries, kept in ascending order of score.
//!
//! A new entry goes behind every entry that does not score higher, so
//! entries of equal score stay in the order in which they came.

use crate::callback::NodeFn;
use crate::order::{le, lemma_le_transitive, lemma_trichotomy, less, lt, total_order};
use crate::utils::ScoredItem;
use vstd::prelude::*;

verus! {

/// Whether the scores never go down along the list.
pub open spec fn ascending<S: Ord, A>(entries: Seq<ScoredItem<S, A>>) -> bool {
    forall|i: int, j: int| 0 <= i < j < entries.len() ==> le(entries[i].0, entries[j].0)
}

/// Where an entry of the given score goes: behind the last entry that does
/// not score higher.
pub open spec fn slot<S: Ord, A>(entries: Seq<ScoredItem<S, A>>, score: S) -> int
    decreases entries.len(),
{
    if entries.len() == 0 {
        0
    } else if lt(score, entries.last().0) {
        slot(entries.drop_last(), score)
    } else {
        entries.len() as int
    }
}

/// The list with `item` put in its slot.
pub open spec fn placed<S: Ord, A>(entries: Seq<ScoredItem<S, A>>, item: ScoredItem<S, A>) -> Seq<
    ScoredItem<S, A>,
> {
    entries.insert(slot(entries, item.0), item)
}

/// The payloads of the entries, in order.
pub open spec fn items<S: Ord, A>(entries: Seq<ScoredItem<S, A>>) -> Seq<A> {
    Seq::new(entries.len(), |i: int| entries[i].1)
}

/// The list once each of `nodes` that has a score has been put in its slot,
/// one after another.
pub open spec fn admitted<S: Ord, N, F: NodeFn<N, Output = Option<S>>>(
    entries: Seq<ScoredItem<S, N>>,
    nodes: Seq<N>,
    score_fn: F,
) -> Seq<ScoredItem<S, N>>
    decreases nodes.len(),
{
    if nodes.len() == 0 {
        entries
    } else {
        let before = admitted(entries, nodes.drop_last(), score_fn);
        match score_fn.value(&nodes.last()) {
            Some(score) => placed(before, ScoredItem(score, nodes.last())),
            None => before,
        }
    }
}

/// The list once each of `more` has been put in its slot, one after
/// another.
pub open spec fn merged<S: Ord, A>(
    entries: Seq<ScoredItem<S, A>>,
    more: Seq<ScoredItem<S, A>>,
) -> Seq<ScoredItem<S, A>>
    decreases more.len(),
{
    if more.len() == 0 {
        entries
    } else {
        placed(merged(entries, more.drop_last()), more.last())
    }
}

/// The first `count` entries, or all of them where there are fewer.
pub open spec fn leading<A>(entries: Seq<A>, count: nat) -> Seq<A> {
    if count < entries.len() {
        entries.take(count as int)
    } else {
        entries
    }
}

/// The slot lies within the list, every entry from it on scores higher, and
/// the entry before it, if any, does not.
pub proof fn lemma_slot<S: Ord, A>(entries: Seq<ScoredItem<S, A>>, score: S)
    ensures
        0 <= slot(entries, score) <= entries.len(),
        forall|i: int| slot(entries, score) <= i < entries.len() ==> lt(score, entries[i].0),
        slot(entries, score) > 0 ==> le(entries[slot(entries, score) - 1].0, score),
    decreases entries.len(),
{
    if entries.len() > 0 && lt(score, entries.last().0) {
        let front = entries.drop_last();
        lemma_slot(front, score);
        assert forall|i: int| slot(entries, score) <= i < entries.len() implies lt(
            score,
            entries[i].0,
        ) by {
            if i < front.len() {
                assert(entries[i] == front[i]);
            }
        }
        if slot(entries, score) > 0 {
            assert(entries[slot(entries, score) - 1] == front[slot(front, score) - 1]);
        }
    }
}

/// Putting an entry in its slot keeps an ascending list ascending.
pub proof fn lemma_placed_ascending<S: Ord, A>(
    entries: Seq<ScoredItem<S, A>>,
    item: ScoredItem<S, A>,
)
    requires
        total_order::<S>(),
        ascending(entries),
    ensures
        ascending(placed(entries, item)),
{
    let at = slot(entries, item.0);
    let after = placed(entries, item);
    lemma_slot(entries, item.0);
    assert forall|i: int, j: int| 0 <= i < j < after.len() implies le(after[i].0, after[j].0) by {
        if j < at {
            assert(after[i] == entries[i] && after[j] == entries[j]);
        } else if j == at {
            assert(after[i] == entries[i]);
            lemma_trichotomy(entries[i].0, entries[at - 1].0);
            lemma_le_transitive(entries[i].0, entries[at - 1].0, item.0);
        } else if i < at {
            assert(after[i] == entries[i] && after[j] == entries[j - 1]);
        } else if i == at {
            assert(after[j] == entries[j - 1]);
            lemma_trichotomy(item.0, entries[j - 1].0);
        } else {
            assert(after[i] == entries[i - 1] && after[j] == entries[j - 1]);
        }
    }
}

/// Putting an entry in its slot adds its payload to the payloads of the
/// list, and nothing else.
pub proof fn lemma_placed_items<S: Ord, A>(entries: Seq<ScoredItem<S, A>>, item: ScoredItem<S, A>)
    ensures
        items(placed(entries, item)) == items(entries).insert(slot(entries, item.0), item.1),
        items(placed(entries, item)).to_multiset() == items(entries).to_multiset().insert(item.1),
        placed(entries, item).len() == entries.len() + 1,
{
    lemma_slot(entries, item.0);
    let at = slot(entries, item.0);
    assert(items(placed(entries, item)) =~= items(entries).insert(at, item.1));
    vstd::seq_lib::to_multiset_insert(items(entries), at, item.1);
}

/// Where every node has a score, the list holds all of `nodes` once they
/// have been put in their slots.
pub proof fn lemma_admitted_items<S: Ord, N, F: NodeFn<N, Output = Option<S>>>(
    entries: Seq<ScoredItem<S, N>>,
    nodes: Seq<N>,
    score_fn: F,
)
    requires
        forall|i: int| 0 <= i < nodes.len() ==> score_fn.value(&#[trigger] nodes[i]) is Some,
    ensures
        items(admitted(entries, nodes, score_fn)).to_multiset() == items(
            entries,
        ).to_multiset().add(nodes.to_multiset()),
        admitted(entries, nodes, score_fn).len() == entries.len() + nodes.len(),
    decreases nodes.len(),
{
    if nodes.len() == 0 {
        vstd::seq_lib::to_multiset_len(nodes);
        assert(items(entries).to_multiset().add(nodes.to_multiset()) =~= items(
            entries,
        ).to_multiset());
    } else {
        let front = nodes.drop_last();
        let node = nodes.last();
        lemma_admitted_items(entries, front, score_fn);
        let before = admitted(entries, front, score_fn);
        let score = score_fn.value(&node).unwrap();
        lemma_placed_items(before, ScoredItem(score, node));
        vstd::seq_lib::to_multiset_build(front, node);
        assert(front.push(node) == nodes);
        assert(items(admitted(entries, nodes, score_fn)).to_multiset() =~= items(
            entries,
        ).to_multiset().add(nodes.to_multiset()));
    }
}

/// The list holds all of `more` once they have been put in their slots.
pub proof fn lemma_merged_items<S: Ord, A>(
    entries: Seq<ScoredItem<S, A>>,
    more: Seq<ScoredItem<S, A>>,
)
    ensures
        items(merged(entries, more)).to_multiset() == items(entries).to_multiset().add(
            items(more).to_multiset(),
        ),
        merged(entries, more).len() == entries.len() + more.len(),
    decreases more.len(),
{
    if more.len() == 0 {
        vstd::seq_lib::to_multiset_len(items(more));
        assert(items(entries).to_multiset().add(items(more).to_multiset()) =~= items(
            entries,
        ).to_multiset());
    } else {
        let front = more.drop_last();
        lemma_merged_items(entries, front);
        lemma_placed_items(merged(entries, front), more.last());
        vstd::seq_lib::to_multiset_build(items(front), more.last().1);
        assert(items(front).push(more.last().1) =~= items(more));
        assert(items(merged(entries, more)).to_multiset() =~= items(entries).to_multiset().add(
            items(more).to_multiset(),
        ));
    }
}

/// An entry that scores no less than the last entry goes to the end.
pub proof fn lemma_placed_last<S: Ord, A>(entries: Seq<ScoredItem<S, A>>, item: ScoredItem<S, A>)
    requires
        entries.len() > 0 ==> le(entries.last().0, item.0),
    ensures
        placed(entries, item) == entries.push(item),
{
    assert(entries.insert(entries.len() as int, item) =~= entries.push(item));
}

/// Putting the entries of an ascending list in their slots, one after
/// another, gives the list again.
pub proof fn lemma_merged_ascending<S: Ord, A>(more: Seq<ScoredItem<S, A>>)
    requires
        ascending(more),
    ensures
        merged(Seq::empty(), more) == more,
    decreases more.len(),
{
    if more.len() > 0 {
        let front = more.drop_last();
        lemma_merged_ascending(front);
        if front.len() > 0 {
            assert(front.last() == more[more.len() - 2]);
        }
        lemma_placed_last(front, more.last());
        assert(front.push(more.last()) == more);
    }
}

/// Entries that are put in their slots in an ascending list leave it
/// ascending.
pub proof fn lemma_merged_keeps_ascending<S: Ord, A>(
    entries: Seq<ScoredItem<S, A>>,
    more: Seq<ScoredItem<S, A>>,
)
    requires
        total_order::<S>(),
        ascending(entries),
    ensures
        ascending(merged(entries, more)),
    decreases more.len(),
{
    if more.len() > 0 {
        lemma_merged_keeps_ascending(entries, more.drop_last());
        lemma_placed_ascending(merged(entries, more.drop_last()), more.last());
    }
}

/// Nodes that are put in their slots in an ascending list leave it
/// ascending.
pub proof fn lemma_admitted_ascending<S: Ord, N, F: NodeFn<N, Output = Option<S>>>(
    entries: Seq<ScoredItem<S, N>>,
    nodes: Seq<N>,
    score_fn: F,
)
    requires
        total_order::<S>(),
        ascending(entries),
    ensures
        ascending(admitted(entries, nodes, score_fn)),
    decreases nodes.len(),
{
    if nodes.len() > 0 {
        lemma_admitted_ascending(entries, nodes.drop_last(), score_fn);
        match score_fn.value(&nodes.last()) {
            Some(score) => {
                lemma_placed_ascending(
                    admitted(entries, nodes.drop_last(), score_fn),
                    ScoredItem(score, nodes.last()),
                );
            },
            None => {},
        }
    }
}

/// Puts `item` in its slot.
pub fn place<S: Ord, A>(entries: &mut Vec<ScoredItem<S, A>>, item: ScoredItem<S, A>)
    requires
        total_order::<S>(),
    ensures
        final(entries)@ == placed(old(entries)@, item),
{
    let mut at: usize = entries.len();
    proof {
        assert(entries@.take(at as int) == entries@);
    }
    while at > 0 && less(&item.0, &entries[at - 1].0)
        invariant
            total_order::<S>(),
            at <= entries.len(),
            *entries == *old(entries),
            slot(entries@, item.0) == slot(entries@.take(at as int), item.0),
        decreases at,
    {
        proof {
            assert(entries@.take(at as int).drop_last() == entries@.take(at - 1));
        }
        at -= 1;
    }
    proof {
        if at > 0 {
            assert(entries@.take(at as int).last() == entries@[at - 1]);
        }
    }
    entries.insert(at, item);
}

/// Puts each of `nodes` that has a score in its slot, one after another.
pub fn place_scored<S: Ord, N, F: NodeFn<N, Output = Option<S>>>(
    entries: &mut Vec<ScoredItem<S, N>>,
    nodes: Vec<N>,
    score_fn: &F,
)
    requires
        total_order::<S>(),
        score_fn.is_function(),
    ensures
        final(entries)@ == admitted(old(entries)@, nodes@, *score_fn),
{
    let ghost all = nodes@;
    for node in it: nodes.into_iter()
        invariant
            total_order::<S>(),
            score_fn.is_function(),
            it.seq() == all,
            entries@ == admitted(old(entries)@, all.take(it.index() as int), *score_fn),
    {
        proof {
            assert(all.take(it.index() + 1).drop_last() == all.take(it.index() as int));
        }
        match score_fn.eval(&node) {
            Some(score) => {
                place(entries, ScoredItem(score, node));
            },
            None => {},
        }
    }
    proof {
        assert(all.take(all.len() as int) == all);
    }
}

/// Puts the first `count` of `more` in their slots, one after another.
pub fn merge<S: Ord, A>(
    entries: &mut Vec<ScoredItem<S, A>>,
    more: Vec<ScoredItem<S, A>>,
    count: usize,
)
    requires
        total_order::<S>(),
    ensures
        final(entries)@ == merged(old(entries)@, leading(more@, count as nat)),
{
    let ghost all = more@;
    let ghost chosen = leading(all, count as nat);
    let mut taken: usize = 0;
    for item in it: more.into_iter()
        invariant
            total_order::<S>(),
            it.seq() == all,
            chosen == leading(all, count as nat),
            taken == if it.index() < count { it.index() } else { count as int },
            entries@ == merged(old(entries)@, chosen.take(taken as int)),
    {
        if taken < count {
            proof {
                assert(chosen.take(taken + 1).drop_last() == chosen.take(taken as int));
                assert(chosen.take(taken + 1).last() == item);
            }
            place(entries, item);
            taken += 1;
        }
    }
    proof {
        assert(chosen.take(chosen.len() as int) == chosen);
    }
}

} // verus!
