//! Strategies that leave no node out.
//!
//! A visiting order is exhaustive where every pull visits one of the nodes
//! that are pending and makes its successors pending instead. On a finite
//! tree such an order visits every node once, and then ends.

use crate::callback::Successors;
use crate::model::{after, exhausted, Machine, visits};
use crate::tree::{closed_by, expands_to, lemma_expansion, lemma_reach_none, reach};
use vstd::prelude::*;
use vstd::seq_lib::{to_multiset_build, to_multiset_len};

verus! {

/// Whether the pull in state `a` visits a pending node and makes its
/// successors pending instead, or hands out nothing where no node is
/// pending. `pending` reads the pending nodes off a state.
pub open spec fn step_expands<N, St, S: Successors<N>>(
    m: Machine<St, N>,
    s: S,
    pending: spec_fn(St) -> Seq<N>,
    a: St,
) -> bool {
    if pending(a).len() == 0 {
        (m.next)(a) is None
    } else {
        match (m.next)(a) {
            Some(node) => expands_to(s, pending(a), node, pending((m.step)(a))),
            None => false,
        }
    }
}

/// Whether the machine leaves no node out when it starts in `st`: in every
/// state whose pending nodes span trees that end within `depth` levels and
/// are no larger than those of `st`, the pull visits a pending node and
/// makes its successors pending.
pub open spec fn exhaustive<N, St, S: Successors<N>>(
    m: Machine<St, N>,
    s: S,
    pending: spec_fn(St) -> Seq<N>,
    st: St,
    depth: nat,
) -> bool {
    forall|a: St|
        closed_by(s, pending(a), depth) && reach(s, pending(a), depth).len() <= reach(
            s,
            pending(st),
            depth,
        ).len() ==> #[trigger] step_expands(m, s, pending, a)
}

/// As long as nodes are left, every pull of an exhaustive machine visits
/// one: the first `k` pulls visit `k` nodes, and these together with what
/// is still reached from the pending nodes are the nodes of the tree.
pub proof fn lemma_visits_some<N, St, S: Successors<N>>(
    m: Machine<St, N>,
    s: S,
    pending: spec_fn(St) -> Seq<N>,
    st: St,
    depth: nat,
    k: nat,
)
    requires
        closed_by(s, pending(st), depth),
        exhaustive(m, s, pending, st, depth),
        k <= reach(s, pending(st), depth).len(),
    ensures
        visits(m, st, k).len() == k,
        visits(m, st, k).to_multiset().add(reach(s, pending(after(m, st, k)), depth)) == reach(
            s,
            pending(st),
            depth,
        ),
        closed_by(s, pending(after(m, st, k)), depth),
    decreases k,
{
    if k == 0 {
        to_multiset_len(visits(m, st, 0));
        assert(visits(m, st, 0).to_multiset().add(reach(s, pending(st), depth)) =~= reach(
            s,
            pending(st),
            depth,
        ));
    } else {
        let j = (k - 1) as nat;
        lemma_visits_some(m, s, pending, st, depth, j);
        let a = after(m, st, j);
        let seen = visits(m, st, j);
        to_multiset_len(seen);
        assert(step_expands(m, s, pending, a));
        if pending(a).len() == 0 {
            lemma_reach_none(s, pending(a), depth);
        }
        let node = (m.next)(a).unwrap();
        lemma_expansion(s, pending(a), node, pending((m.step)(a)), depth);
        to_multiset_build(seen, node);
        assert(visits(m, st, k) == seen.push(node));
        assert(visits(m, st, k).to_multiset().add(reach(s, pending(after(m, st, k)), depth))
            =~= reach(s, pending(st), depth));
    }
}

/// On a finite tree an exhaustive machine visits every node once and then
/// ends: as many pulls as the tree has nodes hand out just these nodes, and
/// the pull after them hands out nothing.
pub proof fn lemma_visits_all<N, St, S: Successors<N>>(
    m: Machine<St, N>,
    s: S,
    pending: spec_fn(St) -> Seq<N>,
    st: St,
    depth: nat,
)
    requires
        closed_by(s, pending(st), depth),
        exhaustive(m, s, pending, st, depth),
    ensures
        ({
            let size = reach(s, pending(st), depth).len();
            &&& visits(m, st, size).len() == size
            &&& visits(m, st, size).to_multiset() == reach(s, pending(st), depth)
            &&& exhausted(m, st, size)
        }),
{
    let size = reach(s, pending(st), depth).len();
    lemma_visits_some(m, s, pending, st, depth, size);
    let a = after(m, st, size);
    let seen = visits(m, st, size);
    to_multiset_len(seen);
    assert(reach(s, pending(a), depth).len() == 0);
    assert(step_expands(m, s, pending, a));
    if pending(a).len() > 0 {
        crate::tree::lemma_reach_roots(s, pending(a), depth, pending(a)[0]);
    }
    assert(reach(s, pending(a), depth) =~= vstd::multiset::Multiset::<N>::empty());
    assert(seen.to_multiset() =~= reach(s, pending(st), depth));
}

} // verus!
