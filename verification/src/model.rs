//! Visiting orders as deterministic machines.
//!
//! A strategy is described by a state, the node that is handed out next in a
//! state, and the state after that hand-out. Running the machine gives the
//! nodes in the order in which the strategy visits them.

use vstd::prelude::*;

verus! {

/// A deterministic description of a visiting order over states `St`.
#[verifier::reject_recursive_types(St)]
pub struct Machine<St, N> {
    /// The node that is handed out in a state; `None` when the state is
    /// exhausted.
    pub next: spec_fn(St) -> Option<N>,
    /// The state after one pull.
    pub step: spec_fn(St) -> St,
}

/// The state after `k` pulls.
pub open spec fn after<St, N>(m: Machine<St, N>, st: St, k: nat) -> St
    decreases k,
{
    if k == 0 {
        st
    } else {
        (m.step)(after(m, st, (k - 1) as nat))
    }
}

/// The nodes handed out by the first `k` pulls, in order. The list ends
/// with the first pull that hands out nothing.
pub open spec fn visits<St, N>(m: Machine<St, N>, st: St, k: nat) -> Seq<N>
    decreases k,
{
    if k == 0 {
        Seq::empty()
    } else {
        let seen = visits(m, st, (k - 1) as nat);
        match (m.next)(after(m, st, (k - 1) as nat)) {
            Some(n) => if seen.len() == k - 1 {
                seen.push(n)
            } else {
                seen
            },
            None => seen,
        }
    }
}

/// Whether the machine hands out nothing at the pull that follows the first
/// `k`.
pub open spec fn exhausted<St, N>(m: Machine<St, N>, st: St, k: nat) -> bool {
    (m.next)(after(m, st, k)) is None
}

/// The first `k` pulls hand out at most `k` nodes, and what a shorter run
/// hands out is the beginning of what a longer run hands out.
pub proof fn lemma_visits_prefix<St, N>(m: Machine<St, N>, st: St, j: nat, k: nat)
    requires
        j <= k,
    ensures
        visits(m, st, j).len() <= j,
        visits(m, st, j).len() <= visits(m, st, k).len(),
        visits(m, st, j) == visits(m, st, k).take(visits(m, st, j).len() as int),
    decreases k,
{
    if j == 0 {
    } else if j == k {
        lemma_visits_prefix(m, st, (j - 1) as nat, (j - 1) as nat);
        assert(visits(m, st, k).take(visits(m, st, k).len() as int) == visits(m, st, k));
    } else {
        lemma_visits_prefix(m, st, j, (k - 1) as nat);
        let short = visits(m, st, j);
        let seen = visits(m, st, (k - 1) as nat);
        assert(visits(m, st, k).take(short.len() as int) == seen.take(short.len() as int));
    }
}

/// Once a machine has handed out nothing, more pulls visit no more nodes.
pub proof fn lemma_visits_end<St, N>(m: Machine<St, N>, st: St, size: nat, k: nat)
    requires
        exhausted(m, st, size),
        size <= k,
    ensures
        visits(m, st, k) == visits(m, st, size),
    decreases k,
{
    if k > size {
        lemma_visits_end(m, st, size, (k - 1) as nat);
        lemma_visits_prefix(m, st, size, size);
    }
}

/// Pulling once and then `k` times more is pulling `k + 1` times.
pub proof fn lemma_after_shift<St, N>(m: Machine<St, N>, st: St, k: nat)
    ensures
        after(m, st, k + 1) == after(m, (m.step)(st), k),
    decreases k,
{
    if k > 0 {
        lemma_after_shift(m, st, (k - 1) as nat);
        assert(after(m, st, k + 1) == (m.step)(after(m, st, k)));
        assert(after(m, (m.step)(st), k) == (m.step)(after(m, (m.step)(st), (k - 1) as nat)));
    } else {
        assert(after(m, st, 1) == (m.step)(after(m, st, 0)));
        assert(after(m, st, 0) == st);
        assert(after(m, (m.step)(st), 0) == (m.step)(st));
    }
}

/// What `k + 1` pulls hand out is what the first pull hands out, followed
/// by what `k` pulls hand out from the state that the first pull leaves.
pub proof fn lemma_visits_unfold<St, N>(m: Machine<St, N>, st: St, k: nat)
    ensures
        visits(m, st, k + 1) == match (m.next)(st) {
            Some(n) => seq![n] + visits(m, (m.step)(st), k),
            None => Seq::empty(),
        },
    decreases k,
{
    if k == 0 {
        assert(visits(m, st, 0) == Seq::<N>::empty());
        assert(visits(m, (m.step)(st), 0) == Seq::<N>::empty());
        assert(after(m, st, 0) == st);
        match (m.next)(st) {
            Some(n) => {
                assert(visits(m, st, 1) =~= seq![n] + Seq::<N>::empty());
            },
            None => {},
        }
    } else {
        let j = (k - 1) as nat;
        lemma_visits_unfold(m, st, j);
        lemma_after_shift(m, st, j);
        let seen = visits(m, st, k);
        match (m.next)(st) {
            Some(n) => {
                let rest = visits(m, (m.step)(st), j);
                assert(seen == seq![n] + rest);
                match (m.next)(after(m, st, k)) {
                    Some(x) => {
                        if seen.len() == k {
                            assert(seen.push(x) =~= seq![n] + rest.push(x));
                        }
                    },
                    None => {},
                }
            },
            None => {},
        }
    }
}

/// Each visited node is the one that the machine hands out in the state
/// that the pulls before it leave.
pub proof fn lemma_visits_index<St, N>(m: Machine<St, N>, st: St, k: nat, i: nat)
    requires
        i < visits(m, st, k).len(),
    ensures
        (m.next)(after(m, st, i)) == Some(visits(m, st, k)[i as int]),
    decreases k,
{
    if k > 0 {
        let j = (k - 1) as nat;
        let seen = visits(m, st, j);
        lemma_visits_prefix(m, st, j, j);
        if i < seen.len() {
            lemma_visits_index(m, st, j, i);
        }
    }
}

/// Machines that go in step visit the same nodes.
///
/// `rel` reads a state of the second machine off a state of the first, and
/// `inv` is what every step of the first machine keeps. Where in every
/// such state both machines hand out the same node and stay related, both
/// visit the same nodes.
pub proof fn lemma_in_step<A, B, N>(
    first: Machine<A, N>,
    second: Machine<B, N>,
    rel: spec_fn(A) -> B,
    inv: spec_fn(A) -> bool,
    st: A,
    k: nat,
)
    requires
        forall|a: A| #[trigger]
            inv(a) ==> inv((first.step)(a)) && (first.next)(a) == (second.next)(rel(a)) && rel(
                (first.step)(a),
            ) == (second.step)(rel(a)),
        inv(st),
    ensures
        inv(after(first, st, k)),
        rel(after(first, st, k)) == after(second, rel(st), k),
        visits(first, st, k) == visits(second, rel(st), k),
        exhausted(first, st, k) == exhausted(second, rel(st), k),
    decreases k,
{
    if k > 0 {
        lemma_in_step(first, second, rel, inv, st, (k - 1) as nat);
        assert(inv(after(first, st, (k - 1) as nat)));
    }
}

/// Whether the machine, once it has handed out nothing, goes on handing
/// out nothing.
pub open spec fn fused<St, N>(m: Machine<St, N>) -> bool {
    forall|st: St| #[trigger] (m.next)(st) is None ==> (m.next)((m.step)(st)) is None
}

/// A fused machine that is exhausted stays exhausted.
pub proof fn lemma_stays_exhausted<St, N>(m: Machine<St, N>, st: St, j: nat, k: nat)
    requires
        fused(m),
        exhausted(m, st, j),
        j <= k,
    ensures
        exhausted(m, st, k),
    decreases k,
{
    if j < k {
        lemma_stays_exhausted(m, st, j, (k - 1) as nat);
        assert((m.next)(after(m, st, (k - 1) as nat)) is None);
    }
}

} // verus!
