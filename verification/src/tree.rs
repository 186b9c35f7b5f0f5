//! The tree that a successor function spans.
//!
//! The nodes under some roots are described level by level: the roots, their
//! successors, the successors of those, and so on. A tree is finite where
//! some level is empty.

use crate::callback::Successors;
use vstd::multiset::Multiset;
use vstd::prelude::*;
use vstd::seq_lib::{
    lemma_multiset_commutative, to_multiset_contains, to_multiset_len, to_multiset_remove,
};

verus! {

/// The successors of the nodes of `level`, in order: the level below.
pub open spec fn next_level<N, S: Successors<N>>(s: S, level: Seq<N>) -> Seq<N>
    decreases level.len(),
{
    if level.len() == 0 {
        Seq::empty()
    } else {
        next_level(s, level.drop_last()) + s.children(&level.last())
    }
}

/// The nodes that lie `depth` levels under `roots`.
pub open spec fn generation<N, S: Successors<N>>(s: S, roots: Seq<N>, depth: nat) -> Seq<N>
    decreases depth,
{
    if depth == 0 {
        roots
    } else {
        generation(s, next_level(s, roots), (depth - 1) as nat)
    }
}

/// Whether the trees under `roots` end within `depth` levels: no node lies
/// deeper.
pub open spec fn closed_by<N, S: Successors<N>>(s: S, roots: Seq<N>, depth: nat) -> bool {
    generation(s, roots, depth + 1).len() == 0
}

/// The nodes that lie at most `depth` levels under `roots`, the roots
/// among them, each as often as it is generated.
pub open spec fn reach<N, S: Successors<N>>(s: S, roots: Seq<N>, depth: nat) -> Multiset<N>
    decreases depth,
{
    if depth == 0 {
        roots.to_multiset()
    } else {
        roots.to_multiset().add(reach(s, next_level(s, roots), (depth - 1) as nat))
    }
}

/// Whether `after` holds the nodes of `before` without one `node`, and
/// with the successors of `node` instead.
pub open spec fn expands_to<N, S: Successors<N>>(
    s: S,
    before: Seq<N>,
    node: N,
    after: Seq<N>,
) -> bool {
    &&& before.contains(node)
    &&& after.to_multiset().insert(node) == before.to_multiset().add(
        s.children(&node).to_multiset(),
    )
}

/// The level below two lists of nodes is the level below the first,
/// followed by the level below the second.
pub proof fn lemma_next_level_concat<N, S: Successors<N>>(s: S, a: Seq<N>, b: Seq<N>)
    ensures
        next_level(s, a + b) == next_level(s, a) + next_level(s, b),
    decreases b.len(),
{
    if b.len() == 0 {
        assert(a + b == a);
        assert(next_level(s, a) + next_level(s, b) == next_level(s, a));
    } else {
        lemma_next_level_concat(s, a, b.drop_last());
        assert((a + b).drop_last() == a + b.drop_last());
        assert(next_level(s, a + b) == (next_level(s, a) + next_level(s, b.drop_last()))
            + s.children(&b.last()));
        assert((next_level(s, a) + next_level(s, b.drop_last())) + s.children(&b.last())
            == next_level(s, a) + (next_level(s, b.drop_last()) + s.children(&b.last())));
    }
}

/// The level below a single node is its successors.
pub proof fn lemma_next_level_one<N, S: Successors<N>>(s: S, node: N)
    ensures
        next_level(s, seq![node]) == s.children(&node),
{
    let one = seq![node];
    assert(one.drop_last() == Seq::<N>::empty());
    assert(next_level(s, one.drop_last()) == Seq::<N>::empty());
    assert(Seq::<N>::empty() + s.children(&node) == s.children(&node));
}

/// Lists that hold the same nodes have the same nodes below them.
pub proof fn lemma_next_level_same<N, S: Successors<N>>(s: S, a: Seq<N>, b: Seq<N>)
    requires
        a.to_multiset() == b.to_multiset(),
    ensures
        next_level(s, a).to_multiset() == next_level(s, b).to_multiset(),
    decreases a.len(),
{
    to_multiset_len(a);
    to_multiset_len(b);
    if a.len() == 0 {
        assert(b.len() == 0);
    } else {
        let x = a.last();
        let front = a.drop_last();
        to_multiset_contains(a, x);
        to_multiset_contains(b, x);
        assert(a.contains(x)) by {
            assert(a[a.len() - 1] == x);
        }
        let i = choose|i: int| 0 <= i < b.len() && b[i] == x;
        let rest = b.remove(i);
        to_multiset_remove(a, a.len() - 1);
        to_multiset_remove(b, i);
        assert(a.remove(a.len() - 1) == front);
        lemma_next_level_same(s, front, rest);
        let left = b.take(i);
        let right = b.skip(i + 1);
        assert(b == (left + seq![x]) + right);
        assert(rest == left + right);
        lemma_next_level_concat(s, left + seq![x], right);
        lemma_next_level_concat(s, left, seq![x]);
        lemma_next_level_concat(s, left, right);
        lemma_next_level_one(s, x);
        let kids = s.children(&x);
        lemma_multiset_commutative(next_level(s, front), kids);
        lemma_multiset_commutative(next_level(s, left) + kids, next_level(s, right));
        lemma_multiset_commutative(next_level(s, left), kids);
        lemma_multiset_commutative(next_level(s, left), next_level(s, right));
        assert(next_level(s, a).to_multiset() =~= next_level(s, b).to_multiset());
    }
}

/// Lists that hold the same nodes have the same nodes at every depth
/// below them.
pub proof fn lemma_generation_same<N, S: Successors<N>>(s: S, a: Seq<N>, b: Seq<N>, depth: nat)
    requires
        a.to_multiset() == b.to_multiset(),
    ensures
        generation(s, a, depth).to_multiset() == generation(s, b, depth).to_multiset(),
        generation(s, a, depth).len() == generation(s, b, depth).len(),
    decreases depth,
{
    if depth > 0 {
        lemma_next_level_same(s, a, b);
        lemma_generation_same(s, next_level(s, a), next_level(s, b), (depth - 1) as nat);
    }
    to_multiset_len(generation(s, a, depth));
    to_multiset_len(generation(s, b, depth));
}

/// Lists that hold the same nodes reach the same nodes.
pub proof fn lemma_reach_same<N, S: Successors<N>>(s: S, a: Seq<N>, b: Seq<N>, depth: nat)
    requires
        a.to_multiset() == b.to_multiset(),
    ensures
        reach(s, a, depth) == reach(s, b, depth),
    decreases depth,
{
    if depth > 0 {
        lemma_next_level_same(s, a, b);
        lemma_reach_same(s, next_level(s, a), next_level(s, b), (depth - 1) as nat);
    }
}

/// What lies at some depth under two lists of nodes is what lies there
/// under the first, followed by what lies there under the second.
pub proof fn lemma_generation_concat<N, S: Successors<N>>(s: S, a: Seq<N>, b: Seq<N>, depth: nat)
    ensures
        generation(s, a + b, depth) == generation(s, a, depth) + generation(s, b, depth),
    decreases depth,
{
    if depth > 0 {
        lemma_next_level_concat(s, a, b);
        lemma_generation_concat(s, next_level(s, a), next_level(s, b), (depth - 1) as nat);
    }
}

/// What two lists of nodes reach together is what each of them reaches.
pub proof fn lemma_reach_concat<N, S: Successors<N>>(s: S, a: Seq<N>, b: Seq<N>, depth: nat)
    ensures
        reach(s, a + b, depth) == reach(s, a, depth).add(reach(s, b, depth)),
    decreases depth,
{
    lemma_multiset_commutative(a, b);
    if depth > 0 {
        lemma_next_level_concat(s, a, b);
        lemma_reach_concat(s, next_level(s, a), next_level(s, b), (depth - 1) as nat);
    }
    assert(reach(s, a + b, depth) =~= reach(s, a, depth).add(reach(s, b, depth)));
}

/// A level is the level below the level above it.
pub proof fn lemma_generation_step<N, S: Successors<N>>(s: S, roots: Seq<N>, depth: nat)
    ensures
        generation(s, roots, depth + 1) == next_level(s, generation(s, roots, depth)),
    decreases depth,
{
    let below = next_level(s, roots);
    assert(generation(s, roots, depth + 1) == generation(s, below, depth));
    if depth > 0 {
        lemma_generation_step(s, below, (depth - 1) as nat);
        assert(generation(s, roots, depth) == generation(s, below, (depth - 1) as nat));
    } else {
        assert(generation(s, below, 0) == below);
    }
}

/// Trees that end within some levels end within one level more, and that
/// level adds no node.
pub proof fn lemma_closed_deeper<N, S: Successors<N>>(s: S, roots: Seq<N>, depth: nat)
    requires
        closed_by(s, roots, depth),
    ensures
        closed_by(s, roots, depth + 1),
        reach(s, roots, depth + 1) == reach(s, roots, depth),
    decreases depth,
{
    lemma_generation_step(s, roots, depth + 1);
    let below = next_level(s, roots);
    assert(generation(s, roots, depth + 1) == generation(s, below, depth));
    if depth == 0 {
        assert(generation(s, below, 0) == below);
        assert(next_level(s, roots).len() == 0);
        assert(next_level(s, roots).to_multiset() =~= Multiset::<N>::empty()) by {
            to_multiset_len(next_level(s, roots));
        }
        assert(reach(s, next_level(s, roots), 0) == Multiset::<N>::empty());
        assert(reach(s, roots, 1) =~= reach(s, roots, 0));
    } else {
        lemma_closed_deeper(s, next_level(s, roots), (depth - 1) as nat);
    }
}

/// What a single node reaches is the node itself and what its successors
/// reach in one level less.
pub proof fn lemma_reach_one<N, S: Successors<N>>(s: S, node: N, depth: nat)
    ensures
        reach(s, seq![node], depth) == Multiset::singleton(node).add(
            if depth == 0 {
                Multiset::empty()
            } else {
                reach(s, s.children(&node), (depth - 1) as nat)
            },
        ),
        generation(s, seq![node], depth + 1) == generation(s, s.children(&node), depth),
{
    lemma_next_level_one(s, node);
    let one = seq![node];
    assert(one.to_multiset() =~= Multiset::singleton(node)) by {
        broadcast use vstd::seq_lib::group_to_multiset_ensures;

        assert(one == Seq::<N>::empty().push(node));
    }
    assert(reach(s, one, depth) =~= Multiset::singleton(node).add(
        if depth == 0 {
            Multiset::empty()
        } else {
            reach(s, s.children(&node), (depth - 1) as nat)
        },
    ));
}

/// The roots are among the nodes that they reach.
pub proof fn lemma_reach_roots<N, S: Successors<N>>(s: S, roots: Seq<N>, depth: nat, node: N)
    requires
        roots.contains(node),
    ensures
        reach(s, roots, depth).count(node) > 0,
        reach(s, roots, depth).len() >= roots.len(),
{
    to_multiset_contains(roots, node);
    to_multiset_len(roots);
}

/// The roots reach at least themselves.
pub proof fn lemma_reach_len<N, S: Successors<N>>(s: S, roots: Seq<N>, depth: nat)
    ensures
        reach(s, roots, depth).len() >= roots.len(),
{
    to_multiset_len(roots);
}

/// A closed list reaches each of its nodes and all the successors of that
/// node.
pub proof fn lemma_reach_counts_children<N, S: Successors<N>>(
    s: S,
    roots: Seq<N>,
    node: N,
    depth: nat,
)
    requires
        closed_by(s, roots, depth),
        roots.contains(node),
    ensures
        reach(s, roots, depth).len() >= s.children(&node).len() + 1,
{
    let kids = s.children(&node);
    lemma_closed_children(s, roots, node, depth);
    to_multiset_len(roots);
    if depth == 0 {
        assert(generation(s, kids, 0) == kids);
    } else {
        let i = choose|i: int| 0 <= i < roots.len() && roots[i] == node;
        let left = roots.take(i);
        let right = roots.skip(i + 1);
        assert(roots == (left + seq![node]) + right);
        lemma_next_level_concat(s, left + seq![node], right);
        lemma_next_level_concat(s, left, seq![node]);
        lemma_next_level_one(s, node);
        lemma_reach_len(s, next_level(s, roots), (depth - 1) as nat);
    }
}

/// Nothing is reached from no roots.
pub proof fn lemma_reach_none<N, S: Successors<N>>(s: S, roots: Seq<N>, depth: nat)
    requires
        roots.len() == 0,
    ensures
        reach(s, roots, depth).len() == 0,
        reach(s, roots, depth) == Multiset::<N>::empty(),
    decreases depth,
{
    to_multiset_len(roots);
    assert(roots.to_multiset() =~= Multiset::<N>::empty());
    if depth > 0 {
        lemma_reach_none(s, next_level(s, roots), (depth - 1) as nat);
        assert(reach(s, roots, depth) =~= Multiset::<N>::empty());
    }
}

/// The successors of a node of a closed list lie above the depth that
/// closes the list.
pub proof fn lemma_closed_children<N, S: Successors<N>>(s: S, roots: Seq<N>, node: N, depth: nat)
    requires
        closed_by(s, roots, depth),
        roots.contains(node),
    ensures
        closed_by(s, seq![node], depth),
        generation(s, s.children(&node), depth).len() == 0,
        closed_by(s, s.children(&node), depth),
        depth > 0 ==> reach(s, s.children(&node), depth) == reach(
            s,
            s.children(&node),
            (depth - 1) as nat,
        ),
        depth == 0 ==> reach(s, s.children(&node), depth) == Multiset::<N>::empty(),
{
    let i = choose|i: int| 0 <= i < roots.len() && roots[i] == node;
    let left = roots.take(i);
    let right = roots.skip(i + 1);
    assert(roots == (left + seq![node]) + right);
    lemma_generation_concat(s, left + seq![node], right, depth + 1);
    lemma_generation_concat(s, left, seq![node], depth + 1);
    lemma_reach_one(s, node, depth);
    let kids = s.children(&node);
    lemma_generation_step(s, kids, depth);
    if depth > 0 {
        lemma_closed_deeper(s, kids, (depth - 1) as nat);
    } else {
        lemma_reach_none(s, kids, 0);
    }
}

/// What a closed stack reaches is what it reaches without its top, the
/// top, and what the successors of the top reach. Without its top the
/// stack is closed, and so it is with the successors of the top in its
/// place.
pub proof fn lemma_reach_top<N, S: Successors<N>>(s: S, stack: Seq<N>, depth: nat)
    requires
        closed_by(s, stack, depth),
        stack.len() > 0,
    ensures
        closed_by(s, stack.drop_last(), depth),
        closed_by(s, stack.drop_last() + s.children(&stack.last()), depth),
        reach(s, stack, depth) == reach(s, stack.drop_last(), depth).add(
            Multiset::singleton(stack.last()).add(reach(s, s.children(&stack.last()), depth)),
        ),
        reach(s, stack.drop_last() + s.children(&stack.last()), depth) == reach(
            s,
            stack.drop_last(),
            depth,
        ).add(reach(s, s.children(&stack.last()), depth)),
{
    let node = stack.last();
    let rest = stack.drop_last();
    let kids = s.children(&node);
    assert(stack == rest + seq![node]);
    assert(stack[stack.len() - 1] == node);
    lemma_reach_concat(s, rest, seq![node], depth);
    lemma_generation_concat(s, rest, seq![node], depth + 1);
    lemma_closed_children(s, stack, node, depth);
    lemma_reach_one(s, node, depth);
    lemma_reach_concat(s, rest, kids, depth);
    lemma_generation_concat(s, rest, kids, depth + 1);
}

/// Replacing a node of a closed list by its successors keeps the list
/// closed, and takes from what it reaches just that node.
pub proof fn lemma_expansion<N, S: Successors<N>>(
    s: S,
    before: Seq<N>,
    node: N,
    after: Seq<N>,
    depth: nat,
)
    requires
        closed_by(s, before, depth),
        expands_to(s, before, node, after),
    ensures
        closed_by(s, after, depth),
        reach(s, after, depth).insert(node) == reach(s, before, depth),
{
    let kids = s.children(&node);
    let g = seq![node] + after;
    let h = before + kids;
    lemma_multiset_commutative(seq![node], after);
    lemma_multiset_commutative(before, kids);
    lemma_reach_one(s, node, 0);
    assert(g.to_multiset() =~= h.to_multiset());
    lemma_reach_same(s, g, h, depth);
    lemma_generation_same(s, g, h, depth + 1);
    lemma_closed_children(s, before, node, depth);
    lemma_reach_concat(s, seq![node], after, depth);
    lemma_reach_concat(s, before, kids, depth);
    lemma_generation_concat(s, seq![node], after, depth + 1);
    lemma_generation_concat(s, before, kids, depth + 1);
    lemma_reach_one(s, node, depth);
    let below = reach(s, kids, depth);
    let one = Multiset::singleton(node);
    assert(reach(s, seq![node], depth) == one.add(below));
    assert(one.add(below).add(reach(s, after, depth)) == reach(s, before, depth).add(below));
    assert forall|v: N|
        reach(s, after, depth).insert(node).count(v) == reach(s, before, depth).count(v) by {
        assert(one.add(below).add(reach(s, after, depth)).count(v) == reach(
            s,
            before,
            depth,
        ).add(below).count(v));
    }
    assert(reach(s, after, depth).insert(node) =~= reach(s, before, depth));
}

} // verus!
