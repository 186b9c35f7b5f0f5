//! What a search is told about its tree.
//!
//! A search never looks inside a node. It asks: the successors of a node,
//! whether it is a leaf, what it costs, how it ranks. Each question is a
//! callback, and each callback stands for a mathematical function of the
//! node, which the contracts of this crate speak of.
//!
//! Closures serve as callbacks directly. A closure stands for a function
//! where it accepts every node and its contract allows one result per node.

use vstd::prelude::*;

verus! {

/// A callback that answers one question about a node.
pub trait NodeFn<N> {
    /// What the answer is made of.
    type Output;

    /// Whether the callback may be called on every node and stands for a
    /// function.
    spec fn is_function(&self) -> bool;

    /// The answer for `n`.
    spec fn value(&self, n: &N) -> Self::Output;

    /// Asks the question of `n`.
    fn eval(&self, n: &N) -> (r: Self::Output)
        requires
            self.is_function(),
        ensures
            r == self.value(n),
    ;
}

/// A callback that lists the successors of a node.
pub trait Successors<N> {
    /// Whether the callback may be called on every node and stands for a
    /// function.
    spec fn is_expansion(&self) -> bool;

    /// The successors of `n`, in the order in which they are generated.
    spec fn children(&self, n: &N) -> Seq<N>;

    /// Generates the successors of `n`.
    fn successors(&self, n: &N) -> (kids: Vec<N>)
        requires
            self.is_expansion(),
        ensures
            kids@ == self.children(n),
    ;
}

impl<N, R, F: Fn(&N) -> R> NodeFn<N> for F {
    type Output = R;

    open spec fn is_function(&self) -> bool {
        &&& forall|n: &N| #[trigger] call_requires(*self, (n,))
        &&& forall|n: &N, a: R, b: R|
            #[trigger] call_ensures(*self, (n,), a) && #[trigger] call_ensures(*self, (n,), b)
                ==> a == b
    }

    open spec fn value(&self, n: &N) -> R {
        choose|r: R| call_ensures(*self, (n,), r)
    }

    fn eval(&self, n: &N) -> (r: R) {
        self(n)
    }
}

impl<N, F: Fn(&N) -> Vec<N>> Successors<N> for F {
    open spec fn is_expansion(&self) -> bool {
        &&& forall|n: &N| #[trigger] call_requires(*self, (n,))
        &&& forall|n: &N, a: Vec<N>, b: Vec<N>|
            #[trigger] call_ensures(*self, (n,), a) && #[trigger] call_ensures(*self, (n,), b)
                ==> a@ == b@
    }

    open spec fn children(&self, n: &N) -> Seq<N> {
        (choose|kids: Vec<N>| call_ensures(*self, (n,), kids))@
    }

    fn successors(&self, n: &N) -> (kids: Vec<N>) {
        self(n)
    }
}

/// The callback that gives every node the same score.
pub struct Flat<C>(pub C);

/// The callback that calls no node a leaf.
#[derive(Clone, Copy)]
pub struct Never;

/// The callback that calls every node a leaf.
#[derive(Clone, Copy)]
pub struct Every;

/// A callback whose answer is always there: it answers `Some` of what the
/// callback inside answers.
pub struct Always<F>(pub F);

impl<N, C: Copy> NodeFn<N> for Flat<C> {
    type Output = Option<C>;

    open spec fn is_function(&self) -> bool {
        true
    }

    open spec fn value(&self, n: &N) -> Option<C> {
        Some(self.0)
    }

    fn eval(&self, n: &N) -> (r: Option<C>) {
        Some(self.0)
    }
}

impl<N> NodeFn<N> for Never {
    type Output = bool;

    open spec fn is_function(&self) -> bool {
        true
    }

    open spec fn value(&self, n: &N) -> bool {
        false
    }

    fn eval(&self, n: &N) -> (r: bool) {
        false
    }
}

impl<N> NodeFn<N> for Every {
    type Output = bool;

    open spec fn is_function(&self) -> bool {
        true
    }

    open spec fn value(&self, n: &N) -> bool {
        true
    }

    fn eval(&self, n: &N) -> (r: bool) {
        true
    }
}

impl<N, F: NodeFn<N>> NodeFn<N> for Always<F> {
    type Output = Option<F::Output>;

    open spec fn is_function(&self) -> bool {
        self.0.is_function()
    }

    open spec fn value(&self, n: &N) -> Option<F::Output> {
        Some(self.0.value(n))
    }

    fn eval(&self, n: &N) -> (r: Option<F::Output>) {
        Some(self.0.eval(n))
    }
}

/// A closure that accepts every node, and whose contract allows one result
/// per node, stands for a function.
pub proof fn lemma_closure_is_function<N, R, F: Fn(&N) -> R>(f: F)
    requires
        forall|n: &N| #[trigger] call_requires(f, (n,)),
        forall|n: &N, a: R, b: R|
            #[trigger] call_ensures(f, (n,), a) && #[trigger] call_ensures(f, (n,), b) ==> a == b,
    ensures
        f.is_function(),
{
}

/// A closure that accepts every node, and whose contract allows one list of
/// successors per node, stands for a function.
pub proof fn lemma_closure_is_expansion<N, F: Fn(&N) -> Vec<N>>(f: F)
    requires
        forall|n: &N| #[trigger] call_requires(f, (n,)),
        forall|n: &N, a: Vec<N>, b: Vec<N>|
            #[trigger] call_ensures(f, (n,), a) && #[trigger] call_ensures(f, (n,), b) ==> a@
                == b@,
    ensures
        f.is_expansion(),
{
}

} // verus!
