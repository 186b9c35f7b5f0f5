//! Best-leaf search over lazily generated trees.
//!
//! A tree is given by a root node and a successor function. Six strategies
//! decide in which order its nodes are visited: depth first, breadth first,
//! greedy, beam, branch and bound, and priority first. A search pulls the
//! visited nodes one at a time, within a budget of operations and of time,
//! and keeps the cheapest leaves among them.
//!
//! # The searches
//!
//! - [`traversal::functional`] holds the strategies over callbacks: for
//!   each a frontier, the traversal that the frontier drives, and a search
//!   for the cheapest leaf; and the budgeted search itself, which works on
//!   any traversal.
//! - [`traversal`] holds the same strategies for node types that carry
//!   their own callbacks, the traits of [`node`].
//! - [`common`] holds the search that keeps a single best leaf, and
//!   [`functional`] branch and bound as one traversal.
//! - [`dfs`] and [`bfs`] run depth-first and breadth-first search as
//!   special cases of branch and bound and of beam search.
//! - [`bbs`], [`bms`] and [`gds`] search without a budget, for cost types
//!   that have a largest value.
//!
//! # The model
//!
//! Every executable function carries a contract over a mathematical model,
//! and the crate is verified against these contracts.
//!
//! - [`callback`]: a callback stands for a function of the node.
//! - [`order`]: costs and priorities are totally ordered.
//! - [`model`]: a strategy is a deterministic machine, and what it visits
//!   in `k` pulls is a function of its start and of `k`.
//! - [`best`]: the best leaves among the visited nodes.
//! - [`tree`] and [`exhaustive`]: the nodes of a finite tree, and the
//!   strategies that visit them all.
//!
//! What is proved of the strategies stands beside them: that depth-first,
//! breadth-first and priority-first search visit every node of a finite
//! tree once, that branch and bound with admissible bounds finds a leaf of
//! the least cost, that a beam that is cut nowhere finds what breadth-first
//! search finds, that a greedy traversal goes down a single path, that a
//! larger budget never finds a worse leaf, and that a search that is run
//! again finds the same again.

pub mod bbs;
pub mod best;
pub mod bfs;
pub mod bms;
pub mod callback;
pub mod clock;
pub mod common;
pub mod dfs;
pub mod exhaustive;
pub mod functional;
pub mod gds;
pub mod model;
pub mod node;
pub mod order;
pub mod ranked;
pub mod traversal;
pub mod tree;
pub mod utils;
