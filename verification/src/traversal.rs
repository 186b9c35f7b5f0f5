//! Traversals: lazy sequences of the nodes of a tree, one per strategy.

pub mod bbs;
pub mod bfs;
pub mod bms;
pub mod common;
pub mod dfs;
pub mod functional;
pub mod gds;
pub mod pfs;

pub use bbs::BranchAndBoundTraversal;
pub use bfs::BreadthFirstTraversal;
pub use bms::BeamTraversal;
pub use common::{find_best, traverse, Traversal};
pub use dfs::DepthFirstTraversal;
pub use gds::GreedyTraversal;
pub use pfs::PriorityFirstTraversal;
