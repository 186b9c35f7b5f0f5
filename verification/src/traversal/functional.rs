//! The strategies over callbacks, and the search that drives them.

pub mod bbs;
pub mod bfs;
pub mod bms;
pub mod common;
pub mod dfs;
pub mod gds;
pub mod pfs;

pub use bbs::{bbs, bbs_reach, BranchAndBoundContainer};
pub use bfs::{bfs, bfs_reach, BreadthFirstContainer};
pub use bms::{bms, bms_reach, BmsContainer};
pub use common::{
    find_best, find_best_counted, traverse, traverse_counted, traverse_replayed, NodeContainer,
    Reachable,
};
pub use dfs::{dfs, dfs_reach, DepthFirstContainer};
pub use gds::{gds, gds_reach, GreedyContainer};
pub use pfs::{pfs, pfs_reach, PriorityFirstContainer};
