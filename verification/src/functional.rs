//! Branch and bound as one traversal, and the searches built on it.

pub mod bbs;

pub use bbs::{bbs, bbs_reach, BbsReachable};
pub use crate::common::{search, search_counted, search_replayed};
pub use crate::traversal::functional::common::{find_best, traverse};
