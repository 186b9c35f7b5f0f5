use std::time::Duration;

use tree_traversal::bfs::bfs;
use tree_traversal::dfs::dfs;
use tree_traversal::functional::{bbs, BbsReachable};
use tree_traversal::traversal::functional::{
    BranchAndBoundContainer, DepthFirstContainer, NodeContainer, Reachable,
};
use tree_traversal::traversal::Traversal;

type Node = Vec<bool>;

#[test]
fn bfs_test_bfs() {
    let weights = [3, 4, 6, 5];
    let profits = [2, 3, 2, 4];
    let capacity = 8;
    let total_items = weights.len();

    let successor_fn = |n: &Node| {
        if n.len() == total_items {
            return vec![];
        }

        let total_weight: u32 = n
            .iter()
            .copied()
            .enumerate()
            .map(|(i, b)| if b { weights[i] } else { 0 })
            .sum();

        let mut childrean = vec![];

        let mut c1 = n.clone();
        c1.push(false);
        childrean.push(c1);

        let next_idx = n.len();
        if capacity >= total_weight + weights[next_idx] {
            let mut c2 = n.clone();
            c2.push(true);
            childrean.push(c2);
        }

        childrean
    };

    let cost_fn = |n: &Node| {
        let cost: u32 = n
            .iter()
            .copied()
            .enumerate()
            .map(|(i, b)| if b { profits[i] } else { 0 })
            .sum();
        Some(u32::MAX - cost)
    };

    let leaf_check_fn = |n: &Node| n.len() == total_items;
    let max_ops = usize::MAX;
    let time_limit = Duration::from_secs(10);

    let (cost, best_node) = bfs(
        vec![],
        successor_fn,
        leaf_check_fn,
        cost_fn,
        max_ops,
        time_limit,
    )
    .unwrap();
    let cost = u32::MAX - cost;

    assert_eq!(cost, 6);
    assert_eq!(best_node, vec![true, false, false, true]);
}

#[test]
fn dfs_test_dfs() {
    let weights = [3, 4, 6, 5];
    let profits = [2, 3, 2, 4];
    let capacity = 8;
    let total_items = weights.len();

    let successor_fn = |n: &Node| {
        if n.len() == total_items {
            return vec![];
        }

        let total_weight: u32 = n
            .iter()
            .copied()
            .enumerate()
            .map(|(i, b)| if b { weights[i] } else { 0 })
            .sum();

        let mut childrean = vec![];

        let mut c1 = n.clone();
        c1.push(false);
        childrean.push(c1);

        let next_idx = n.len();
        if capacity >= total_weight + weights[next_idx] {
            let mut c2 = n.clone();
            c2.push(true);
            childrean.push(c2);
        }

        childrean
    };

    let cost_fn = |n: &Node| {
        let cost: u32 = n
            .iter()
            .copied()
            .enumerate()
            .map(|(i, b)| if b { profits[i] } else { 0 })
            .sum();
        Some(u32::MAX - cost)
    };

    let leaf_check_fn = |n: &Node| n.len() == total_items;
    let max_ops = usize::MAX;
    let time_limit = Duration::from_secs(10);

    let (cost, best_node) = dfs(
        vec![],
        successor_fn,
        leaf_check_fn,
        cost_fn,
        max_ops,
        time_limit,
    )
    .unwrap();
    let cost = u32::MAX - cost;

    assert_eq!(cost, 6);
    assert_eq!(best_node, vec![true, false, false, true]);
}

#[test]
fn bbs_as_one_traversal() {
    let weights = [4, 2, 6, 3, 4];
    let profits = [100, 20, 2, 5, 10];
    let capacity = 8;
    let total_items = weights.len();

    let successor_fn = |n: &Node| {
        if n.len() == total_items {
            return vec![];
        }

        let total_weight: u32 = n
            .iter()
            .copied()
            .enumerate()
            .map(|(i, b)| if b { weights[i] } else { 0 })
            .sum();

        let mut childrean = vec![];

        let next_idx = n.len();
        if capacity >= total_weight + weights[next_idx] {
            let mut c1 = n.clone();
            c1.push(true);
            childrean.push(c1);
        }

        let mut c2 = n.clone();
        c2.push(false);
        childrean.push(c2);

        childrean
    };

    let total_profit = |n: &Node| {
        let s: u32 = n
            .iter()
            .copied()
            .enumerate()
            .map(|(i, b)| if b { profits[i] } else { 0 })
            .sum();
        s
    };

    let lower_bound_fn = |n: &Node| {
        let current_profit = total_profit(n);
        let max_remained_profit: u32 = profits[n.len()..].iter().sum();
        Some(u32::MAX - (current_profit + max_remained_profit))
    };

    let cost_fn = |n: &Node| Some(u32::MAX - total_profit(n));

    let leaf_check_fn = |n: &Node| n.len() == total_items;

    let max_ops = usize::MAX;
    let time_limit = Duration::from_secs(10);

    let (cost, best_node) = bbs(
        vec![],
        successor_fn,
        leaf_check_fn,
        cost_fn,
        lower_bound_fn,
        max_ops,
        time_limit,
    )
    .unwrap();
    let cost = u32::MAX - cost;

    assert_eq!(cost, 120);
    assert_eq!(best_node, vec![true, true, false, false, false]);
}

type Path = Vec<u8>;

fn kids(n: &Path) -> Vec<Path> {
    match n.as_slice() {
        [] => vec![vec![0], vec![1], vec![2]],
        [0] => vec![vec![0, 0], vec![0, 1]],
        [2] => vec![vec![2, 0]],
        _ => vec![],
    }
}

fn is_leaf(n: &Path) -> bool {
    kids(n).is_empty()
}

fn sum(n: &Path) -> Option<u32> {
    Some(n.iter().map(|&x| x as u32).sum())
}

#[test]
fn a_traversal_goes_on_from_a_given_stack_and_best_cost() {
    // With the best cost 1, [2] with its bound 2 is not expanded, and [0]
    // with its bound 0 is.
    let bound = |n: &Path| Some(if n.as_slice() == [2] { 2u32 } else { 0 });
    let mut tree = BbsReachable::new(vec![vec![0], vec![2]], kids, is_leaf, sum, bound, Some(1));
    let mut seen = vec![];
    while let Some(n) = tree.next() {
        seen.push(n);
    }
    let expected: Vec<Path> = vec![vec![2], vec![0], vec![0, 1], vec![0, 0]];
    assert_eq!(seen, expected);

    // Without a best cost [2] is expanded.
    let mut tree = BbsReachable::new(vec![vec![0], vec![2]], kids, is_leaf, sum, bound, None);
    assert_eq!(tree.next(), Some(vec![2]));
    assert_eq!(tree.next(), Some(vec![2, 0]));

    let mut tree = BbsReachable::new(vec![], kids, is_leaf, sum, bound, None::<u32>);
    assert_eq!(tree.next(), None);
}

#[test]
fn a_frontier_can_be_driven_by_hand() {
    let mut frontier = DepthFirstContainer::new(vec![], kids);
    assert_eq!(frontier.pop(), Some(vec![]));
    assert_eq!(frontier.pop(), None);
    frontier.expand_and_push(&vec![0]);
    assert_eq!(frontier.pop(), Some(vec![0, 1]));
    assert_eq!(frontier.pop(), Some(vec![0, 0]));
    assert_eq!(frontier.pop(), None);

    let bound = |_: &Path| Some(0u32);
    let frontier =
        BranchAndBoundContainer::resume(vec![vec![2], vec![1]], kids, is_leaf, sum, bound, Some(0));
    let mut tree = Reachable::new(frontier);
    assert_eq!(tree.next(), Some(vec![1]));
    assert_eq!(tree.next(), Some(vec![2]));
    assert_eq!(tree.next(), None);
}
