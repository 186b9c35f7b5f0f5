use std::time::Duration;

use tree_traversal::common::search;
use tree_traversal::traversal::functional::{
    bbs, bfs, bfs_reach, bms, dfs, dfs_reach, find_best, find_best_counted, gds, pfs, traverse,
    traverse_counted, traverse_replayed,
};
use tree_traversal::traversal::Traversal;

type Node = Vec<u8>;

fn kids(n: &Node) -> Vec<Node> {
    match n.as_slice() {
        [] => vec![vec![0], vec![1], vec![2]],
        [0] => vec![vec![0, 0], vec![0, 1]],
        [2] => vec![vec![2, 0]],
        _ => vec![],
    }
}

fn is_leaf(n: &Node) -> bool {
    kids(n).is_empty()
}

fn sum(n: &Node) -> Option<u32> {
    Some(n.iter().map(|&x| x as u32).sum())
}

fn ten_seconds() -> Duration {
    Duration::from_secs(10)
}

fn run(strategy: usize, max_ops: usize, time_limit: Duration) -> Option<(u32, Node)> {
    match strategy {
        0 => dfs(vec![], kids, is_leaf, sum, max_ops, time_limit),
        1 => bfs(vec![], kids, is_leaf, sum, max_ops, time_limit),
        2 => gds(vec![], kids, is_leaf, sum, sum, max_ops, time_limit),
        3 => bms(vec![], kids, is_leaf, sum, sum, 2, 2, max_ops, time_limit),
        4 => bbs(vec![], kids, is_leaf, sum, |_: &Node| Some(0u32), max_ops, time_limit),
        5 => pfs(vec![], kids, is_leaf, sum, sum, max_ops, time_limit),
        6 => tree_traversal::bfs::bfs(vec![], kids, is_leaf, sum, max_ops, time_limit),
        7 => tree_traversal::dfs::dfs(vec![], kids, is_leaf, sum, max_ops, time_limit),
        _ => tree_traversal::functional::bbs(
            vec![],
            kids,
            is_leaf,
            sum,
            |_: &Node| Some(0u32),
            max_ops,
            time_limit,
        ),
    }
}

#[test]
fn no_operations_find_nothing() {
    for strategy in 0..9 {
        assert_eq!(run(strategy, 0, ten_seconds()), None);
    }
    let mut tree = dfs_reach(vec![], kids);
    assert_eq!(search(&mut tree, is_leaf, sum, 0, ten_seconds()), None);
    let mut tree = dfs_reach(vec![], kids);
    assert_eq!(find_best(&mut tree, is_leaf, sum, 0, ten_seconds()), None);
    let mut tree = dfs_reach(vec![], kids);
    assert!(traverse(&mut tree, is_leaf, sum, 0, ten_seconds(), 3).is_empty());
}

#[test]
fn no_time_finds_nothing() {
    for strategy in 0..9 {
        assert_eq!(run(strategy, usize::MAX, Duration::ZERO), None);
    }
    let mut tree = bfs_reach(vec![], kids);
    assert_eq!(search(&mut tree, is_leaf, sum, usize::MAX, Duration::ZERO), None);
}

#[test]
fn time_to_spare_finds_the_cheapest_leaf() {
    for strategy in [0, 1, 4, 5, 6, 7, 8] {
        assert_eq!(run(strategy, usize::MAX, ten_seconds()), Some((0, vec![0, 0])));
    }
    assert_eq!(run(0, usize::MAX, Duration::from_secs(3600)), Some((0, vec![0, 0])));
}

#[test]
fn depth_first_search_finds_the_best_of_what_the_budget_reaches() {
    assert_eq!(run(0, 1, ten_seconds()), None);
    assert_eq!(run(0, 2, ten_seconds()), None);
    assert_eq!(run(0, 3, ten_seconds()), Some((2, vec![2, 0])));
    assert_eq!(run(0, 4, ten_seconds()), Some((1, vec![1])));
    assert_eq!(run(0, 5, ten_seconds()), Some((1, vec![1])));
    assert_eq!(run(0, 6, ten_seconds()), Some((1, vec![1])));
    assert_eq!(run(0, 7, ten_seconds()), Some((0, vec![0, 0])));
    assert_eq!(run(0, 8, ten_seconds()), Some((0, vec![0, 0])));
}

#[test]
fn breadth_first_search_finds_the_best_of_what_the_budget_reaches() {
    assert_eq!(run(1, 2, ten_seconds()), None);
    assert_eq!(run(1, 3, ten_seconds()), Some((1, vec![1])));
    assert_eq!(run(1, 4, ten_seconds()), Some((1, vec![1])));
    assert_eq!(run(1, 5, ten_seconds()), Some((0, vec![0, 0])));
    assert_eq!(run(6, 2, ten_seconds()), None);
    assert_eq!(run(6, 3, ten_seconds()), Some((1, vec![1])));
    assert_eq!(run(6, 5, ten_seconds()), Some((0, vec![0, 0])));
}

#[test]
fn a_larger_budget_never_finds_a_worse_leaf() {
    for strategy in 0..9 {
        let mut last: Option<u32> = None;
        for max_ops in 0..10 {
            let cost = run(strategy, max_ops, ten_seconds()).map(|found| found.0);
            match (last, cost) {
                (Some(before), Some(now)) => assert!(now <= before),
                (Some(_), None) => panic!("a found leaf was lost"),
                _ => {}
            }
            last = cost;
        }
    }
}

#[test]
fn the_same_search_gives_the_same_result() {
    for strategy in 0..9 {
        for max_ops in [0, 1, 3, 5, usize::MAX] {
            let first = run(strategy, max_ops, ten_seconds());
            let second = run(strategy, max_ops, ten_seconds());
            assert_eq!(first, second);
        }
    }
}

#[test]
fn the_node_that_meets_the_limit_is_pulled_and_dropped() {
    let mut tree = dfs_reach(vec![], kids);
    let found = traverse(&mut tree, is_leaf, sum, 1, ten_seconds(), 3);
    assert!(found.is_empty());
    // The root was processed and [2] was pulled and dropped: [2, 0] is next.
    assert_eq!(tree.next(), Some(vec![2, 0]));

    let mut tree = dfs_reach(vec![], kids);
    let found = search(&mut tree, is_leaf, sum, 3, ten_seconds());
    assert_eq!(found, Some((2, vec![2, 0])));
    // [1] was pulled and dropped: [0] is next.
    assert_eq!(tree.next(), Some(vec![0]));
}

#[test]
fn a_search_that_ends_leaves_the_traversal_exhausted() {
    let mut tree = bfs_reach(vec![], kids);
    let found = find_best(&mut tree, is_leaf, sum, 100, ten_seconds());
    assert_eq!(found, Some((0, vec![0, 0])));
    assert_eq!(tree.next(), None);
}

#[test]
fn a_counted_search_processes_just_what_the_budget_allows() {
    // Depth-first order: [], [2], [2, 0], [1], [0], [0, 1], [0, 0].
    let expected = [
        None,
        None,
        None,
        Some((2, vec![2, 0])),
        Some((1, vec![1])),
        Some((1, vec![1])),
        Some((1, vec![1])),
        Some((0, vec![0, 0])),
        Some((0, vec![0, 0])),
    ];
    for (max_ops, found) in expected.iter().enumerate() {
        let mut tree = dfs_reach(vec![], kids);
        assert_eq!(&find_best_counted(&mut tree, is_leaf, sum, max_ops), found);
    }

    let mut tree = bfs_reach(vec![], kids);
    let found = traverse_counted(&mut tree, is_leaf, sum, 5, 2);
    assert_eq!(found, vec![(0, vec![0, 0]), (1, vec![1])]);
    // [0, 1] was pulled and dropped: [2, 0] is next.
    assert_eq!(tree.next(), Some(vec![2, 0]));
    assert_eq!(tree.next(), None);

    let mut tree = bfs_reach(vec![], kids);
    assert!(traverse_counted(&mut tree, is_leaf, sum, 0, 2).is_empty());
    assert_eq!(tree.next(), Some(vec![0]));
}

#[test]
fn a_search_stops_at_the_first_reading_that_reaches_the_limit() {
    // Depth-first order: [], [2], [2, 0], [1], [0], [0, 1], [0, 0].
    let mut tree = dfs_reach(vec![], kids);
    let found = traverse_replayed(&mut tree, is_leaf, sum, usize::MAX, vec![0, 5, 9, 10, 3], 10, 3);
    assert_eq!(found, vec![(2, vec![2, 0])]);
    // [1] met the limit: it was pulled and dropped, and [0] is next.
    assert_eq!(tree.next(), Some(vec![0]));

    let mut tree = dfs_reach(vec![], kids);
    let found = traverse_replayed(&mut tree, is_leaf, sum, usize::MAX, vec![0, 5, 9, 9, 3], 10, 3);
    assert_eq!(found, vec![(1, vec![1]), (2, vec![2, 0])]);
    // The readings ran out at [0, 1].
    assert_eq!(tree.next(), Some(vec![0, 0]));

    let mut tree = dfs_reach(vec![], kids);
    let found = traverse_replayed(&mut tree, is_leaf, sum, usize::MAX, vec![0; 20], 1, 3);
    assert_eq!(found, vec![(0, vec![0, 0]), (1, vec![1]), (1, vec![0, 1])]);
    assert_eq!(tree.next(), None);

    let mut tree = dfs_reach(vec![], kids);
    let found = traverse_replayed(&mut tree, is_leaf, sum, 4, vec![0; 20], 1, 3);
    assert_eq!(found, vec![(1, vec![1]), (2, vec![2, 0])]);

    for spent in [vec![], vec![0, 0, 0], vec![7, 0, 0]] {
        let mut tree = dfs_reach(vec![], kids);
        let limit = if spent.is_empty() { 5 } else { spent[0] };
        let found = traverse_replayed(&mut tree, is_leaf, sum, usize::MAX, spent, limit, 3);
        assert!(found.is_empty());
        // The root was pulled and dropped.
        assert_eq!(tree.next(), Some(vec![2]));
    }
}
