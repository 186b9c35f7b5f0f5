use std::time::Duration;

use tree_traversal::common::{search, search_counted, search_replayed};
use tree_traversal::traversal::functional::common::offer;
use tree_traversal::traversal::functional::{bfs_reach, dfs_reach, find_best, traverse};
use tree_traversal::traversal::Traversal;
use tree_traversal::utils::ScoredItem;

type Node = Vec<u8>;

fn kids(n: &Node) -> Vec<Node> {
    match n.as_slice() {
        [] => vec![vec![0], vec![1], vec![2]],
        [0] => vec![vec![0, 0], vec![0, 1]],
        [2] => vec![vec![2, 0]],
        _ => vec![],
    }
}

fn is_leaf(n: &Node) -> bool {
    kids(n).is_empty()
}

fn sum(n: &Node) -> Option<u32> {
    Some(n.iter().map(|&x| x as u32).sum())
}

fn ten_seconds() -> Duration {
    Duration::from_secs(10)
}

// In breadth-first order the leaves come as [1], [0, 0], [0, 1], [2, 0],
// with costs 1, 0, 1, 2.

#[test]
fn the_cheapest_leaves_are_retained_cheapest_first() {
    let mut tree = bfs_reach(vec![], kids);
    let found = traverse(&mut tree, is_leaf, sum, usize::MAX, ten_seconds(), 2);
    assert_eq!(found, vec![(0, vec![0, 0]), (1, vec![1])]);

    let mut tree = bfs_reach(vec![], kids);
    let found = traverse(&mut tree, is_leaf, sum, usize::MAX, ten_seconds(), 3);
    assert_eq!(found, vec![(0, vec![0, 0]), (1, vec![1]), (1, vec![0, 1])]);

    let mut tree = bfs_reach(vec![], kids);
    let found = traverse(&mut tree, is_leaf, sum, usize::MAX, ten_seconds(), 10);
    assert_eq!(
        found,
        vec![(0, vec![0, 0]), (1, vec![1]), (1, vec![0, 1]), (2, vec![2, 0])]
    );
}

#[test]
fn of_equal_costs_the_leaf_seen_first_stays() {
    // In depth-first order the leaves come as [2, 0], [1], [0, 1], [0, 0].
    let mut tree = dfs_reach(vec![], kids);
    let found = traverse(&mut tree, is_leaf, sum, usize::MAX, ten_seconds(), 2);
    assert_eq!(found, vec![(0, vec![0, 0]), (1, vec![1])]);

    let flat = |_: &Node| Some(5u32);
    let mut tree = dfs_reach(vec![], kids);
    let found = traverse(&mut tree, is_leaf, flat, usize::MAX, ten_seconds(), 2);
    assert_eq!(found, vec![(5, vec![2, 0]), (5, vec![1])]);

    let mut tree = dfs_reach(vec![], kids);
    let found = find_best(&mut tree, is_leaf, flat, usize::MAX, ten_seconds());
    assert_eq!(found, Some((5, vec![2, 0])));

    let mut tree = dfs_reach(vec![], kids);
    let found = search(&mut tree, is_leaf, flat, usize::MAX, ten_seconds());
    assert_eq!(found, Some((5, vec![2, 0])));
}

#[test]
fn room_for_no_leaf_retains_nothing() {
    let mut tree = bfs_reach(vec![], kids);
    let found = traverse(&mut tree, is_leaf, sum, usize::MAX, ten_seconds(), 0);
    assert!(found.is_empty());
}

#[test]
fn only_leaves_with_a_cost_are_retained() {
    let cost = |n: &Node| -> Option<u32> {
        if n.as_slice() == [0, 0] {
            None
        } else {
            sum(n)
        }
    };
    let mut tree = bfs_reach(vec![], kids);
    let found = find_best(&mut tree, is_leaf, cost, usize::MAX, ten_seconds());
    assert_eq!(found, Some((1, vec![1])));

    // The root would be the cheapest, were it a leaf.
    let mut tree = bfs_reach(vec![], kids);
    let found = traverse(&mut tree, is_leaf, cost, usize::MAX, ten_seconds(), 10);
    assert_eq!(found, vec![(1, vec![1]), (1, vec![0, 1]), (2, vec![2, 0])]);

    let mut tree = bfs_reach(vec![], kids);
    let found = find_best(&mut tree, is_leaf, |_: &Node| None::<u32>, usize::MAX, ten_seconds());
    assert_eq!(found, None);

    let mut tree = bfs_reach(vec![], kids);
    let found = search(&mut tree, |_: &Node| false, sum, usize::MAX, ten_seconds());
    assert_eq!(found, None);
}

#[test]
fn search_and_find_best_agree() {
    for max_ops in 0..9 {
        let mut first = dfs_reach(vec![], kids);
        let mut second = dfs_reach(vec![], kids);
        assert_eq!(
            search(&mut first, is_leaf, sum, max_ops, ten_seconds()),
            find_best(&mut second, is_leaf, sum, max_ops, ten_seconds())
        );
    }
}

fn pairs(queue: &Vec<ScoredItem<u32, Node>>) -> Vec<(u32, Node)> {
    queue.iter().map(|e| (e.0, e.1.clone())).collect()
}

#[test]
fn an_offered_leaf_takes_its_slot_and_the_last_entry_leaves() {
    let mut queue: Vec<ScoredItem<u32, Node>> = vec![];
    offer(&mut queue, vec![2, 0], &is_leaf, &sum, 2);
    assert_eq!(pairs(&queue), vec![(2, vec![2, 0])]);
    offer(&mut queue, vec![0, 1], &is_leaf, &sum, 2);
    assert_eq!(pairs(&queue), vec![(1, vec![0, 1]), (2, vec![2, 0])]);
    offer(&mut queue, vec![1], &is_leaf, &sum, 2);
    assert_eq!(pairs(&queue), vec![(1, vec![0, 1]), (1, vec![1])]);
    offer(&mut queue, vec![0], &is_leaf, &sum, 2);
    assert_eq!(pairs(&queue), vec![(1, vec![0, 1]), (1, vec![1])]);
    offer(&mut queue, vec![0, 0], &is_leaf, &sum, 2);
    assert_eq!(pairs(&queue), vec![(0, vec![0, 0]), (1, vec![0, 1])]);
}

// A traversal that hands out the nodes of a list, one after another.
struct Listed {
    nodes: std::vec::IntoIter<(u32, char)>,
}

impl Traversal<(u32, char)> for Listed {
    // The two relations below are what a verified traversal is held to.
    // This one is not verified, and states nothing.
    fn wf(&self) -> bool {
        true
    }

    fn pulls(&self, _: Option<(u32, char)>, _: &Self) -> bool {
        true
    }

    fn next(&mut self) -> Option<(u32, char)> {
        self.nodes.next()
    }
}

fn listed() -> Listed {
    Listed { nodes: vec![(1u32, 'a'), (1u32, 'b'), (2u32, 'c')].into_iter() }
}

#[test]
fn a_later_leaf_takes_over_only_where_it_is_strictly_cheaper() {
    let every = |_: &(u32, char)| true;
    let cost = |n: &(u32, char)| Some(n.0);

    let mut tree = listed();
    let found = search(&mut tree, every, cost, usize::MAX, Duration::from_secs(3600));
    assert_eq!(found, Some((1, (1, 'a'))));

    let mut tree = listed();
    assert_eq!(search_counted(&mut tree, every, cost, usize::MAX), Some((1, (1, 'a'))));
    let mut tree = listed();
    assert_eq!(search_counted(&mut tree, every, cost, 1), Some((1, (1, 'a'))));
    let mut tree = listed();
    assert_eq!(search_counted(&mut tree, every, cost, 0), None);

    let dear_first = |n: &(u32, char)| Some(if n.1 == 'a' { 3 } else { n.0 });
    let mut tree = listed();
    assert_eq!(search_counted(&mut tree, every, dear_first, usize::MAX), Some((1, (1, 'b'))));
    let mut tree = listed();
    assert_eq!(search_counted(&mut tree, every, dear_first, 1), Some((3, (1, 'a'))));
    // 'b' was pulled and dropped.
    assert_eq!(tree.next(), Some((2, 'c')));
}

#[test]
fn a_replayed_search_stops_at_the_first_reading_that_reaches_the_limit() {
    let every = |_: &(u32, char)| true;
    let dear_first = |n: &(u32, char)| Some(if n.1 == 'a' { 3 } else { n.0 });

    let mut tree = listed();
    let found = search_replayed(&mut tree, every, dear_first, usize::MAX, vec![0, 9, 9], 9);
    assert_eq!(found, Some((3, (1, 'a'))));
    assert_eq!(tree.next(), Some((2, 'c')));

    let mut tree = listed();
    let found = search_replayed(&mut tree, every, dear_first, usize::MAX, vec![0, 8, 9], 9);
    assert_eq!(found, Some((1, (1, 'b'))));
    assert_eq!(tree.next(), None);

    let mut tree = listed();
    let found = search_replayed(&mut tree, every, dear_first, usize::MAX, vec![0, 8, 8, 8], 9);
    assert_eq!(found, Some((1, (1, 'b'))));

    let mut tree = listed();
    let found = search_replayed(&mut tree, every, dear_first, usize::MAX, vec![], 9);
    assert_eq!(found, None);
    assert_eq!(tree.next(), Some((1, 'b')));

    let mut tree = listed();
    let found = search_replayed(&mut tree, every, dear_first, 1, vec![0, 0, 0], 9);
    assert_eq!(found, Some((3, (1, 'a'))));

    let mut tree = listed();
    let found = search_replayed(&mut tree, every, dear_first, usize::MAX, vec![0, 0, 0], 0);
    assert_eq!(found, None);
}
