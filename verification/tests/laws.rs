use std::time::Duration;

use tree_traversal::traversal::functional::{
    bbs, bbs_reach, bfs, bfs_reach, bms, bms_reach, dfs_reach, gds_reach, pfs_reach,
};
use tree_traversal::traversal::Traversal;

type Node = Vec<u8>;

// A tree whose shape is read off the node: a node of `n` labels has as many
// successors as its last label says, but no more than three, and none once
// it has four labels.
fn kids(n: &Node) -> Vec<Node> {
    if n.len() >= 4 {
        return vec![];
    }
    let width = match n.last() {
        None => 3,
        Some(&l) => (l % 4) as usize,
    };
    (0..width)
        .map(|i| {
            let mut c = n.clone();
            c.push((i as u8) * 2 + n.len() as u8 + 1);
            c
        })
        .collect()
}

fn size(n: &Node) -> usize {
    1 + kids(n).iter().map(size).sum::<usize>()
}

fn is_leaf(n: &Node) -> bool {
    kids(n).is_empty()
}

fn cost(n: &Node) -> Option<u32> {
    Some(n.iter().map(|&x| (x as u32 * 7) % 11).sum())
}

fn least_cost(n: &Node) -> Option<u32> {
    if is_leaf(n) {
        return cost(n);
    }
    kids(n).iter().filter_map(least_cost).min()
}

fn all<T: Traversal<Node>>(mut tree: T) -> Vec<Node> {
    let mut seen = vec![];
    while let Some(n) = tree.next() {
        seen.push(n);
    }
    seen
}

fn sorted(mut nodes: Vec<Node>) -> Vec<Node> {
    nodes.sort();
    nodes
}

fn hour() -> Duration {
    Duration::from_secs(3600)
}

#[test]
fn the_complete_strategies_visit_every_node_once() {
    let total = size(&vec![]);
    assert!(total > 10);
    let wide = all(bfs_reach(vec![], kids));
    assert_eq!(wide.len(), total);
    let deep = all(dfs_reach(vec![], kids));
    assert_eq!(deep.len(), total);
    let ranked = all(pfs_reach(vec![], kids, cost));
    assert_eq!(ranked.len(), total);
    let beam = all(bms_reach(vec![], kids, cost, usize::MAX, usize::MAX));
    assert_eq!(beam.len(), total);
    assert_eq!(sorted(deep), sorted(wide.clone()));
    assert_eq!(sorted(ranked), sorted(wide.clone()));
    assert_eq!(sorted(beam), sorted(wide));
}

#[test]
fn branch_and_bound_finds_the_least_cost_with_an_admissible_bound() {
    let wide = bfs(vec![], kids, is_leaf, cost, usize::MAX, hour()).unwrap();
    assert_eq!(Some(wide.0), least_cost(&vec![]));

    let bounded = bbs(vec![], kids, is_leaf, cost, least_cost, usize::MAX, hour()).unwrap();
    assert_eq!(bounded.0, wide.0);

    let zero = |_: &Node| Some(0u32);
    let bounded = bbs(vec![], kids, is_leaf, cost, zero, usize::MAX, hour()).unwrap();
    assert_eq!(bounded.0, wide.0);

    let none = |_: &Node| None::<u32>;
    let bounded = bbs(vec![], kids, is_leaf, cost, none, usize::MAX, hour()).unwrap();
    assert_eq!(bounded.0, wide.0);

    // The exact bound lets the search skip nodes.
    let visited = all(bbs_reach(vec![], kids, is_leaf, cost, least_cost));
    assert!(visited.len() < size(&vec![]));
}

#[test]
fn a_beam_that_is_cut_nowhere_finds_what_breadth_first_search_finds() {
    let wide = bfs(vec![], kids, is_leaf, cost, usize::MAX, hour()).unwrap();
    let by_length = |n: &Node| Some(n.len() as u32);
    for found in [
        bms(vec![], kids, is_leaf, cost, cost, usize::MAX, usize::MAX, usize::MAX, hour()),
        bms(vec![], kids, is_leaf, cost, by_length, usize::MAX, usize::MAX, usize::MAX, hour()),
    ] {
        assert_eq!(found.unwrap().0, wide.0);
    }
}

// A tree of uniform depth: every node of fewer than three labels has two
// successors.
fn twins(n: &Node) -> Vec<Node> {
    if n.len() >= 3 {
        return vec![];
    }
    (0..2u8)
        .map(|i| {
            let mut c = n.clone();
            c.push(i);
            c
        })
        .collect()
}

#[test]
fn greedy_goes_down_one_path_to_the_bottom() {
    let eval = |n: &Node| Some((n.iter().map(|&x| x as u32).sum::<u32>() * 5 + 3) % 4);
    let path = all(gds_reach(vec![], twins, eval));
    assert_eq!(path.len(), 4);
    for i in 1..path.len() {
        assert!(twins(&path[i - 1]).contains(&path[i]));
    }
    let expected: Vec<Node> = vec![vec![], vec![1], vec![1, 0], vec![1, 0, 0]];
    assert_eq!(path, expected);
}
