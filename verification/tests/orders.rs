use tree_traversal::traversal::functional::{
    bbs_reach, bfs_reach, bms_reach, dfs_reach, gds_reach, pfs_reach,
};
use tree_traversal::traversal::Traversal;

type Node = Vec<u8>;

// The tree of these tests:
//
//   []
//   +-- [0]
//   |   +-- [0, 0]
//   |   +-- [0, 1]
//   +-- [1]
//   +-- [2]
//       +-- [2, 0]
fn kids(n: &Node) -> Vec<Node> {
    match n.as_slice() {
        [] => vec![vec![0], vec![1], vec![2]],
        [0] => vec![vec![0, 0], vec![0, 1]],
        [2] => vec![vec![2, 0]],
        _ => vec![],
    }
}

fn is_leaf(n: &Node) -> bool {
    kids(n).is_empty()
}

fn sum(n: &Node) -> Option<u32> {
    Some(n.iter().map(|&x| x as u32).sum())
}

fn all<T: Traversal<Node>>(mut tree: T) -> Vec<Node> {
    let mut seen = vec![];
    while let Some(n) = tree.next() {
        seen.push(n);
    }
    seen
}

#[test]
fn depth_first_takes_the_last_successor_first() {
    let seen = all(dfs_reach(vec![], kids));
    let expected: Vec<Node> = vec![
        vec![],
        vec![2],
        vec![2, 0],
        vec![1],
        vec![0],
        vec![0, 1],
        vec![0, 0],
    ];
    assert_eq!(seen, expected);
}

#[test]
fn breadth_first_goes_level_by_level() {
    let seen = all(bfs_reach(vec![], kids));
    let expected: Vec<Node> = vec![
        vec![],
        vec![0],
        vec![1],
        vec![2],
        vec![0, 0],
        vec![0, 1],
        vec![2, 0],
    ];
    assert_eq!(seen, expected);
}

#[test]
fn an_exhausted_traversal_stays_exhausted() {
    let mut tree = dfs_reach(vec![9], kids);
    assert_eq!(tree.next(), Some(vec![9]));
    assert_eq!(tree.next(), None);
    assert_eq!(tree.next(), None);
    let mut tree = bms_reach(vec![9], kids, sum, 2, 0);
    assert_eq!(tree.next(), Some(vec![9]));
    assert_eq!(tree.next(), None);
    assert_eq!(tree.next(), None);
}

#[test]
fn priority_first_takes_the_highest_priority() {
    let priority = |n: &Node| -> Option<u32> {
        match n.as_slice() {
            [] => Some(0),
            [0] => Some(1),
            [1] => Some(3),
            [2] => Some(2),
            [0, 0] => Some(5),
            [0, 1] => Some(2),
            _ => Some(2),
        }
    };
    let seen = all(pfs_reach(vec![], kids, priority));
    let expected: Vec<Node> = vec![
        vec![],
        vec![1],
        vec![2],
        vec![2, 0],
        vec![0],
        vec![0, 0],
        vec![0, 1],
    ];
    assert_eq!(seen, expected);
}

#[test]
fn priority_first_takes_the_latest_of_equal_priorities() {
    let seen = all(pfs_reach(vec![], kids, |_: &Node| Some(7u32)));
    let expected: Vec<Node> = vec![
        vec![],
        vec![2],
        vec![2, 0],
        vec![1],
        vec![0],
        vec![0, 1],
        vec![0, 0],
    ];
    assert_eq!(seen, expected);
}

#[test]
fn priority_first_never_visits_a_node_without_priority() {
    let priority = |n: &Node| -> Option<u32> {
        if n.as_slice() == [0] {
            None
        } else {
            Some(n.len() as u32)
        }
    };
    let seen = all(pfs_reach(vec![], kids, priority));
    let expected: Vec<Node> = vec![vec![], vec![2], vec![2, 0], vec![1]];
    assert_eq!(seen, expected);

    let seen = all(pfs_reach(vec![], kids, |_: &Node| None::<u32>));
    assert!(seen.is_empty());
}

#[test]
fn greedy_follows_the_lowest_score() {
    let eval = |n: &Node| -> Option<u32> {
        match n.as_slice() {
            [0] => Some(5),
            [1] => None,
            [2] => Some(3),
            _ => Some(1),
        }
    };
    let seen = all(gds_reach(vec![], kids, eval));
    let expected: Vec<Node> = vec![vec![], vec![2], vec![2, 0]];
    assert_eq!(seen, expected);
}

#[test]
fn greedy_takes_the_first_of_equal_scores() {
    let seen = all(gds_reach(vec![], kids, |_: &Node| Some(4u32)));
    let expected: Vec<Node> = vec![vec![], vec![0], vec![0, 0]];
    assert_eq!(seen, expected);
}

#[test]
fn greedy_ends_where_no_successor_has_a_score() {
    let eval = |n: &Node| -> Option<u32> {
        if n.len() == 1 {
            None
        } else {
            Some(0)
        }
    };
    let seen = all(gds_reach(vec![], kids, eval));
    let expected: Vec<Node> = vec![vec![]];
    assert_eq!(seen, expected);
}

#[test]
fn beam_keeps_the_best_branches_and_the_best_of_a_generation() {
    let seen = all(bms_reach(vec![], kids, sum, 2, 2));
    let expected: Vec<Node> = vec![vec![], vec![0], vec![1], vec![0, 0], vec![0, 1]];
    assert_eq!(seen, expected);

    let seen = all(bms_reach(vec![], kids, sum, 3, 2));
    assert_eq!(seen, expected);

    let seen = all(bms_reach(vec![], kids, sum, 3, 1));
    let expected: Vec<Node> = vec![vec![], vec![0], vec![0, 0]];
    assert_eq!(seen, expected);

    let seen = all(bms_reach(vec![], kids, sum, 1, 5));
    assert_eq!(seen, expected);
}

#[test]
fn beam_puts_a_generation_in_order_of_score() {
    let eval = |n: &Node| -> Option<u32> {
        match n.as_slice() {
            [0] => Some(9),
            [1] => Some(4),
            [2] => Some(4),
            [0, 0] => Some(3),
            [0, 1] => Some(1),
            [2, 0] => Some(2),
            _ => Some(0),
        }
    };
    let seen = all(bms_reach(vec![], kids, eval, usize::MAX, usize::MAX));
    let expected: Vec<Node> = vec![
        vec![],
        vec![1],
        vec![2],
        vec![0],
        vec![0, 1],
        vec![2, 0],
        vec![0, 0],
    ];
    assert_eq!(seen, expected);
}

#[test]
fn beam_drops_successors_without_score() {
    let eval = |n: &Node| -> Option<u32> {
        if n.as_slice() == [0] {
            None
        } else {
            Some(n.len() as u32)
        }
    };
    let seen = all(bms_reach(vec![], kids, eval, usize::MAX, usize::MAX));
    let expected: Vec<Node> = vec![vec![], vec![1], vec![2], vec![2, 0]];
    assert_eq!(seen, expected);
}

// The same tree with the successors of the root in reverse order, so that
// the cheapest leaf is found first.
fn kids_reversed(n: &Node) -> Vec<Node> {
    let mut k = kids(n);
    if n.is_empty() {
        k.reverse();
    }
    k
}

#[test]
fn branch_and_bound_prunes_what_cannot_improve() {
    let bound = |n: &Node| -> Option<u32> {
        match n.as_slice() {
            [2] => Some(2),
            _ => Some(0),
        }
    };
    let seen = all(bbs_reach(vec![], kids_reversed, is_leaf, sum, bound));
    let expected: Vec<Node> = vec![
        vec![],
        vec![0],
        vec![0, 1],
        vec![0, 0],
        vec![1],
        vec![2],
    ];
    assert_eq!(seen, expected);
}

#[test]
fn branch_and_bound_prunes_a_bound_equal_to_the_best_cost() {
    let seen = all(bbs_reach(vec![], kids_reversed, is_leaf, sum, |_: &Node| Some(0u32)));
    let expected: Vec<Node> = vec![
        vec![],
        vec![0],
        vec![0, 1],
        vec![0, 0],
        vec![1],
        vec![2],
    ];
    assert_eq!(seen, expected);
}

#[test]
fn branch_and_bound_expands_a_node_without_bound() {
    let seen = all(bbs_reach(vec![], kids_reversed, is_leaf, sum, |_: &Node| None::<u32>));
    let expected: Vec<Node> = vec![
        vec![],
        vec![0],
        vec![0, 1],
        vec![0, 0],
        vec![1],
        vec![2],
        vec![2, 0],
    ];
    assert_eq!(seen, expected);
}

#[test]
fn branch_and_bound_expands_everything_before_the_first_leaf() {
    let seen = all(bbs_reach(vec![], kids, is_leaf, sum, |_: &Node| Some(100u32)));
    // [2] is expanded, as no leaf has been visited before it; once [2, 0]
    // has been visited, nothing with bound 100 is expanded.
    let expected: Vec<Node> = vec![vec![], vec![2], vec![2, 0], vec![1], vec![0]];
    assert_eq!(seen, expected);
}

#[test]
fn branch_and_bound_does_not_expand_a_leaf() {
    let leaf = |n: &Node| n.len() == 1;
    let seen = all(bbs_reach(vec![], kids, leaf, sum, |_: &Node| None::<u32>));
    let expected: Vec<Node> = vec![vec![], vec![2], vec![1], vec![0]];
    assert_eq!(seen, expected);
}
