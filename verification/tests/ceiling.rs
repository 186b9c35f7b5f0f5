use tree_traversal::bbs::{bbs, bbs_reach, bbs_under, BbsReachable};
use tree_traversal::bms::{bms, bms_reach, sweep};
use tree_traversal::gds::gds;
use tree_traversal::traversal::Traversal;

type CityId = usize;
type Duration = u32;

#[derive(Debug, PartialEq, Eq, Hash, Clone)]
struct Node {
    pub city: CityId,
    pub parents: Vec<CityId>,
    pub children: Vec<CityId>,
    pub t: Duration,
}

impl Node {
    pub fn new(city: CityId, parents: Vec<CityId>, children: Vec<CityId>, t: Duration) -> Self {
        Self {
            city,
            parents,
            children,
            t,
        }
    }

    pub fn from_parent(
        parent: &Self,
        city: CityId,
        time_func: &dyn Fn(CityId, CityId) -> Duration,
    ) -> Self {
        let parents = {
            let mut _parents = parent.parents.clone();
            _parents.push(parent.city);
            _parents
        };

        let children = {
            let mut _children = parent.children.clone();
            let i = _children
                .iter()
                .copied()
                .enumerate()
                .find(|&(_, c)| c == city)
                .unwrap()
                .0;
            _children.remove(i);
            _children
        };

        let t = parent.t + time_func(parent.city, city);

        Node {
            city,
            parents,
            children,
            t,
        }
    }

    pub fn is_leaf(&self) -> bool {
        self.children.is_empty()
    }

    pub fn generate_child_nodes(
        &self,
        time_func: &dyn Fn(CityId, CityId) -> Duration,
    ) -> Vec<Self> {
        let mut child_nodes = vec![];
        for city in self.children.iter().copied() {
            let node = Self::from_parent(self, city, time_func);
            child_nodes.push(node);
        }
        child_nodes
    }
}

fn greedy_tsp_solver(
    start: CityId,
    mut cities: Vec<CityId>,
    time_func: &dyn Fn(CityId, CityId) -> Duration,
) -> (u32, Vec<usize>) {
    let n = cities.len();
    let mut route = vec![start];
    let mut prev_city = start;
    let mut total_dist = 0;
    for _ in 0..n {
        let (i, (dist, next_city)) = cities
            .iter()
            .map(|c| (time_func(prev_city, *c), *c))
            .enumerate()
            .min_by_key(|x| x.1 .0)
            .unwrap();

        cities.remove(i);
        route.push(next_city);
        prev_city = next_city;
        total_dist += dist;
    }

    (total_dist, route)
}

type Selection = Vec<bool>;

#[test]
fn bbs_test_bbs() {
    let weights = [4, 2, 6, 3, 4];
    let profits = [100, 20, 2, 5, 10];
    let capacity = 8 as u32;
    let total_items = weights.len();

    let successor_fn = |n: &Selection| {
        if n.len() == total_items {
            return vec![];
        }

        let total_weight: u32 = n
            .iter()
            .copied()
            .enumerate()
            .map(|(i, b)| {
                if b {
                    return weights[i];
                } else {
                    return 0;
                }
            })
            .sum();

        let mut childrean = vec![];

        let next_idx = n.len();
        if capacity >= total_weight + weights[next_idx] {
            let mut c1 = n.clone();
            c1.push(true);
            childrean.push(c1);
        }

        let mut c2 = n.clone();
        c2.push(false);
        childrean.push(c2);

        childrean
    };

    let total_profit = |n: &Selection| {
        let s: u32 = n
            .iter()
            .copied()
            .enumerate()
            .map(|(i, b)| {
                if b {
                    return profits[i];
                } else {
                    return 0;
                }
            })
            .sum();
        s
    };

    let lower_bound_fn = |n: &Selection| {
        let current_profit = total_profit(n);
        let max_remained_profit: u32 = profits[n.len()..].into_iter().sum();
        u32::MAX - (current_profit + max_remained_profit)
    };

    let cost_fn = |n: &Selection| u32::MAX - total_profit(n);

    let leaf_check_fn = |n: &Selection| n.len() == total_items;

    let (cost, best_node) =
        bbs(vec![], successor_fn, lower_bound_fn, cost_fn, leaf_check_fn).unwrap();
    let cost = u32::MAX - cost;

    assert_eq!(cost, 120);
    assert_eq!(best_node, vec![true, true, false, false, false]);
}

#[test]
fn bms_test_bms() {
    let distance_matrix = [
        [
            0, 2451, 713, 1018, 1631, 1374, 2408, 213, 2571, 875, 1420, 2145, 1972,
        ],
        [
            2451, 0, 1745, 1524, 831, 1240, 959, 2596, 403, 1589, 1374, 357, 579,
        ],
        [
            713, 1745, 0, 355, 920, 803, 1737, 851, 1858, 262, 940, 1453, 1260,
        ],
        [
            1018, 1524, 355, 0, 700, 862, 1395, 1123, 1584, 466, 1056, 1280, 987,
        ],
        [
            1631, 831, 920, 700, 0, 663, 1021, 1769, 949, 796, 879, 586, 371,
        ],
        [
            1374, 1240, 803, 862, 663, 0, 1681, 1551, 1765, 547, 225, 887, 999,
        ],
        [
            2408, 959, 1737, 1395, 1021, 1681, 0, 2493, 678, 1724, 1891, 1114, 701,
        ],
        [
            213, 2596, 851, 1123, 1769, 1551, 2493, 0, 2699, 1038, 1605, 2300, 2099,
        ],
        [
            2571, 403, 1858, 1584, 949, 1765, 678, 2699, 0, 1744, 1645, 653, 600,
        ],
        [
            875, 1589, 262, 466, 796, 547, 1724, 1038, 1744, 0, 679, 1272, 1162,
        ],
        [
            1420, 1374, 940, 1056, 879, 225, 1891, 1605, 1645, 679, 0, 1017, 1200,
        ],
        [
            2145, 357, 1453, 1280, 586, 887, 1114, 2300, 653, 1272, 1017, 0, 504,
        ],
        [
            1972, 579, 1260, 987, 371, 999, 701, 2099, 600, 1162, 1200, 504, 0,
        ],
    ];

    let n_cities = distance_matrix.len();

    let start = 0;
    let root_node = Node::new(start, vec![], (1..n_cities).collect(), 0);
    let time_func = |p: CityId, c: CityId| distance_matrix[p][c];

    let successor_fn = |n: &Node| n.generate_child_nodes(&time_func);
    let eval_fn = |n: &Node| {
        let (remained_duration, route) =
            greedy_tsp_solver(n.city, n.children.clone(), &time_func);
        Some(n.t + remained_duration + time_func(*route.last().unwrap(), start))
    };

    let branch_factor = 10;
    let beam_width = 5;
    let cost_fn = |n: &Node| Some(n.t + time_func(n.city, start));
    let leaf_check_fn = |n: &Node| n.is_leaf();

    let (cost, best_node) = bms(
        root_node,
        successor_fn,
        eval_fn,
        branch_factor,
        beam_width,
        cost_fn,
        leaf_check_fn,
    )
    .unwrap();

    assert!(cost < 8000);
    let mut visited_cities = best_node.parents.clone();
    visited_cities.push(best_node.city);
    visited_cities.sort();
    let all_cities: Vec<CityId> = (0..n_cities).into_iter().collect();
    assert_eq!(visited_cities, all_cities);
}

#[test]
fn gds_test_bms() {
    let distance_matrix = [
        [
            0, 2451, 713, 1018, 1631, 1374, 2408, 213, 2571, 875, 1420, 2145, 1972,
        ],
        [
            2451, 0, 1745, 1524, 831, 1240, 959, 2596, 403, 1589, 1374, 357, 579,
        ],
        [
            713, 1745, 0, 355, 920, 803, 1737, 851, 1858, 262, 940, 1453, 1260,
        ],
        [
            1018, 1524, 355, 0, 700, 862, 1395, 1123, 1584, 466, 1056, 1280, 987,
        ],
        [
            1631, 831, 920, 700, 0, 663, 1021, 1769, 949, 796, 879, 586, 371,
        ],
        [
            1374, 1240, 803, 862, 663, 0, 1681, 1551, 1765, 547, 225, 887, 999,
        ],
        [
            2408, 959, 1737, 1395, 1021, 1681, 0, 2493, 678, 1724, 1891, 1114, 701,
        ],
        [
            213, 2596, 851, 1123, 1769, 1551, 2493, 0, 2699, 1038, 1605, 2300, 2099,
        ],
        [
            2571, 403, 1858, 1584, 949, 1765, 678, 2699, 0, 1744, 1645, 653, 600,
        ],
        [
            875, 1589, 262, 466, 796, 547, 1724, 1038, 1744, 0, 679, 1272, 1162,
        ],
        [
            1420, 1374, 940, 1056, 879, 225, 1891, 1605, 1645, 679, 0, 1017, 1200,
        ],
        [
            2145, 357, 1453, 1280, 586, 887, 1114, 2300, 653, 1272, 1017, 0, 504,
        ],
        [
            1972, 579, 1260, 987, 371, 999, 701, 2099, 600, 1162, 1200, 504, 0,
        ],
    ];

    let n_cities = distance_matrix.len();

    let start = 0;
    let root_node = Node::new(start, vec![], (1..n_cities).collect(), 0);
    let time_func = |p: CityId, c: CityId| distance_matrix[p][c];

    let successor_fn = |n: &Node| n.generate_child_nodes(&time_func);
    let eval_fn = |n: &Node| n.t;

    let cost_fn = |n: &Node| n.t + time_func(n.city, start);
    let leaf_check_fn = |n: &Node| n.is_leaf();

    let (cost, best_node) =
        gds(root_node, successor_fn, eval_fn, cost_fn, leaf_check_fn).unwrap();

    assert!(cost < 9000);
    let mut visited_cities = best_node.parents.clone();
    visited_cities.push(best_node.city);
    visited_cities.sort();
    let all_cities: Vec<CityId> = (0..n_cities).into_iter().collect();
    assert_eq!(visited_cities, all_cities);
}

type Path = Vec<u8>;

fn kids(n: &Path) -> Vec<Path> {
    match n.as_slice() {
        [] => vec![vec![0], vec![1], vec![2]],
        [0] => vec![vec![0, 0], vec![0, 1]],
        [2] => vec![vec![2, 0]],
        _ => vec![],
    }
}

fn is_leaf(n: &Path) -> bool {
    kids(n).is_empty()
}

fn sum(n: &Path) -> u32 {
    n.iter().map(|&x| x as u32).sum()
}

#[test]
fn a_leaf_is_found_only_under_the_ceiling() {
    let dear = |_: &Path| u32::MAX;
    let free = |_: &Path| 0u32;
    assert_eq!(bbs(vec![], kids, free, dear, is_leaf), None);
    assert_eq!(bbs(vec![], kids, free, sum, is_leaf), Some((0, vec![0, 0])));
    assert_eq!(
        bbs(vec![], kids, free, |_: &Path| u32::MAX - 1, is_leaf),
        Some((u32::MAX - 1, vec![2, 0]))
    );

    let some = |n: &Path| Some(sum(n));
    assert_eq!(bms(vec![], kids, some, 3, 3, |_: &Path| Some(u32::MAX), is_leaf), None);
    assert_eq!(bms(vec![], kids, some, 3, 3, |_: &Path| None::<u32>, is_leaf), None);
    assert_eq!(bms(vec![], kids, some, 3, 3, some, is_leaf), Some((0, vec![0, 0])));
    assert_eq!(bms(vec![], kids, some, 3, 3, some, |_: &Path| false), None);

    assert_eq!(gds(vec![], kids, sum, dear, is_leaf), None);
    assert_eq!(gds(vec![], kids, sum, sum, is_leaf), Some((0, vec![0, 0])));
}

#[test]
fn a_node_is_expanded_where_its_bound_is_at_most_the_best_cost() {
    // The best cost stays at the ceiling while the traversal is pulled by
    // hand, so every node is expanded.
    let mut tree = bbs_reach(vec![], kids, |_: &Path| u32::MAX);
    let mut seen = vec![];
    while let Some(n) = tree.next() {
        seen.push(n);
    }
    let expected: Vec<Path> = vec![
        vec![],
        vec![2],
        vec![2, 0],
        vec![1],
        vec![0],
        vec![0, 1],
        vec![0, 0],
    ];
    assert_eq!(seen, expected);

    // In a search the best cost comes down to 2 with the leaf [1]; then
    // [0], whose bound is 3, is not expanded.
    let bound = |n: &Path| if n.as_slice() == [0] { 3 } else { 0 };
    let cost = |n: &Path| sum(n) + 1;
    assert_eq!(bbs(vec![], kids, bound, cost, is_leaf), Some((2, vec![1])));
    // With the bound 2 it is expanded, and [0, 0] is found.
    let bound = |n: &Path| if n.as_slice() == [0] { 2 } else { 0 };
    assert_eq!(bbs(vec![], kids, bound, cost, is_leaf), Some((1, vec![0, 0])));
}

#[test]
fn the_beam_traversal_is_the_beam_of_the_budgeted_search() {
    let mut tree = bms_reach(vec![], kids, |n: &Path| Some(sum(n)), 2, 2);
    let mut seen = vec![];
    while let Some(n) = tree.next() {
        seen.push(n);
    }
    let expected: Vec<Path> = vec![vec![], vec![0], vec![1], vec![0, 0], vec![0, 1]];
    assert_eq!(seen, expected);
}

#[test]
fn a_search_under_a_given_ceiling_finds_what_costs_less() {
    let five = |_: &Path| 5u32;
    let free = |_: &Path| 0u32;
    let none = |_: &Path| Vec::<Path>::new();
    let every = |_: &Path| true;
    // A single leaf of cost 5.
    assert_eq!(bbs_under(vec![7], none, five, five, every, 10), Some((5, vec![7])));
    assert_eq!(bbs_under(vec![7], none, five, five, every, 6), Some((5, vec![7])));
    assert_eq!(bbs_under(vec![7], none, five, five, every, 5), None);
    assert_eq!(bbs_under(vec![7], none, five, five, every, 0), None);
    assert_eq!(bbs(vec![7], none, five, five, every), Some((5, vec![7])));

    // Under the ceiling 1 only [0, 0] counts, under 2 the leaf [1] is found
    // first and [0, 0] after it.
    assert_eq!(bbs_under(vec![], kids, free, sum, is_leaf, 1), Some((0, vec![0, 0])));
    assert_eq!(bbs_under(vec![], kids, free, sum, is_leaf, 0), None);
    // With the bound 2 on every node and the ceiling 1 not even the root
    // is expanded.
    assert_eq!(bbs_under(vec![], kids, |_: &Path| 2u32, sum, is_leaf, 1), None);
}

#[test]
fn a_traversal_starts_with_a_given_best_cost() {
    let bound = |n: &Path| if n.as_slice() == [2] { 4u32 } else { 0 };
    let mut tree = BbsReachable::new(vec![], kids, bound, 3u32);
    let mut seen = vec![];
    while let Some(n) = tree.next() {
        seen.push(n);
    }
    // [2], whose bound is 4, is not expanded against the best cost 3.
    let expected: Vec<Path> = vec![vec![], vec![2], vec![1], vec![0], vec![0, 1], vec![0, 0]];
    assert_eq!(seen, expected);

    let mut tree = BbsReachable::new(vec![], kids, bound, 4u32);
    assert_eq!(tree.next(), Some(vec![]));
    assert_eq!(tree.next(), Some(vec![2]));
    assert_eq!(tree.next(), Some(vec![2, 0]));
}

#[test]
fn a_sweep_runs_a_traversal_to_its_end() {
    let some = |n: &Path| Some(sum(n));
    // Beam order: [], [0], [1], [0, 0], [0, 1].
    let mut tree = bms_reach(vec![], kids, some, 2, 2);
    assert_eq!(sweep(&mut tree, is_leaf, some, 5), Some((0, vec![0, 0])));
    assert_eq!(tree.next(), None);

    let mut tree = bms_reach(vec![], kids, some, 2, 2);
    assert_eq!(sweep(&mut tree, is_leaf, some, 1), Some((0, vec![0, 0])));
    let mut tree = bms_reach(vec![], kids, some, 2, 2);
    assert_eq!(sweep(&mut tree, is_leaf, some, 0), None);

    // Of the leaves [1] and [0, 1], which cost the same, the first stays.
    let flat = |n: &Path| Some(if n.as_slice() == [0, 0] { 9 } else { 4u32 });
    let mut tree = bms_reach(vec![], kids, some, 2, 2);
    assert_eq!(sweep(&mut tree, is_leaf, flat, 5), Some((4, vec![1])));
    let mut tree = bms_reach(vec![], kids, some, 2, 2);
    assert_eq!(sweep(&mut tree, is_leaf, flat, 4), None);
}
