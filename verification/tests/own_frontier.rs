use std::time::Duration;

use tree_traversal::traversal::functional::{find_best, NodeContainer, Reachable};
use tree_traversal::traversal::Traversal;

type Node = Vec<u8>;

fn kids(n: &Node) -> Vec<Node> {
    match n.as_slice() {
        [] => vec![vec![0], vec![1], vec![2]],
        [0] => vec![vec![0, 0], vec![0, 1]],
        [2] => vec![vec![2, 0]],
        _ => vec![],
    }
}

// A frontier that visits the longest node first, and of nodes of equal
// length the one that came last.
struct Longest {
    nodes: Vec<Node>,
}

impl NodeContainer for Longest {
    type Node = Node;

    // The three relations below are what a verified frontier is held to.
    // This one is not verified, and states nothing.
    fn wf(&self) -> bool {
        true
    }

    fn pops(&self, _: Option<Node>, _: &Self) -> bool {
        true
    }

    fn expands(&self, _: &Node, _: &Self) -> bool {
        true
    }

    fn pop(&mut self) -> Option<Node> {
        let longest = self.nodes.iter().map(|n| n.len()).max()?;
        let at = self.nodes.iter().rposition(|n| n.len() == longest)?;
        Some(self.nodes.remove(at))
    }

    fn expand_and_push(&mut self, node: &Node) {
        self.nodes.extend(kids(node));
    }
}

#[test]
fn a_frontier_of_ones_own_drives_a_traversal() {
    let mut tree = Reachable::new(Longest { nodes: vec![vec![]] });
    let mut seen = vec![];
    while let Some(n) = tree.next() {
        seen.push(n);
    }
    let expected: Vec<Node> = vec![
        vec![],
        vec![2],
        vec![2, 0],
        vec![1],
        vec![0],
        vec![0, 1],
        vec![0, 0],
    ];
    assert_eq!(seen, expected);

    let mut tree = Reachable::new(Longest { nodes: vec![vec![]] });
    let found = find_best(
        &mut tree,
        |n: &Node| n.len() == 2,
        |n: &Node| Some(n[0] + n[1]),
        4,
        Duration::from_secs(10),
    );
    assert_eq!(found, Some((2, vec![2, 0])));
}
