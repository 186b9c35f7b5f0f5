use std::cmp::Ordering;
use std::time::Duration;

use tree_traversal::callback::{Always, Every, Flat, Never, NodeFn, Successors};
use tree_traversal::clock::{used_up, Stopwatch, Watch};
use tree_traversal::order::less;
use tree_traversal::ranked::{merge, place, place_scored};
use tree_traversal::utils::ScoredItem;

#[test]
fn a_scored_item_gives_back_what_it_holds() {
    assert_eq!(ScoredItem(3u32, "a").into_item(), "a");
    assert_eq!(ScoredItem(3u32, "a").into_inner(), (3, "a"));
    let item = ScoredItem::from((7u32, "b"));
    assert_eq!(item.into_inner(), (7, "b"));
}

#[test]
fn scored_items_compare_by_score_alone() {
    assert!(ScoredItem(3u32, "a") == ScoredItem(3u32, "b"));
    assert!(ScoredItem(3u32, "a") != ScoredItem(4u32, "a"));
    assert!(ScoredItem(3u32, "z") < ScoredItem(4u32, "a"));
    assert_eq!(
        ScoredItem(5u32, "a").partial_cmp(&ScoredItem(4u32, "b")),
        Some(Ordering::Greater)
    );
    assert_eq!(
        ScoredItem(4u32, "a").partial_cmp(&ScoredItem(4u32, "b")),
        Some(Ordering::Equal)
    );
}

#[test]
fn less_is_strict() {
    assert!(less(&1u32, &2u32));
    assert!(!less(&2u32, &2u32));
    assert!(!less(&3u32, &2u32));
    assert!(less(&(1u8, 9u8), &(2u8, 0u8)));
}

#[test]
fn a_time_budget_is_used_up_once_the_limit_is_reached() {
    assert!(used_up(0, 0));
    assert!(used_up(5, 5));
    assert!(used_up(6, 5));
    assert!(!used_up(4, 5));
    assert!(!used_up(0, u128::MAX));
}

fn scores(entries: &Vec<ScoredItem<u32, &'static str>>) -> Vec<(u32, &'static str)> {
    entries.iter().map(|e| (e.0, e.1)).collect()
}

#[test]
fn an_entry_goes_behind_those_that_do_not_score_higher() {
    let mut entries = vec![];
    place(&mut entries, ScoredItem(5u32, "a"));
    place(&mut entries, ScoredItem(3u32, "b"));
    place(&mut entries, ScoredItem(5u32, "c"));
    place(&mut entries, ScoredItem(4u32, "d"));
    place(&mut entries, ScoredItem(3u32, "e"));
    place(&mut entries, ScoredItem(9u32, "f"));
    assert_eq!(
        scores(&entries),
        vec![(3, "b"), (3, "e"), (4, "d"), (5, "a"), (5, "c"), (9, "f")]
    );
}

#[test]
fn nodes_without_score_are_not_placed() {
    let score = |n: &&'static str| -> Option<u32> {
        if *n == "x" {
            None
        } else {
            Some(n.len() as u32)
        }
    };
    let mut entries = vec![ScoredItem(2u32, "ab")];
    place_scored(&mut entries, vec!["abc", "x", "a", "cd"], &score);
    assert_eq!(scores(&entries), vec![(1, "a"), (2, "ab"), (2, "cd"), (3, "abc")]);
}

#[test]
fn only_the_leading_entries_are_merged() {
    let mut entries = vec![ScoredItem(2u32, "a"), ScoredItem(6u32, "b")];
    let more = vec![ScoredItem(1u32, "c"), ScoredItem(4u32, "d"), ScoredItem(5u32, "e")];
    merge(&mut entries, more, 2);
    assert_eq!(scores(&entries), vec![(1, "c"), (2, "a"), (4, "d"), (6, "b")]);

    let mut entries = vec![ScoredItem(2u32, "a")];
    merge(&mut entries, vec![ScoredItem(1u32, "c")], 0);
    assert_eq!(scores(&entries), vec![(2, "a")]);

    let mut entries = vec![ScoredItem(2u32, "a")];
    merge(&mut entries, vec![ScoredItem(1u32, "c")], usize::MAX);
    assert_eq!(scores(&entries), vec![(1, "c"), (2, "a")]);
}

#[test]
fn closures_are_callbacks() {
    let double = |n: &u32| n * 2;
    assert_eq!(double.eval(&4), 8);
    let below = |n: &u32| (0..*n).collect::<Vec<u32>>();
    assert_eq!(below.successors(&3), vec![0, 1, 2]);
}

#[test]
fn the_fixed_callbacks_answer_the_same_for_every_node() {
    assert_eq!(NodeFn::<u8>::eval(&Flat(4u32), &0), Some(4));
    assert_eq!(NodeFn::<u8>::eval(&Flat(4u32), &9), Some(4));
    assert!(!NodeFn::<u8>::eval(&Never, &0));
    let double = |n: &u32| n * 2;
    assert_eq!(Always(double).eval(&4), Some(8));
}

#[test]
fn a_stopwatch_of_no_length_is_over_at_once() {
    assert!(Stopwatch::begin(&Duration::ZERO).is_over());
    assert!(!Stopwatch::begin(&Duration::from_secs(3600)).is_over());
}

#[test]
fn every_node_can_be_called_a_leaf() {
    assert!(NodeFn::<u8>::eval(&Every, &0));
    assert!(NodeFn::<u8>::eval(&Every, &200));
}

#[test]
fn a_watch_says_when_a_search_is_to_stop() {
    assert!(!Watch::Unbounded.is_over(0));
    assert!(!Watch::Unbounded.is_over(usize::MAX));
    let watch = Watch::Replayed { spent: vec![1, 4, 5, 2], limit: 5 };
    assert!(!watch.is_over(0));
    assert!(!watch.is_over(1));
    assert!(watch.is_over(2));
    assert!(!watch.is_over(3));
    assert!(watch.is_over(4));
    assert!(Watch::Running(Stopwatch::begin(&Duration::ZERO)).is_over(0));
}
