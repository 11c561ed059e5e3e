use tree_similarity::label_intersection::{
    bounded_label_intersection_distance, bounded_label_intersection_inverted_distance,
    label_intersection_distance, label_intersection_inverted_distance, InvertedTree,
};
use tree_similarity::parsing::parse_tree;
use tree_similarity::tree::TreeArena;

fn pt(s: &str) -> TreeArena {
    parse_tree(s.as_bytes()).unwrap()
}

#[test]
fn test_label_intersection() {
    let t1 = pt("{a{b}{c}}");
    let t2 = pt("{a{d}{c}}");
    assert_eq!(label_intersection_distance(&t1, &t2), 1)
}

#[test]
fn test_bounded_label_intersection_1() {
    let t1 = pt("{a{b}{c}{f}}");
    let t2 = pt("{a{d}{e}}");
    assert_eq!(bounded_label_intersection_distance(&t1, &t2, 1), 2)
}

#[test]
fn test_bounded_label_intersection_2() {
    let t1 = pt("{a{b}{c}}");
    let t2 = pt("{a{d}{e}}");
    assert_eq!(bounded_label_intersection_distance(&t1, &t2, 3), 2)
}

#[test]
fn test_bounded_label_intersection_3() {
    let t1 = pt("{a{b}{e}{f}}");
    let t2 = pt("{a{d}{e}}");
    assert_eq!(bounded_label_intersection_distance(&t1, &t2, 1), 2)
}

#[test]
fn bounded_label_intersection_size_gate() {
    let t1 = pt("{a}");
    let t2 = pt("{a{b}{c}{d}}");
    assert_eq!(bounded_label_intersection_distance(&t1, &t2, 2), 3);
}

#[test]
fn inverted_tree_counts_labels() {
    let inv = InvertedTree::from_tree(&pt("{a{b}{a{b}{c}}}"));
    assert_eq!(inv.tree_size, 5);
    let mut counts = inv.inverted_list.clone();
    counts.sort();
    assert_eq!(
        counts,
        vec![("a".to_string(), 2), ("b".to_string(), 2), ("c".to_string(), 1)]
    );
}

#[test]
fn inverted_label_intersection_uses_multiplicities() {
    let t1 = InvertedTree::from_tree(&pt("{a{b}{b}{c}}"));
    let t2 = InvertedTree::from_tree(&pt("{a{b}{d}}"));
    // common: a once, b once
    assert_eq!(label_intersection_inverted_distance(&t1, &t2), 2);
    assert_eq!(label_intersection_inverted_distance(&t2, &t1), 2);
}

#[test]
fn bounded_inverted_label_intersection() {
    let t1 = InvertedTree::from_tree(&pt("{a{b}{b}{c}}"));
    let t2 = InvertedTree::from_tree(&pt("{a{b}{d}}"));
    // sizes differ by 1: within a bound of 5, the scan stops once below 5
    let r = bounded_label_intersection_inverted_distance(&t1, &t2, 5);
    assert!(r >= 2 && r < 5);
    // a bound of 0: the size difference 1 exceeds it
    assert_eq!(bounded_label_intersection_inverted_distance(&t1, &t2, 0), 1);
    // a bound of 2: no partial distance drops below 2, so the full one is returned
    assert_eq!(bounded_label_intersection_inverted_distance(&t1, &t2, 2), 2);
}

#[test]
fn bounded_label_intersection_signals_a_size_gap_over_the_bound() {
    let t1 = pt("{a{b}{c}{d}{e}}");
    let t2 = pt("{a}");
    assert_eq!(bounded_label_intersection_distance(&t1, &t2, 2), 3);
    assert_eq!(bounded_label_intersection_distance(&t1, &t2, 4), 4);
}
