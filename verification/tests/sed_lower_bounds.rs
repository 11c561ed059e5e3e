use tree_similarity::edit_distance::bounded_string_edit_distance;
use tree_similarity::parsing::parse_tree;
use tree_similarity::sed::{
    bounded_string_edit_distance_with_structure, TraversalCharacterInt,
    bounded_sed, bounded_sed_opt, bounded_sed_opt_int, bounded_sed_struct, bounded_sed_struct_int,
    build_sed_indices_int, build_sed_struct_indices_int, sed, SEDIndex, SEDStructIndex,
};
use tree_similarity::tree::TreeArena;

fn pt(s: &str) -> TreeArena {
    parse_tree(s.as_bytes()).unwrap()
}

#[test]
fn sed_index_lists_preorder_and_postorder() {
    let idx = SEDIndex::index_tree(&pt("{a{b{d}}{c}}"));
    assert_eq!(idx.preorder, vec!["a", "b", "d", "c"]);
    assert_eq!(idx.postorder, vec!["d", "b", "c", "a"]);
    assert_eq!(idx.tree_size, 4);
}

#[test]
fn sed_is_larger_traversal_distance() {
    let t1 = SEDIndex::index_tree(&pt("{a{b}{c}}"));
    let t2 = SEDIndex::index_tree(&pt("{a{b{c}}}"));
    // preorder a b c = a b c, postorder b c a vs c b a: distance 2
    assert_eq!(sed(&t1, &t2), 2);
    assert_eq!(sed(&t2, &t1), 2);
    assert_eq!(sed(&t1, &t1), 0);
}

#[test]
fn bounded_sed_variants_agree_within_bound() {
    let t1 = SEDIndex::index_tree(&pt("{a{b}{c}}"));
    let t2 = SEDIndex::index_tree(&pt("{a{b}{x}}"));
    assert_eq!(sed(&t1, &t2), 1);
    assert_eq!(bounded_sed(&t1, &t2, 3), 1);
    assert_eq!(bounded_sed_opt(&t1, &t2, 3), 1);
    assert_eq!(bounded_sed_opt(&t1, &t2, 0), 1);
    let (i1, i2) = build_sed_indices_int(&pt("{a{b}{c}}"), &pt("{a{b}{x}}"));
    assert_eq!(bounded_sed_opt_int(&i1, &i2, 3), 1);
}

#[test]
fn bounded_sed_size_gate() {
    let t1 = SEDIndex::index_tree(&pt("{a}"));
    let t2 = SEDIndex::index_tree(&pt("{a{b}{c}{d}}"));
    assert_eq!(bounded_sed(&t1, &t2, 1), 2);
    assert_eq!(bounded_sed_opt(&t1, &t2, 1), 2);
}

#[test]
fn struct_index_features() {
    // {a{b}{c}}: preorder a b c; n = 3
    let idx = SEDStructIndex::index_tree(&pt("{a{b}{c}}"));
    let first: Vec<(String, i32, i32)> = idx
        .first_traversal
        .iter()
        .map(|c| (c.label.clone(), c.sum, c.diff))
        .collect();
    // a: following 0, desc 2; b: following 1, desc 0; c: following 0, desc 0
    assert_eq!(
        first,
        vec![("a".to_string(), 2, 2), ("b".to_string(), 1, -1), ("c".to_string(), 0, 0)]
    );
    let second: Vec<(String, i32, i32)> = idx
        .second_traversal
        .iter()
        .map(|c| (c.label.clone(), c.sum, c.diff))
        .collect();
    // reversed preorder c b a; c: preceding 1 anc 1; b: preceding 0 anc 1; a: 0, 0
    assert_eq!(
        second,
        vec![("c".to_string(), 2, 0), ("b".to_string(), 1, 1), ("a".to_string(), 0, 0)]
    );
}

#[test]
fn bounded_sed_struct_identity_and_gate() {
    let t1 = SEDStructIndex::index_tree(&pt("{a{b}{c}}"));
    let t2 = SEDStructIndex::index_tree(&pt("{a{b}{c}{d}{e}}"));
    assert_eq!(bounded_sed_struct(&t1, &t1, 2), 0);
    assert_eq!(bounded_sed_struct(&t1, &t2, 1), 2);
    let (i1, i2) = build_sed_struct_indices_int(&pt("{a{b}{c}}"), &pt("{a{b}{c}}"));
    assert_eq!(bounded_sed_struct_int(&i1, &i2, 3), 0);
}

#[test]
fn interned_indexes_share_ids() {
    let (i1, i2) = build_sed_indices_int(&pt("{a{b}{c}}"), &pt("{c{a}{d}}"));
    assert_eq!(i1.preorder, vec![0, 1, 2]);
    assert_eq!(i2.preorder, vec![2, 0, 3]);
    assert_eq!(i1.postorder, vec![1, 2, 0]);
    assert_eq!(i2.postorder, vec![0, 3, 2]);
}

#[test]
fn structural_distance_substitutes_a_different_label() {
    let s1 = vec![TraversalCharacterInt { label: 0, sum: 0, diff: 0 }];
    let s2 = vec![TraversalCharacterInt { label: 1, sum: 0, diff: 0 }];
    assert_eq!(bounded_string_edit_distance_with_structure(s1.as_slice(), s2.as_slice(), 2), 1);
}

#[test]
fn structural_distance_refuses_a_match_whose_position_is_too_far() {
    let s1 = vec![TraversalCharacterInt { label: 0, sum: 0, diff: 0 }];
    let s2 = vec![TraversalCharacterInt { label: 0, sum: 5, diff: 5 }];
    assert_eq!(bounded_string_edit_distance_with_structure(s1.as_slice(), s2.as_slice(), 2), usize::MAX);
}

#[test]
fn bounded_string_edit_distance_is_capped_at_the_bound() {
    let a: Vec<String> = ["a", "b", "c"].iter().map(|x| x.to_string()).collect();
    let b: Vec<String> = ["x", "y", "z"].iter().map(|x| x.to_string()).collect();
    assert_eq!(bounded_string_edit_distance(a.as_slice(), b.as_slice(), 1), 1);
    assert_eq!(bounded_string_edit_distance(a.as_slice(), b.as_slice(), 5), 3);
    let c: Vec<String> = ["a", "b", "c", "d"].iter().map(|x| x.to_string()).collect();
    assert_eq!(bounded_string_edit_distance(a.as_slice(), c.as_slice(), 1), 1);
}

#[test]
fn bounded_sed_signals_over_the_bound_with_k_plus_one() {
    let t1 = SEDIndex::index_tree(&pt("{a{b}{c}{d}}"));
    let t2 = SEDIndex::index_tree(&pt("{w{x}{y}{z}}"));
    assert_eq!(bounded_sed(&t1, &t2, 1), 2);
    assert_eq!(bounded_sed(&t1, &t2, 10), 4);
}
