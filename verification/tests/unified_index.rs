use tree_similarity::collections::LabelDict;
use tree_similarity::parsing::parse_tree;
use tree_similarity::sed::{bounded_sed_struct_int, build_sed_struct_indices_int};
use tree_similarity::topdiff::ted_k;
use tree_similarity::tree::TreeArena;
use tree_similarity::unified::UnifiedTreeIndex;

fn pt(s: &str) -> TreeArena {
    parse_tree(s.as_bytes()).unwrap()
}

#[test]
fn unified_from_tree_postorder() {
    let t = pt("{a{b}{c}}");
    let u = UnifiedTreeIndex::from_tree(&t);
    assert_eq!(u.labels, vec!["b", "c", "a"]);
    assert_eq!(u.sizes, vec![1, 1, 3]);
    assert_eq!(u.tree_size, 3);
}

#[test]
fn expand_sed_form_matches_existing() {
    let t1 = pt("{a{b}{c}}");
    let t2 = pt("{a{d}{c}}");
    let (ref1, ref2) = build_sed_struct_indices_int(&t1, &t2);
    let u1 = UnifiedTreeIndex::from_tree(&t1);
    let u2 = UnifiedTreeIndex::from_tree(&t2);
    let mut dict = LabelDict::new();
    let (sed1, _td1) = u1.expand(&mut dict);
    let (sed2, _td2) = u2.expand(&mut dict);
    assert_eq!(sed1.first_traversal, ref1.first_traversal);
    assert_eq!(sed1.second_traversal, ref1.second_traversal);
    assert_eq!(sed2.first_traversal, ref2.first_traversal);
    assert_eq!(sed2.second_traversal, ref2.second_traversal);
    assert_eq!(
        bounded_sed_struct_int(&sed1, &sed2, 10),
        bounded_sed_struct_int(&ref1, &ref2, 10)
    );
}

#[test]
fn reconstruction_roundtrip() {
    for s in [
        "{a}",
        "{a{b}}",
        "{a{b}{c}}",
        "{a{b}{c}{d}}",
        "{a{b{e}}{c}}",
        "{x{y}{z}}",
        "{a{b}{x}}",
        "{r{a{b}{c}}{d{e}}}",
        "{r{a{b}{c}}{d{f}}}",
        "{1{2}{3{4}}}",
    ] {
        let u = UnifiedTreeIndex::from_tree(&pt(s));
        let rebuilt = u.rebuild_arena();
        let u2 = UnifiedTreeIndex::from_tree(&rebuilt);
        assert_eq!(u.labels, u2.labels, "labels mismatch for {s}");
        assert_eq!(u.sizes, u2.sizes, "sizes mismatch for {s}");
        assert_eq!(u.tree_size, u2.tree_size, "tree_size mismatch for {s}");
    }
}

#[test]
fn expand_topdiff_index_fields() {
    // {r{a{b}{c}}{d}}: postorder b c a d r
    let u = UnifiedTreeIndex::from_tree(&pt("{r{a{b}{c}}{d}}"));
    let mut dict = LabelDict::new();
    let (_sed, td) = u.expand(&mut dict);
    assert_eq!(td.tree_size, 5);
    assert_eq!(td.postl_to_size, vec![1, 1, 3, 1, 5]);
    assert_eq!(td.postl_to_depth, vec![2, 2, 1, 1, 0]);
    assert_eq!(td.postl_to_lch, vec![-1, -1, 0, -1, 2]);
    // keyroots: c (has a left sibling), d (has a left sibling), r (root)
    assert_eq!(td.list_kr, vec![1, 3, 4]);
    assert_eq!(td.postl_to_kr_ancestor, vec![4, 1, 4, 3, 4]);
    // labels are interned in preorder: r a b c d
    assert_eq!(td.postl_to_label_id, vec![2, 3, 1, 4, 0]);
}

#[test]
fn ted_k_on_expanded_trees() {
    let u1 = UnifiedTreeIndex::from_tree(&pt("{a{b}{c}}"));
    let u2 = UnifiedTreeIndex::from_tree(&pt("{a{b}{x}}"));
    let u3 = UnifiedTreeIndex::from_tree(&pt("{x{y}{z}}"));
    let mut dict = LabelDict::new();
    let (_s1, td1) = u1.expand(&mut dict);
    let (_s2, td2) = u2.expand(&mut dict);
    let (_s3, td3) = u3.expand(&mut dict);
    assert_eq!(ted_k(&td1, &td2, 5), 1);
    assert_eq!(ted_k(&td1, &td1, 0), 0);
    assert_eq!(ted_k(&td1, &td3, 5), 3);
    assert_eq!(ted_k(&td1, &td3, 2), 3);
    assert_eq!(ted_k(&td1, &td3, 1), 2);
}

#[test]
fn expand_numbers_new_labels_in_preorder() {
    let u = UnifiedTreeIndex::from_tree(&pt("{a{b}{c}}"));
    let mut dict = LabelDict::new();
    let (sed, _td) = u.expand(&mut dict);
    assert_eq!(dict.len(), 3);
    assert_eq!(dict.get("a"), Some(0));
    assert_eq!(dict.get("b"), Some(1));
    assert_eq!(dict.get("c"), Some(2));
    let labels: Vec<i32> = sed.first_traversal.iter().map(|c| c.label).collect();
    assert_eq!(labels, vec![0, 1, 2]);
    let again = UnifiedTreeIndex::from_tree(&pt("{c{d}}"));
    let _ = again.expand(&mut dict);
    assert_eq!(dict.len(), 4);
    assert_eq!(dict.get("c"), Some(2));
    assert_eq!(dict.get("d"), Some(3));
}
