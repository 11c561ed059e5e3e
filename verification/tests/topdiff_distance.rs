use tree_similarity::topdiff::{ted_k, tree_distance, TopDiffIndex};

fn index(labels: Vec<i32>, sizes: Vec<i32>) -> TopDiffIndex {
    let n = labels.len();
    TopDiffIndex {
        tree_size: n as i32,
        postl_to_label_id: labels,
        postl_to_size: sizes,
        postl_to_depth: vec![0; n],
        postl_to_lch: vec![-1; n],
        postl_to_kr_ancestor: vec![0; n],
        list_kr: vec![],
    }
}

#[test]
fn distance_between_small_trees() {
    // a(b, c) and a(c): delete b
    let t1 = index(vec![1, 2, 0], vec![1, 1, 3]);
    let t2 = index(vec![2, 0], vec![1, 2]);
    assert_eq!(tree_distance(&t1, &t2), 1);
    assert_eq!(tree_distance(&t2, &t1), 1);
}

#[test]
fn distance_of_chain_and_bush() {
    // chain a-b-c (postorder c b a) against bush a(b, c) (postorder b c a)
    let chain = index(vec![2, 1, 0], vec![1, 2, 3]);
    let bush = index(vec![1, 2, 0], vec![1, 1, 3]);
    assert_eq!(tree_distance(&chain, &bush), 2);
}

#[test]
fn empty_forest_distance_is_size() {
    let empty = index(vec![], vec![]);
    let t = index(vec![1, 2, 0], vec![1, 1, 3]);
    assert_eq!(tree_distance(&empty, &t), 3);
    assert_eq!(ted_k(&empty, &t, 1), 2);
    assert_eq!(ted_k(&empty, &empty, 0), 0);
}

#[test]
fn ted_k_caps_at_k_plus_one() {
    let t1 = index(vec![0, 1, 2], vec![1, 1, 3]);
    let t2 = index(vec![3, 4, 5], vec![1, 1, 3]);
    assert_eq!(ted_k(&t1, &t2, 10), 3);
    assert_eq!(ted_k(&t1, &t2, 3), 3);
    assert_eq!(ted_k(&t1, &t2, 2), 3);
    assert_eq!(ted_k(&t1, &t2, 0), 1);
    assert_eq!(ted_k(&t1, &t2, -1), 0);
}
