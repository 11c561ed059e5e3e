use tree_similarity::parsing::parse_tree;
use tree_similarity::structural_split::split_svec_l1;
use tree_similarity::structural::{
    svec_l1, SplitStructuralVec, ted, LabelSetConverter, LabelSetElement, LabelSetElementBase, StructuralVec,
};

#[test]
fn test_svec_l1_distance_with_axes() {
    let a = SplitStructuralVec {
        svec: StructuralVec { mapping_regions: [0, 1, 0, 0], ..Default::default() },
        mapping_region_splits: [[0; 4], [0, 1, 0, 0], [0; 4], [0; 4]],
    };
    let b = SplitStructuralVec {
        svec: StructuralVec { mapping_regions: [1, 0, 0, 0], ..Default::default() },
        mapping_region_splits: [[0, 0, 0, 1], [0; 4], [0; 4], [0; 4]],
    };
    let dist = split_svec_l1(&a, &b);
    assert_eq!(dist, 2);
}

#[test]
fn test_set_converting() {
    let t1 = parse_tree("{a{b}{a{b}{c}{a}}{b}}".as_bytes()).unwrap();
    let t2 = parse_tree("{a{c}{b{a{a}{b}{c}}}}".as_bytes()).unwrap();
    let v = vec![t1, t2];
    let mut sc = LabelSetConverter::default();
    let sets = sc.create(&v);
    let lse_for_a = LabelSetElement {
        base: LabelSetElementBase {
            id: "a".to_string(),
            weight: 3,
            weigh_so_far: 0,
        },
        struct_vec: vec![
            StructuralVec {
                label_id: "a".to_string(),
                mapping_regions: [3, 2, 1, 0],
                postorder_id: 4,
            },
            StructuralVec {
                label_id: "a".to_string(),
                mapping_regions: [1, 1, 1, 3],
                postorder_id: 5,
            },
            StructuralVec {
                label_id: "a".to_string(),
                mapping_regions: [0, 0, 0, 6],
                postorder_id: 7,
            },
        ],
    };

    let lse_for_b = LabelSetElement {
        base: LabelSetElementBase {
            id: "b".to_string(),
            weight: 3,
            weigh_so_far: 0,
        },
        struct_vec: vec![
            StructuralVec {
                label_id: "b".to_string(),
                mapping_regions: [0, 1, 5, 0],
                postorder_id: 1,
            },
            StructuralVec {
                label_id: "b".to_string(),
                mapping_regions: [1, 2, 3, 0],
                postorder_id: 2,
            },
            StructuralVec {
                label_id: "b".to_string(),
                mapping_regions: [5, 1, 0, 0],
                postorder_id: 6,
            },
        ],
    };

    assert_eq!(sets[0].get("a").unwrap(), &lse_for_a);
    assert_eq!(sets[0].get("b").unwrap(), &lse_for_b);
}

#[test]
fn test_struct_ted() {
    let t1 = parse_tree("{a{b}{a{b}{c}{a}}{b}}".as_bytes()).unwrap();
    let t2 = parse_tree("{a{c}{b{a{a}{b}{c}}}}".as_bytes()).unwrap();
    let v = vec![t1, t2];
    let mut sc = LabelSetConverter::default();
    let sets = sc.create(&v);

    let lb = ted(&sets[0], &sets[1], 4);

    assert_eq!(lb, 2);
}

#[test]
fn svec_l1_sums_absolute_region_differences() {
    let a = StructuralVec {
        label_id: "x".to_string(),
        postorder_id: 1,
        mapping_regions: [3, 0, 2, 5],
    };
    let b = StructuralVec {
        label_id: "x".to_string(),
        postorder_id: 2,
        mapping_regions: [1, 1, 2, 7],
    };
    assert_eq!(svec_l1(&a, &b), 5);
    assert_eq!(svec_l1(&b, &a), 5);
}

#[test]
fn struct_ted_size_gate_and_identity() {
    let t1 = parse_tree("{a{b}{c}}".as_bytes()).unwrap();
    let t2 = parse_tree("{a{b}{c}{d}{e}}".as_bytes()).unwrap();
    let v = vec![t1, t2];
    let mut sc = LabelSetConverter::default();
    let sets = sc.create(&v);
    assert_eq!(ted(&sets[0], &sets[1], 1), 2);
    assert_eq!(ted(&sets[0], &sets[0], 0), 0);
    assert_eq!(ted(&sets[0], &sets[1], 2), 2);
}
