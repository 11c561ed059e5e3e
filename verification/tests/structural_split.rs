use tree_similarity::parsing::parse_tree;
use tree_similarity::structural::{
    ted, LabelSetConverter, LabelSetElementBase, SplitLabelSetElement, SplitStructuralVec,
    StructuralVec,
};
use tree_similarity::structural_split::{split_svec_l1, ted_variant};

fn part(label: &String) -> usize {
    if label == "a" {
        0
    } else if label == "b" {
        1
    } else if label == "c" {
        2
    } else {
        3
    }
}

fn svec(label: &str, postorder_id: usize, regions: [i32; 4], splits: [[i32; 4]; 4]) -> SplitStructuralVec {
    SplitStructuralVec {
        svec: StructuralVec {
            label_id: label.to_string(),
            postorder_id,
            mapping_regions: regions,
        },
        mapping_region_splits: splits,
    }
}

#[test]
fn split_set_converting() {
    let t1 = parse_tree("{a{b}{a{b}{c}{a}}{b}}".as_bytes()).unwrap();
    let t2 = parse_tree("{a{c}{b{a{a}{b}{c}}}}".as_bytes()).unwrap();
    let v = vec![t1, t2];
    let mut sc = LabelSetConverter::default();
    let sets = sc.create_split(&v, part);
    assert_eq!(sets.len(), 2);
    assert_eq!(sets[0].0, 7);
    let lse_for_a = SplitLabelSetElement {
        base: LabelSetElementBase {
            id: "a".to_string(),
            weight: 3,
            weigh_so_far: 0,
        },
        struct_vec: vec![
            svec("a", 4, [3, 2, 1, 0], [[0, 2, 1, 0], [2, 0, 0, 0], [0, 1, 0, 0], [0, 0, 0, 0]]),
            svec("a", 5, [1, 1, 1, 3], [[0, 1, 0, 0], [1, 0, 0, 0], [0, 1, 0, 0], [1, 1, 1, 0]]),
            svec("a", 7, [0, 0, 0, 6], [[0, 0, 0, 0], [0, 0, 0, 0], [0, 0, 0, 0], [2, 3, 1, 0]]),
        ],
    };
    let lse_for_c = SplitLabelSetElement {
        base: LabelSetElementBase {
            id: "c".to_string(),
            weight: 1,
            weigh_so_far: 0,
        },
        struct_vec: vec![svec(
            "c",
            3,
            [2, 2, 2, 0],
            [[0, 2, 0, 0], [2, 0, 0, 0], [1, 1, 0, 0], [0, 0, 0, 0]],
        )],
    };
    assert_eq!(sets[0].get("a").unwrap(), &lse_for_a);
    assert_eq!(sets[0].get("c").unwrap(), &lse_for_c);
    assert!(sets[0].get("d").is_none());
}

#[test]
fn split_vectors_agree_with_plain_vectors() {
    let t1 = parse_tree("{a{b}{a{b}{c}{a}}{b}}".as_bytes()).unwrap();
    let t2 = parse_tree("{a{c}{b{a{a}{b}{c}}}}".as_bytes()).unwrap();
    let v = vec![t1, t2];
    let mut sc = LabelSetConverter::default();
    let plain = sc.create(&v);
    let split = sc.create_split(&v, part);
    for t in 0..2 {
        for el in split[t].1.iter() {
            let p = plain[t].get(&el.base.id).unwrap();
            assert_eq!(p.struct_vec.len(), el.struct_vec.len());
            for (a, b) in p.struct_vec.iter().zip(el.struct_vec.iter()) {
                assert_eq!(a, &b.svec);
            }
        }
    }
}

#[test]
fn split_svec_l1_of_roots() {
    let t1 = parse_tree("{a{b}{a{b}{c}{a}}{b}}".as_bytes()).unwrap();
    let t2 = parse_tree("{a{c}{b{a{a}{b}{c}}}}".as_bytes()).unwrap();
    let v = vec![t1, t2];
    let mut sc = LabelSetConverter::default();
    let sets = sc.create_split(&v, part);
    let a1 = &sets[0].get("a").unwrap().struct_vec[0];
    let a2 = &sets[1].get("a").unwrap().struct_vec[0];
    assert_eq!(split_svec_l1(a1, a2), 4);
    assert_eq!(split_svec_l1(a1, a1), 0);
}

#[test]
fn split_ted_variant_values() {
    let t1 = parse_tree("{a{b}{a{b}{c}{a}}{b}}".as_bytes()).unwrap();
    let t2 = parse_tree("{a{c}{b{a{a}{b}{c}}}}".as_bytes()).unwrap();
    let v = vec![t1, t2];
    let mut sc = LabelSetConverter::default();
    let sets = sc.create_split(&v, part);
    let expected = [7usize, 6, 6, 5, 4, 2, 2, 2];
    for k in 0..8 {
        assert_eq!(ted_variant(&sets[0], &sets[1], k), expected[k], "k = {}", k);
    }
}

#[test]
fn split_ted_variant_one_part_matches_ted() {
    let t1 = parse_tree("{a{b}{a{b}{c}{a}}{b}}".as_bytes()).unwrap();
    let t2 = parse_tree("{a{c}{b{a{a}{b}{c}}}}".as_bytes()).unwrap();
    let v = vec![t1, t2];
    let mut sc = LabelSetConverter::default();
    let sets = sc.create_split(&v, |_l: &String| 0);
    let plain = sc.create(&v);
    let expected = [6usize, 6, 5, 5, 2, 2, 2, 2];
    for k in 0..8 {
        assert_eq!(ted_variant(&sets[0], &sets[1], k), expected[k]);
        assert_eq!(ted(&plain[0], &plain[1], k as i32) as usize, expected[k]);
    }
}

#[test]
fn split_ted_variant_size_gate() {
    let t1 = parse_tree("{a{b}{a{a{b}{a}{b}}}{b}}".as_bytes()).unwrap();
    let t2 = parse_tree("{a{c}{b{a{a}{b}{b}}}}".as_bytes()).unwrap();
    let v = vec![t1, t2];
    let mut sc = LabelSetConverter::default();
    let sets = sc.create_split(&v, |l: &String| if l.as_str() > "a" { 1 } else { 0 });
    assert_eq!(ted_variant(&sets[0], &sets[1], 0), 1);
    assert_eq!(ted_variant(&sets[0], &sets[1], 1), 7);
    assert_eq!(ted_variant(&sets[0], &sets[1], 4), 3);
}
