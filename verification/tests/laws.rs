use tree_similarity::pipelines::sed_topdiff_within;
use tree_similarity::sed::{bounded_sed_struct, bounded_sed_struct_int, build_sed_struct_indices_int, SEDStructIndex};
use tree_similarity::pipelines::sed_plain_topdiff_within;
use tree_similarity::edit_distance::string_edit_distance;
use tree_similarity::lblint::lblint_topdiff_within;
use tree_similarity::parsing::parse_tree;
use tree_similarity::pipelines::tree_edit_distance;
use tree_similarity::sed::{sed, SEDIndex};
use tree_similarity::unified::UnifiedTreeIndex;

const TREES: &[&str] = &[
    "{a}",
    "{a{b}}",
    "{a{b}{c}}",
    "{a{b{e}}{c}}",
    "{x{y}{z}}",
    "{r{a{b}{c}}{d{e}}}",
    "{1{2}{3{4}}}",
];

fn uti(s: &str) -> UnifiedTreeIndex {
    UnifiedTreeIndex::from_tree(&parse_tree(s.as_bytes()).unwrap())
}

fn sidx(s: &str) -> SEDIndex {
    SEDIndex::index_tree(&parse_tree(s.as_bytes()).unwrap())
}

#[test]
fn tree_edit_distance_is_symmetric_with_zero_diagonal() {
    for &a in TREES {
        assert_eq!(tree_edit_distance(&uti(a), &uti(a)), 0);
        for &b in TREES {
            let d = tree_edit_distance(&uti(a), &uti(b));
            assert_eq!(d, tree_edit_distance(&uti(b), &uti(a)));
            assert!(d as usize <= uti(a).tree_size + uti(b).tree_size);
        }
    }
}

#[test]
fn sed_is_symmetric() {
    for &a in TREES {
        for &b in TREES {
            assert_eq!(sed(&sidx(a), &sidx(b)), sed(&sidx(b), &sidx(a)));
        }
    }
}

#[test]
fn lblint_bound_is_symmetric() {
    for &a in TREES {
        for &b in TREES {
            assert_eq!(
                uti(a).lblint_bounded_lb(&uti(b), 1_000_000),
                uti(b).lblint_bounded_lb(&uti(a), 1_000_000)
            );
        }
    }
}

#[test]
fn lblint_bound_never_exceeds_tree_edit_distance() {
    for &a in TREES {
        for &b in TREES {
            let ted = tree_edit_distance(&uti(a), &uti(b));
            assert!(uti(a).lblint_bounded_lb(&uti(b), 1_000_000) <= ted);
            for k in 0..8 {
                let expected = if ted <= k { ted } else { k + 1 };
                assert_eq!(lblint_topdiff_within(&uti(a), &uti(b), k), expected);
            }
        }
    }
}

#[test]
fn postorder_edit_distance_never_exceeds_tree_edit_distance() {
    for &a in TREES {
        for &b in TREES {
            let ted = tree_edit_distance(&uti(a), &uti(b));
            let post = string_edit_distance(uti(a).labels.as_slice(), uti(b).labels.as_slice());
            assert!(post as i32 <= ted);
        }
    }
}

#[test]
fn traversal_edit_distances_never_exceed_tree_edit_distance() {
    for &a in TREES {
        for &b in TREES {
            let ted = tree_edit_distance(&uti(a), &uti(b));
            let (ia, ib) = (sidx(a), sidx(b));
            let pre = string_edit_distance(ia.preorder.as_slice(), ib.preorder.as_slice());
            let post = string_edit_distance(ia.postorder.as_slice(), ib.postorder.as_slice());
            assert!(pre as i32 <= ted);
            assert!(post as i32 <= ted);
            for k in 0..8 {
                let expected = if ted <= k { ted } else { k + 1 };
                assert_eq!(sed_plain_topdiff_within(&uti(a), &uti(b), k), expected);
            }
        }
    }
}

#[test]
fn substrate_round_trips_through_its_tree() {
    for &a in TREES {
        let u = uti(a);
        let rebuilt = UnifiedTreeIndex::from_tree(&u.rebuild_arena());
        assert_eq!(rebuilt, u);
    }
}

#[test]
fn interned_structural_sed_agrees_with_text_version() {
    for &a in TREES {
        for &b in TREES {
            let (ta, tb) = (parse_tree(a.as_bytes()).unwrap(), parse_tree(b.as_bytes()).unwrap());
            let (ia, ib) = build_sed_struct_indices_int(&ta, &tb);
            let (sa, sb) = (SEDStructIndex::index_tree(&ta), SEDStructIndex::index_tree(&tb));
            for k in 0..6 {
                assert_eq!(bounded_sed_struct(&sa, &sb, k), bounded_sed_struct_int(&ia, &ib, k));
            }
        }
    }
}

#[test]
fn sed_struct_pipeline_is_zero_on_identical_trees() {
    for &a in TREES {
        for k in 0..4 {
            assert_eq!(sed_topdiff_within(&uti(a), &uti(a), k), 0);
        }
        assert_eq!(sed_topdiff_within(&uti(a), &uti(a), -1), 0);
    }
}
