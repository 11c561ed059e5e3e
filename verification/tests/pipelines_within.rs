use tree_similarity::parsing::parse_tree;
use tree_similarity::pipelines::{
    sed_plain_topdiff_within, sed_topdiff_within, structural_topdiff_within, tree_edit_distance,
    tree_lb_structural_filter,
};
use tree_similarity::sed::{bounded_sed, SEDIndex};
use tree_similarity::tree::TreeArena;
use tree_similarity::unified::UnifiedTreeIndex;

const TREES: &[&str] = &[
    "{a}",
    "{a{b}}",
    "{a{b}{c}}",
    "{a{b}{c}{d}}",
    "{a{b{e}}{c}}",
    "{x{y}{z}}",
    "{a{b}{x}}",
    "{r{a{b}{c}}{d{e}}}",
    "{r{a{b}{c}}{d{f}}}",
    "{1{2}{3{4}}}",
];

fn ta(s: &str) -> TreeArena {
    parse_tree(s.as_bytes()).unwrap()
}

fn uti(s: &str) -> UnifiedTreeIndex {
    UnifiedTreeIndex::from_tree(&ta(s))
}

fn empty() -> UnifiedTreeIndex {
    UnifiedTreeIndex {
        labels: vec![],
        sizes: vec![],
        tree_size: 0,
    }
}

fn exact_ted(a: &str, b: &str) -> i32 {
    tree_edit_distance(&uti(a), &uti(b))
}

#[test]
fn substrate_sed_index_matches_reference() {
    for &a in TREES {
        for &b in TREES {
            let my_q = uti(a).sed_plain_build_sed_index();
            let my_c = uti(b).sed_plain_build_sed_index();
            let ref_q = SEDIndex::index_tree(&ta(a));
            let ref_c = SEDIndex::index_tree(&ta(b));
            assert_eq!(my_q.preorder, ref_q.preorder, "preorder mismatch for {a}");
            assert_eq!(my_q.postorder, ref_q.postorder, "postorder mismatch for {a}");
            assert_eq!(my_q.tree_size, ref_q.tree_size, "tree_size mismatch for {a}");
            for &k in &[0usize, 1, 2, 3, 5, 10, 50] {
                let mine = bounded_sed(&my_q, &my_c, k);
                let reference = bounded_sed(&ref_q, &ref_c, k);
                assert_eq!(mine, reference, "bounded_sed mismatch for ({a}, {b}, k={k})");
            }
        }
    }
}

#[test]
fn acceptance_gate_matches_exact_ted() {
    for &a in TREES {
        for &b in TREES {
            let exact = exact_ted(a, b);
            for &k in &[0i32, 1, 2, 3, 7, 50] {
                let expected = if exact <= k { exact } else { k + 1 };
                let got = sed_plain_topdiff_within(&uti(a), &uti(b), k);
                assert_eq!(got, expected, "sed_plain_topdiff_within({a}, {b}, {k})");
            }
        }
    }
}

#[test]
fn sed_plain_stage1_lb_is_sound() {
    for &a in TREES {
        for &b in TREES {
            let exact = exact_ted(a, b);
            let q_idx = uti(a).sed_plain_build_sed_index();
            let c_idx = uti(b).sed_plain_build_sed_index();
            let lb = bounded_sed(&q_idx, &c_idx, 100_000) as i32;
            assert!(lb <= exact, "plain SED LB {lb} exceeds exact TED {exact} for ({a}, {b})");
        }
    }
}

#[test]
fn sed_plain_edge_cases() {
    assert_eq!(sed_plain_topdiff_within(&empty(), &empty(), 3), 0);
    assert_eq!(sed_plain_topdiff_within(&empty(), &uti("{a{b}{c}}"), 5), 3);
    assert_eq!(sed_plain_topdiff_within(&empty(), &uti("{a{b}{c}}"), 1), 2);
    assert_eq!(sed_plain_topdiff_within(&uti("{a{b}{c}}"), &empty(), 5), 3);
    assert_eq!(sed_plain_topdiff_within(&uti("{a}"), &uti("{a}"), -1), 0);
    assert_eq!(sed_plain_topdiff_within(&uti("{a{b}{c}}"), &uti("{x{y}{z}}"), -3), -2);
    for &a in TREES {
        assert_eq!(sed_plain_topdiff_within(&uti(a), &uti(a), 0), 0, "identical {a} at k=0");
    }
}

#[test]
fn sed_plain_off_by_one_probes() {
    for &a in TREES {
        for &b in TREES {
            let d = exact_ted(a, b);
            if d < 1 {
                continue;
            }
            assert_eq!(sed_plain_topdiff_within(&uti(a), &uti(b), d), d, "k=d for ({a}, {b})");
            assert_eq!(sed_plain_topdiff_within(&uti(a), &uti(b), d - 1), d, "k=d-1 for ({a}, {b})");
        }
    }
}

#[test]
fn lb_matches_reference_structural_filter() {
    for &a in TREES {
        for &b in TREES {
            for &k in &[0i32, 1, 2, 3, 7, 50] {
                let mine = uti(a).structural_stage1_lb(&uti(b), k);
                let reference = tree_lb_structural_filter(&ta(a), &ta(b), k);
                assert_eq!(mine, reference, "stage-1 LB mismatch ({a}, {b}, k={k})");
            }
        }
    }
}

#[test]
fn structural_within_matches_exact_ted() {
    for &a in TREES {
        for &b in TREES {
            let exact = exact_ted(a, b);
            for &k in &[0i32, 1, 2, 3, 7, 50] {
                let expected = if exact <= k { exact } else { k + 1 };
                let got = structural_topdiff_within(&uti(a), &uti(b), k);
                assert_eq!(got, expected, "structural_topdiff_within({a}, {b}, {k})");
            }
        }
    }
}

#[test]
fn structural_stage1_lb_is_sound() {
    for &a in TREES {
        for &b in TREES {
            let exact = exact_ted(a, b);
            let lb = uti(a).structural_stage1_lb(&uti(b), 1000);
            assert!(lb <= exact, "structural LB {lb} exceeds exact TED {exact} for ({a}, {b})");
        }
    }
}

#[test]
fn structural_edge_cases() {
    assert_eq!(structural_topdiff_within(&empty(), &empty(), 3), 0);
    assert_eq!(structural_topdiff_within(&empty(), &uti("{a{b}{c}}"), 5), 3);
    assert_eq!(structural_topdiff_within(&empty(), &uti("{a{b}{c}}"), 1), 2);
    assert_eq!(structural_topdiff_within(&uti("{a}"), &uti("{a}"), -1), 0);
    assert_eq!(structural_topdiff_within(&uti("{a{b}{c}}"), &uti("{a{b}{c}}"), 0), 0);
    let a = "{a{b}{c}}";
    let b = "{x{y}{z}}";
    let d = exact_ted(a, b);
    assert!(d >= 1, "expected a non-trivial TED for the probe pair");
    assert_eq!(structural_topdiff_within(&uti(a), &uti(b), d), d);
    assert_eq!(structural_topdiff_within(&uti(a), &uti(b), d - 1), d, "k = d-1 must over-bound to k+1 = d");
}

#[test]
fn within_matches_exact_ted() {
    for &a in TREES {
        for &b in TREES {
            let exact = exact_ted(a, b);
            for &k in &[0i32, 1, 2, 3, 7, 50] {
                let expected = if exact <= k { exact } else { k + 1 };
                let got = sed_topdiff_within(&uti(a), &uti(b), k);
                assert_eq!(got, expected, "sed_topdiff_within({a}, {b}, {k})");
            }
        }
    }
}

#[test]
fn exact_ted_known_values() {
    assert_eq!(exact_ted("{a{b}{c}}", "{a{b}{x}}"), 1);
    assert_eq!(exact_ted("{a}", "{a{b}{c}}"), 2);
    assert_eq!(exact_ted("{x{y}{z}}", "{a{b}{c}}"), 3);
    assert_eq!(exact_ted("{a{b{e}}{c}}", "{a{b}{c}}"), 1);
    assert_eq!(tree_edit_distance(&empty(), &uti("{a{b}}")), 2);
}
