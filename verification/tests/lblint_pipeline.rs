use tree_similarity::label_intersection::bounded_label_intersection_distance;
use tree_similarity::lblint::lblint_topdiff_within;
use tree_similarity::parsing::parse_tree;
use tree_similarity::pipelines::tree_edit_distance;
use tree_similarity::tree::TreeArena;
use tree_similarity::unified::UnifiedTreeIndex;

const TREES: &[&str] = &[
    "{a}",
    "{a{b}}",
    "{a{b}{c}}",
    "{a{b}{c}{d}}",
    "{a{b{e}}{c}}",
    "{x{y}{z}}",
    "{a{b}{x}}",
    "{r{a{b}{c}}{d{e}}}",
    "{r{a{b}{c}}{d{f}}}",
    "{1{2}{3{4}}}",
];

fn ta(s: &str) -> TreeArena {
    parse_tree(s.as_bytes()).unwrap()
}

fn uti(s: &str) -> UnifiedTreeIndex {
    UnifiedTreeIndex::from_tree(&ta(s))
}

fn ref_lb(a: &str, b: &str) -> i32 {
    bounded_label_intersection_distance(&ta(a), &ta(b), 1_000_000) as i32
}

fn exact_ted(a: &str, b: &str) -> i32 {
    tree_edit_distance(&uti(a), &uti(b))
}

#[test]
fn stage1_lb_matches_reference() {
    for &a in TREES {
        for &b in TREES {
            let mine = uti(a).lblint_bounded_lb(&uti(b), 1_000_000);
            let reference = ref_lb(a, b);
            assert_eq!(mine, reference, "stage-1 LB {mine} != reference {reference} for ({a}, {b})");
        }
    }
}

#[test]
fn stage1_bounded_semantics_match_reference() {
    for &a in TREES {
        for &b in TREES {
            let exact = ref_lb(a, b);
            for &k in &[0i32, 1, 2, 3, 7, 50] {
                let mine = uti(a).lblint_bounded_lb(&uti(b), k);
                if exact > k {
                    assert_eq!(mine, k + 1, "expected over-bound k+1 for ({a},{b},k={k})");
                } else {
                    assert_eq!(mine, exact, "expected exact LB {exact} within bound for ({a},{b},k={k})");
                }
            }
        }
    }
}

#[test]
fn lblint_stage1_lb_is_sound() {
    for &a in TREES {
        for &b in TREES {
            let exact = exact_ted(a, b);
            let lb = uti(a).lblint_bounded_lb(&uti(b), 1_000_000);
            assert!(lb <= exact, "label-intersection LB {lb} exceeds exact TED {exact} for ({a}, {b})");
        }
    }
}

#[test]
fn lblint_within_matches_exact_ted() {
    for &a in TREES {
        for &b in TREES {
            let exact = exact_ted(a, b);
            for &k in &[0i32, 1, 2, 3, 7, 50] {
                let expected = if exact <= k { exact } else { k + 1 };
                let got = lblint_topdiff_within(&uti(a), &uti(b), k);
                assert_eq!(got, expected, "lblint_topdiff_within({a}, {b}, {k})");
            }
        }
    }
}

#[test]
fn lblint_edge_cases() {
    let empty = || UnifiedTreeIndex {
        labels: vec![],
        sizes: vec![],
        tree_size: 0,
    };
    assert_eq!(lblint_topdiff_within(&empty(), &empty(), 3), 0);
    assert_eq!(lblint_topdiff_within(&empty(), &uti("{a{b}{c}}"), 5), 3);
    assert_eq!(lblint_topdiff_within(&empty(), &uti("{a{b}{c}}"), 1), 2);
    assert_eq!(lblint_topdiff_within(&uti("{a}"), &uti("{a}"), -1), 0);
    assert_eq!(lblint_topdiff_within(&uti("{a{b}{c}}"), &uti("{a{b}{c}}"), 0), 0);
}

#[test]
fn lblint_off_by_one_probes() {
    for &(a, b) in &[
        ("{a{b}{c}}", "{a{b}{x}}"),
        ("{a}", "{a{b}{c}}"),
        ("{x{y}{z}}", "{a{b}{c}}"),
    ] {
        let d = exact_ted(a, b);
        assert!(d >= 1, "corpus probe ({a},{b}) must have TED >= 1, got {d}");
        assert_eq!(lblint_topdiff_within(&uti(a), &uti(b), d), d, "k=d ({d}) for ({a},{b})");
        assert_eq!(lblint_topdiff_within(&uti(a), &uti(b), d - 1), d, "k=d-1 for ({a},{b})");
        if d >= 2 {
            assert_eq!(lblint_topdiff_within(&uti(a), &uti(b), d - 2), d - 1, "k=d-2 for ({a},{b})");
        }
    }
}

#[test]
fn lblint_counts_multiplicities() {
    // two b's against one: only one pairs up
    let q = uti("{a{b}{b}}");
    let c = uti("{a{b}{c}}");
    assert_eq!(q.lblint_bounded_lb(&c, 10), 1);
    assert_eq!(c.lblint_bounded_lb(&q, 10), 1);
    assert_eq!(q.lblint_bounded_lb(&c, 0), 1);
}
