use tree_similarity::binary_branch::{
    bib_lower_bound, bib_lower_bound_l1, binary_branch_topdiff_within, BinaryBranchAlgorithm,
    BIB_DIVISOR,
};
use tree_similarity::parsing::parse_tree;
use tree_similarity::pipelines::tree_edit_distance;
use tree_similarity::tree::TreeArena;
use tree_similarity::unified::UnifiedTreeIndex;

const TREES: &[&str] = &[
    "{a}",
    "{a{b}}",
    "{a{b}{c}}",
    "{a{b}{c}{d}}",
    "{a{b{e}}{c}}",
    "{x{y}{z}}",
    "{a{b}{x}}",
    "{r{a{b}{c}}{d{e}}}",
    "{r{a{b}{c}}{d{f}}}",
    "{1{2}{3{4}}}",
];

fn ta(s: &str) -> TreeArena {
    parse_tree(s.as_bytes()).unwrap()
}

fn uti(s: &str) -> UnifiedTreeIndex {
    UnifiedTreeIndex::from_tree(&ta(s))
}

fn empty() -> UnifiedTreeIndex {
    UnifiedTreeIndex {
        labels: vec![],
        sizes: vec![],
        tree_size: 0,
    }
}

fn lb_from_dist(dist: usize) -> usize {
    (dist + BIB_DIVISOR - 1) / BIB_DIVISOR
}

fn s(x: &str) -> String {
    x.to_owned()
}

#[test]
fn triples_singleton() {
    let tuples = uti("{a}").bib_branch_tuples_str();
    assert_eq!(tuples, vec![(s("a"), None, None)]);
}

#[test]
fn triples_bushy() {
    let tuples = uti("{a{b}{c}}").bib_branch_tuples_str();
    assert_eq!(
        tuples,
        vec![
            (s("b"), None, Some(s("c"))),
            (s("c"), None, None),
            (s("a"), Some(s("b")), None),
        ]
    );
}

#[test]
fn triples_chain() {
    let tuples = uti("{a{b{c}}}").bib_branch_tuples_str();
    assert_eq!(
        tuples,
        vec![
            (s("c"), None, None),
            (s("b"), Some(s("c")), None),
            (s("a"), Some(s("b")), None),
        ]
    );
}

#[test]
fn source_example_distance() {
    let a = uti("{a{b{c}{d}}{b{c}{d}}{e}}");
    let b = uti("{a{b{c}{d}{b{e}}}{c}{d}{e}}");
    let mut algo = BinaryBranchAlgorithm::default();
    let a_bb = algo.bib_preprocess(&a);
    let b_bb = algo.bib_preprocess(&b);

    let sym = bib_lower_bound(&a_bb, &b_bb, usize::MAX);
    let l1 = bib_lower_bound_l1(&a_bb, &b_bb, usize::MAX);
    assert_eq!(sym, l1, "symmetric-diff and L1 forms must agree");
    assert!(sym <= 15, "distance {sym} should be <= 15");
}

#[test]
fn self_distance_zero_and_vector_totals() {
    for &t in TREES {
        let x = uti(t);
        let mut algo = BinaryBranchAlgorithm::default();
        let bb = algo.bib_preprocess(&x);
        let total: i32 = bb.entries_list().iter().map(|e| e.1).sum();
        assert_eq!(total as usize, x.tree_size, "vector total != node count for {t}");
        let mut algo2 = BinaryBranchAlgorithm::default();
        let p = algo2.bib_preprocess(&uti(t));
        let q = algo2.bib_preprocess(&uti(t));
        assert_eq!(bib_lower_bound(&p, &q, usize::MAX), 0, "self distance != 0 for {t}");
    }
}

#[test]
fn lb_is_sound() {
    for &a in TREES {
        for &b in TREES {
            let exact = tree_edit_distance(&uti(a), &uti(b)) as usize;
            let mut algo = BinaryBranchAlgorithm::default();
            let a_bb = algo.bib_preprocess(&uti(a));
            let b_bb = algo.bib_preprocess(&uti(b));
            let dist = bib_lower_bound(&a_bb, &b_bb, usize::MAX);
            let lb = lb_from_dist(dist);
            assert!(
                lb <= exact,
                "binary-branch LB {lb} (dist {dist}) exceeds exact TED {exact} for ({a}, {b})"
            );
        }
    }
}

#[test]
fn binary_branch_within_matches_exact_ted() {
    for &a in TREES {
        for &b in TREES {
            let exact = tree_edit_distance(&uti(a), &uti(b));
            for &k in &[0i32, 1, 2, 3, 7, 50] {
                let expected = if exact <= k { exact } else { k + 1 };
                let got = binary_branch_topdiff_within(&uti(a), &uti(b), k);
                assert_eq!(
                    got, expected,
                    "binary_branch_topdiff_within({a}, {b}, {k}) = {got}, expected {expected} (exact TED {exact})"
                );
            }
        }
    }
}

#[test]
fn binary_branch_edge_cases() {
    assert_eq!(binary_branch_topdiff_within(&empty(), &empty(), 3), 0);
    assert_eq!(binary_branch_topdiff_within(&empty(), &uti("{a{b}{c}}"), 5), 3);
    assert_eq!(binary_branch_topdiff_within(&empty(), &uti("{a{b}{c}}"), 1), 2);
    assert_eq!(binary_branch_topdiff_within(&uti("{a}"), &uti("{a}"), -1), 0);
    assert_eq!(binary_branch_topdiff_within(&uti("{a{b}{c}}"), &uti("{a{b}{c}}"), 0), 0);
}

#[test]
fn binary_branch_off_by_one_probes() {
    for (a, b) in [
        ("{a{b}{c}}", "{a{b}{x}}"),
        ("{a}", "{a{b}{c}}"),
        ("{a{b}{c}}", "{x{y}{z}}"),
    ] {
        let d = tree_edit_distance(&uti(a), &uti(b));
        assert!(d >= 1, "expected TED >= 1 for ({a}, {b}), got {d}");
        assert_eq!(binary_branch_topdiff_within(&uti(a), &uti(b), d), d);
        assert_eq!(binary_branch_topdiff_within(&uti(a), &uti(b), d - 1), d);
    }
}

#[test]
fn branch_distance_is_symmetric() {
    for &a in TREES {
        for &b in TREES {
            let mut algo = BinaryBranchAlgorithm::default();
            let x = algo.bib_preprocess(&uti(a));
            let y = algo.bib_preprocess(&uti(b));
            assert_eq!(
                bib_lower_bound(&x, &y, usize::MAX),
                bib_lower_bound(&y, &x, usize::MAX)
            );
            assert_eq!(
                bib_lower_bound(&x, &y, usize::MAX),
                bib_lower_bound_l1(&x, &y, usize::MAX)
            );
        }
    }
}

#[test]
fn branch_distance_values() {
    let mut algo = BinaryBranchAlgorithm::default();
    let x = algo.bib_preprocess(&uti("{a{b}{c}}"));
    let y = algo.bib_preprocess(&uti("{a{b}{x}}"));
    // branches (b,-,c) and (c,-,-) against (b,-,x) and (x,-,-); (a,b,-) shared
    assert_eq!(bib_lower_bound(&x, &y, 10), 4);
    assert_eq!(bib_lower_bound_l1(&x, &y, 10), 4);
    let z = algo.bib_preprocess(&uti("{a{b}{c}{d}{e}}"));
    // sizes 3 and 5 differ by more than the threshold 1
    assert_eq!(bib_lower_bound(&x, &z, 1), 6);
    assert_eq!(bib_lower_bound_l1(&x, &z, 1), 2);
}

#[test]
fn bib_children_lists() {
    let t = uti("{r{a{b}{c}}{d{e}}}");
    // postorder: b c a e d r
    let ch = t.bib_children();
    assert_eq!(
        ch,
        vec![vec![], vec![], vec![0, 1], vec![], vec![3], vec![2, 4]]
    );
}

#[test]
fn bib_preprocess_empty_tree() {
    let mut algo = BinaryBranchAlgorithm::default();
    let bb = algo.bib_preprocess(&empty());
    assert_eq!(bb.size, 0);
    assert!(bb.entries_list().is_empty());
}
