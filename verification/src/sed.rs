//! String-edit-distance lower bounds on the tree edit distance: the distance
//! between the preorder (and the postorder) label sequences of two trees, and
//! the variant whose cells also carry positional features of each node.

use crate::collections::{intern, interned, lemma_interned, lemma_interned_concat, LabelDict};
use crate::edit_distance::{
    bounded_string_edit_distance, bounded_string_edit_distance_opt, ed_prefix, edit_distance,
    lemma_edit_distance_symmetric, lemma_reach_del, lemma_reach_ins, lemma_reach_mono,
    lemma_reach_slide, lemma_reach_start, lemma_reach_sub, max_int, min_int, reached, row_cap,
    string_edit_distance, Symbol, MAX_SEQ_LEN,
};
use crate::traversal::{lemma_post_index_range, shape_of, tree_shape, TreeShape};
use crate::tree::TreeArena;
use vstd::prelude::*;

verus! {

/// A traversal cell: a label with two positional features of its node, so the
/// dynamic program can refuse matches whose positions differ by more than the
/// remaining budget.
pub trait StructCell {
    type Label: Symbol;

    spec fn spec_label(&self) -> Self::Label;

    spec fn spec_sum(&self) -> i32;

    spec fn spec_diff(&self) -> i32;

    fn label(&self) -> (r: &Self::Label)
        ensures
            *r == self.spec_label(),
    ;

    fn sum(&self) -> (r: i32)
        ensures
            r == self.spec_sum(),
    ;

    fn diff(&self) -> (r: i32)
        ensures
            r == self.spec_diff(),
    ;
}

/// Traversal cell with a text label.
#[derive(Debug, Clone)]
pub struct TraversalCharacter {
    pub label: String,
    pub sum: i32,
    pub diff: i32,
}

impl StructCell for TraversalCharacter {
    type Label = String;

    open spec fn spec_label(&self) -> String {
        self.label
    }

    open spec fn spec_sum(&self) -> i32 {
        self.sum
    }

    open spec fn spec_diff(&self) -> i32 {
        self.diff
    }

    fn label(&self) -> (r: &String) {
        &self.label
    }

    fn sum(&self) -> (r: i32) {
        self.sum
    }

    fn diff(&self) -> (r: i32) {
        self.diff
    }
}

/// Traversal cell with an interned label.
#[derive(Debug, Clone, PartialEq, Eq)]
pub struct TraversalCharacterInt {
    pub label: i32,
    pub sum: i32,
    pub diff: i32,
}

impl StructCell for TraversalCharacterInt {
    type Label = i32;

    open spec fn spec_label(&self) -> i32 {
        self.label
    }

    open spec fn spec_sum(&self) -> i32 {
        self.sum
    }

    open spec fn spec_diff(&self) -> i32 {
        self.diff
    }

    fn label(&self) -> (r: &i32) {
        &self.label
    }

    fn sum(&self) -> (r: i32) {
        self.sum
    }

    fn diff(&self) -> (r: i32) {
        self.diff
    }
}

/// The labels of a sequence of cells.
pub open spec fn cell_labels<T: StructCell>(s: Seq<T>) -> Seq<T::Label> {
    Seq::new(s.len(), |x: int| s[x].spec_label())
}

/// Positional features of cells stay within the bound the program relies on.
pub open spec fn cells_bounded<T: StructCell>(s: Seq<T>) -> bool {
    forall|x: int|
        0 <= x < s.len() ==> -(MAX_SEQ_LEN as int) <= #[trigger] s[x].spec_sum() <= MAX_SEQ_LEN as int
            && -(MAX_SEQ_LEN as int) <= s[x].spec_diff() <= MAX_SEQ_LEN as int
}

/// Whether cells `x` and `y` may be matched for free once `e` edits are spent:
/// same label, and `e` plus either feature gap within the budget `k`.
pub open spec fn cells_match<T: StructCell>(x: T, y: T, e: int, k: int) -> bool {
    let ds = x.spec_sum() - y.spec_sum();
    let dd = x.spec_diff() - y.spec_diff();
    &&& x.spec_label().same(&y.spec_label())
    &&& e + (if ds < 0 { -ds } else { ds }) <= k
    &&& e + (if dd < 0 { -dd } else { dd }) <= k
}

/// Structural edit distance between the first `i` cells of `a` and the first
/// `j` of `b`: unit-cost insertion, deletion and substitution, and a free
/// match only where `cells_match` holds at the cost of reaching it.
pub open spec fn struct_prefix<T: StructCell>(a: Seq<T>, b: Seq<T>, k: int, i: int, j: int) -> int
    decreases i + j,
{
    if i <= 0 {
        if j <= 0 {
            0
        } else {
            j
        }
    } else if j <= 0 {
        i
    } else {
        let diag = struct_prefix(a, b, k, i - 1, j - 1);
        let edit = min_int(
            min_int(struct_prefix(a, b, k, i - 1, j) + 1, struct_prefix(a, b, k, i, j - 1) + 1),
            diag + 1,
        );
        if cells_match(a[i - 1], b[j - 1], diag, k) {
            min_int(edit, diag)
        } else {
            edit
        }
    }
}

/// Structural edit distance between two cell sequences.
pub open spec fn struct_distance<T: StructCell>(a: Seq<T>, b: Seq<T>, k: int) -> int {
    struct_prefix(a, b, k, a.len() as int, b.len() as int)
}

/// The structural distance does not depend on which sequence comes first.
pub proof fn lemma_struct_prefix_symmetric<T: StructCell>(a: Seq<T>, b: Seq<T>, k: int, i: int, j: int)
    requires
        0 <= i,
        0 <= j,
    ensures
        struct_prefix(a, b, k, i, j) == struct_prefix(b, a, k, j, i),
    decreases i + j,
{
    if i > 0 && j > 0 {
        lemma_struct_prefix_symmetric(a, b, k, i - 1, j);
        lemma_struct_prefix_symmetric(a, b, k, i, j - 1);
        lemma_struct_prefix_symmetric(a, b, k, i - 1, j - 1);
        T::Label::lemma_same_symmetric(&a[i - 1].spec_label(), &b[j - 1].spec_label());
    }
}

/// Cell `v` of diagonal `q` is reached within `e` structural edits.
pub open spec fn sreached<T: StructCell>(a: Seq<T>, b: Seq<T>, k: int, v: int, q: int, e: int) -> bool {
    v == -1 || (v >= 0 && struct_prefix(a, b, k, min_int(v, a.len() as int), min_int(v + q, b.len() as int)) <= e)
}

proof fn lemma_sreach_sub<T: StructCell>(a: Seq<T>, b: Seq<T>, k: int, v: int, q: int, e: int)
    requires
        v >= 0,
        sreached(a, b, k, v, q, e),
    ensures
        sreached(a, b, k, v + 1, q, e + 1),
{
    let la = a.len() as int;
    let lb = b.len() as int;
    let x = min_int(v, la);
    let y = min_int(v + q, lb);
    let x1 = min_int(v + 1, la);
    let y1 = min_int(v + 1 + q, lb);
    if y < 0 {
        assert(struct_prefix(a, b, k, x, y) == (if x <= 0 { 0 } else { x }));
    } else if v < la && v + q < lb {
        assert(x1 == x + 1 && y1 == y + 1);
    } else if v < la {
        assert(y1 == y && x1 == x + 1);
        if y > 0 {
            assert(struct_prefix(a, b, k, x1, y) <= struct_prefix(a, b, k, x, y) + 1);
        }
    } else if v + q < lb {
        assert(x1 == x && y1 == y + 1);
        if x > 0 {
            assert(struct_prefix(a, b, k, x, y1) <= struct_prefix(a, b, k, x, y) + 1);
        }
    }
}

proof fn lemma_sreach_del<T: StructCell>(a: Seq<T>, b: Seq<T>, k: int, v: int, q: int, e: int)
    requires
        v >= 0,
        sreached(a, b, k, v, q + 1, e),
    ensures
        sreached(a, b, k, v + 1, q, e + 1),
{
    let la = a.len() as int;
    let lb = b.len() as int;
    let x = min_int(v, la);
    let y = min_int(v + q + 1, lb);
    let x1 = min_int(v + 1, la);
    assert(min_int(v + 1 + q, lb) == y);
    if v < la {
        assert(x1 == x + 1);
        if y > 0 {
            assert(struct_prefix(a, b, k, x1, y) <= struct_prefix(a, b, k, x, y) + 1);
        }
    }
}

proof fn lemma_sreach_ins<T: StructCell>(a: Seq<T>, b: Seq<T>, k: int, v: int, q: int, e: int)
    requires
        v >= 0,
        sreached(a, b, k, v, q - 1, e),
    ensures
        sreached(a, b, k, v, q, e + 1),
{
    let la = a.len() as int;
    let lb = b.len() as int;
    let x = min_int(v, la);
    let y = min_int(v + q - 1, lb);
    let y1 = min_int(v + q, lb);
    if v + q - 1 < lb {
        assert(y1 == y + 1);
        if y >= 0 && x > 0 {
            assert(struct_prefix(a, b, k, x, y1) <= struct_prefix(a, b, k, x, y) + 1);
        }
    }
}

/// A pair of cells that may be matched at the current cost is free.
proof fn lemma_sreach_slide<T: StructCell>(a: Seq<T>, b: Seq<T>, k: int, v: int, q: int, e: int)
    requires
        0 <= v < a.len(),
        0 <= v + q < b.len(),
        cells_match(a[v], b[v + q], e, k),
        sreached(a, b, k, v, q, e),
    ensures
        sreached(a, b, k, v + 1, q, e),
{
    assert(min_int(v + 1, a.len() as int) == v + 1);
    assert(min_int(v + 1 + q, b.len() as int) == v + q + 1);
    assert(min_int(v, a.len() as int) == v);
    assert(min_int(v + q, b.len() as int) == v + q);
    assert(cells_match(a[v], b[v + q], struct_prefix(a, b, k, v, v + q), k));
}

proof fn lemma_sreach_start<T: StructCell>(a: Seq<T>, b: Seq<T>, k: int, q: int, e: int)
    requires
        -e <= q <= e,
    ensures
        sreached(a, b, k, 0, q, e),
{
}

proof fn lemma_sreach_mono<T: StructCell>(a: Seq<T>, b: Seq<T>, k: int, v: int, q: int, e: int, f: int)
    requires
        e <= f,
        sreached(a, b, k, v, q, e),
    ensures
        sreached(a, b, k, v, q, f),
{
}

/// The positional part of `cells_match`: with `e` edits spent, both feature
/// gaps of `x` and `y` fit the budget `k`.
pub open spec fn struct_fits<T: StructCell>(x: T, y: T, e: int, k: int) -> bool {
    let ds = x.spec_sum() - y.spec_sum();
    let dd = x.spec_diff() - y.spec_diff();
    &&& e + (if ds < 0 { -ds } else { ds }) <= k
    &&& e + (if dd < 0 { -dd } else { dd }) <= k
}

/// Row band of the structural program for `la` and `lb` cells within budget
/// `k`: the threshold, the offset of diagonal 0 in a row, and the target
/// diagonal's position.
pub open spec fn sw_thr(lb: int, k: int) -> int {
    if lb < k { lb } else { k }
}

pub open spec fn sw_zk(lb: int, k: int) -> int {
    sw_thr(lb, k) + 1
}

pub open spec fn sw_target(la: int, lb: int, k: int) -> int {
    (lb - la) + sw_zk(lb, k)
}

/// First and one-past-last diagonal of row `i` before the budget prunes them.
pub open spec fn sw_ostart(lb: int, k: int, i: int) -> int {
    if i <= sw_zk(lb, k) { -i + 1 } else { i - sw_zk(lb, k) * 2 + 1 }
}

pub open spec fn sw_oend(la: int, lb: int, k: int, i: int) -> int {
    if i <= sw_target(la, lb, k) { i } else { sw_target(la, lb, k) * 2 - i }
}

/// Diagonals of row `i` kept by the budget: those within `k - (i - 1)` of
/// the target diagonal (only the target once the budget is spent).
pub open spec fn sw_start(la: int, lb: int, k: int, i: int) -> int {
    let budget = k - (i - 1);
    let minv = if budget <= 0 { lb - la } else { lb - la - budget };
    if sw_ostart(lb, k, i) > minv { sw_ostart(lb, k, i) } else { minv }
}

pub open spec fn sw_end(la: int, lb: int, k: int, i: int) -> int {
    let budget = k - (i - 1);
    let maxv = if budget <= 0 { lb - la } else { lb - la + budget };
    if sw_oend(la, lb, k, i) < maxv + 1 { sw_oend(la, lb, k, i) } else { maxv + 1 }
}

/// Row `i` starts at its first unpruned diagonal, whose cell is seeded.
pub open spec fn sw_special(la: int, lb: int, k: int, i: int) -> bool {
    i <= sw_zk(lb, k) && sw_start(la, lb, k, i) == sw_ostart(lb, k, i)
}

/// The run of free matches on diagonal `q` from row `m` with `e` edits spent:
/// the row where it stops, and whether the last pair tried fitted the budget
/// (`last` when no pair is left to try).
pub open spec fn struct_slide<T: StructCell>(a: Seq<T>, b: Seq<T>, k: int, e: int, m: int, q: int, last: bool) -> (int, bool)
    decreases a.len() - m,
{
    if m < a.len() && m + q < b.len() && 0 <= m + q && m >= 0 {
        let ok = struct_fits(a[m], b[m + q], e, k);
        if !a[m].spec_label().same(&b[m + q].spec_label()) || !ok {
            (m, ok)
        } else {
            struct_slide(a, b, k, e, m + 1, q, true)
        }
    } else {
        (m, last)
    }
}

/// Value of the cell before `q` in row `i` when computing diagonal `q` from
/// the previous row `r`.
pub open spec fn sw_cur(la: int, lb: int, k: int, i: int, r: Seq<(int, bool)>, q: int) -> int {
    if q == sw_start(la, lb, k, i) && sw_special(la, lb, k, i) {
        i - 2
    } else {
        r[sw_zk(lb, k) + q].0
    }
}

pub open spec fn sw_flag(la: int, lb: int, k: int, i: int, r: Seq<(int, bool)>, q: int) -> bool {
    if q == sw_start(la, lb, k, i) && sw_special(la, lb, k, i) {
        true
    } else {
        r[sw_zk(lb, k) + q].1
    }
}

pub open spec fn sw_prev(la: int, lb: int, k: int, i: int, r: Seq<(int, bool)>, q: int) -> int {
    let st = sw_start(la, lb, k, i);
    if q == st {
        if sw_special(la, lb, k, i) {
            -1
        } else if st > sw_ostart(lb, k, i) && sw_zk(lb, k) + st > 0 {
            r[sw_zk(lb, k) + st - 1].0
        } else {
            -1
        }
    } else {
        sw_cur(la, lb, k, i, r, q - 1)
    }
}

/// The cell of diagonal `q` in row `i`: the farthest of a substitution (not
/// allowed where the previous run stopped on the budget test), a deletion and
/// an insertion, then extended by free matches.
pub open spec fn struct_cell<T: StructCell>(a: Seq<T>, b: Seq<T>, k: int, i: int, r: Seq<(int, bool)>, q: int) -> (int, bool) {
    let la = a.len() as int;
    let lb = b.len() as int;
    let cur = sw_cur(la, lb, k, i, r, q);
    let flag = sw_flag(la, lb, k, i, r, q);
    let prev = sw_prev(la, lb, k, i, r, q);
    let nxt = r[sw_zk(lb, k) + q + 1].0;
    let via_sub = cur + (if flag { 1int } else { 0 });
    let m0 = if via_sub > (if prev > nxt + 1 { prev } else { nxt + 1 }) {
        via_sub
    } else if prev > nxt + 1 {
        prev
    } else {
        nxt + 1
    };
    if !flag && m0 == cur {
        (m0, false)
    } else {
        struct_slide(a, b, k, i - 1, m0, q, false)
    }
}

/// The rows of the structural program: row 0 (and the one before it) hold
/// no cell; row `i` recomputes the diagonals it keeps from row `i - 1`,
/// clears the cell just past them, and keeps the rest of row `i - 2`.
pub open spec fn struct_rows<T: StructCell>(a: Seq<T>, b: Seq<T>, k: int, i: int) -> Seq<(int, bool)>
    decreases (if i > 0 { i } else { 0 }),
{
    let la = a.len() as int;
    let lb = b.len() as int;
    let size = 2 * sw_thr(lb, k) + 3;
    if i <= 0 {
        Seq::new(size as nat, |y: int| (-1int, true))
    } else {
        let prior = struct_rows(a, b, k, i - 1);
        let older = struct_rows(a, b, k, i - 2);
        Seq::new(
            size as nat,
            |y: int|
                {
                    let q = y - sw_zk(lb, k);
                    if sw_start(la, lb, k, i) <= q < sw_end(la, lb, k, i) {
                        struct_cell(a, b, k, i, prior, q)
                    } else if i <= sw_target(la, lb, k) && y == sw_zk(lb, k) + i {
                        (-1int, true)
                    } else {
                        older[y]
                    }
                },
        )
    }
}

/// The first row, from `i` on, whose target cell reaches the end of `a`,
/// less one (the edits spent); -1 when none does within the threshold.
pub open spec fn struct_result<T: StructCell>(a: Seq<T>, b: Seq<T>, k: int, i: int) -> int
    decreases sw_thr(b.len() as int, k) + 2 - i,
{
    if i < 1 || i > sw_thr(b.len() as int, k) + 1 {
        -1
    } else if struct_rows(a, b, k, i)[sw_target(a.len() as int, b.len() as int, k)].0 >= a.len() {
        i - 1
    } else {
        struct_result(a, b, k, i + 1)
    }
}

/// The value of a cell from the four values the program reads for it.
proof fn lemma_struct_cell<T: StructCell>(
    a: Seq<T>,
    b: Seq<T>,
    k: int,
    i: int,
    r: Seq<(int, bool)>,
    q: int,
    prev: int,
    cur: int,
    flag: bool,
    nxt: int,
    m0: int,
)
    requires
        prev == sw_prev(a.len() as int, b.len() as int, k, i, r, q),
        cur == sw_cur(a.len() as int, b.len() as int, k, i, r, q),
        flag == sw_flag(a.len() as int, b.len() as int, k, i, r, q),
        nxt == r[sw_zk(b.len() as int, k) + q + 1].0,
        m0 == max_int(cur + (if flag { 1int } else { 0 }), max_int(prev, nxt + 1)),
    ensures
        !flag && m0 == cur ==> struct_cell(a, b, k, i, r, q) == (m0, false),
        !(!flag && m0 == cur) ==> struct_cell(a, b, k, i, r, q) == struct_slide(a, b, k, i - 1, m0, q, false),
{
}

/// What the structural SED returns for traversals `f1`, `g1` against `f2`,
/// `g2` within the sizes' gate: the larger of the two structural programs'
/// results (the shorter traversal taken first), or `k + 1` when either runs
/// past its threshold.
pub open spec fn bounded_struct_value<T: StructCell>(f1: Seq<T>, f2: Seq<T>, g1: Seq<T>, g2: Seq<T>, k: int) -> int {
    let swap = f1.len() > f2.len();
    let f = if swap { struct_result(f2, f1, k, 1) } else { struct_result(f1, f2, k, 1) };
    let g = if swap { struct_result(g2, g1, k, 1) } else { struct_result(g1, g2, k, 1) };
    if f < 0 || g < 0 {
        k + 1
    } else {
        max_int(f, g)
    }
}

/// Two pairs of cell sequences that the structural program cannot tell
/// apart: the same lengths, the same features, and the same pairs of cells
/// with matching labels.
pub open spec fn cells_agree<T: StructCell, U: StructCell>(a: Seq<T>, b: Seq<T>, a2: Seq<U>, b2: Seq<U>) -> bool {
    &&& a.len() == a2.len()
    &&& b.len() == b2.len()
    &&& forall|x: int| 0 <= x < a.len() ==> #[trigger] a[x].spec_sum() == a2[x].spec_sum() && a[x].spec_diff() == a2[x].spec_diff()
    &&& forall|y: int| 0 <= y < b.len() ==> #[trigger] b[y].spec_sum() == b2[y].spec_sum() && b[y].spec_diff() == b2[y].spec_diff()
    &&& forall|x: int, y: int|
        0 <= x < a.len() && 0 <= y < b.len() ==> #[trigger] a[x].spec_label().same(&b[y].spec_label()) == #[trigger] a2[x].spec_label().same(
            &b2[y].spec_label(),
        )
}

proof fn lemma_slide_agree<T: StructCell, U: StructCell>(
    a: Seq<T>,
    b: Seq<T>,
    a2: Seq<U>,
    b2: Seq<U>,
    k: int,
    e: int,
    m: int,
    q: int,
    last: bool,
)
    requires
        cells_agree(a, b, a2, b2),
    ensures
        struct_slide(a, b, k, e, m, q, last) == struct_slide(a2, b2, k, e, m, q, last),
    decreases a.len() - m,
{
    if m < a.len() && m + q < b.len() && 0 <= m + q && m >= 0 {
        assert(a[m].spec_label().same(&b[m + q].spec_label()) == a2[m].spec_label().same(&b2[m + q].spec_label()));
        assert(a[m].spec_sum() == a2[m].spec_sum() && b[m + q].spec_sum() == b2[m + q].spec_sum());
        lemma_slide_agree(a, b, a2, b2, k, e, m + 1, q, true);
    }
}

proof fn lemma_rows_agree<T: StructCell, U: StructCell>(a: Seq<T>, b: Seq<T>, a2: Seq<U>, b2: Seq<U>, k: int, i: int)
    requires
        cells_agree(a, b, a2, b2),
    ensures
        struct_rows(a, b, k, i) == struct_rows(a2, b2, k, i),
    decreases (if i > 0 { i } else { 0 }),
{
    if i > 0 {
        lemma_rows_agree(a, b, a2, b2, k, i - 1);
        lemma_rows_agree(a, b, a2, b2, k, i - 2);
        let prior = struct_rows(a, b, k, i - 1);
        assert forall|q: int| #[trigger] struct_cell(a, b, k, i, prior, q) == struct_cell(a2, b2, k, i, prior, q) by {
            let la = a.len() as int;
            let lb = b.len() as int;
            let cur = sw_cur(la, lb, k, i, prior, q);
            let flag = sw_flag(la, lb, k, i, prior, q);
            let prev = sw_prev(la, lb, k, i, prior, q);
            let nxt = prior[sw_zk(lb, k) + q + 1].0;
            let m0 = max_int(cur + (if flag { 1int } else { 0 }), max_int(prev, nxt + 1));
            lemma_struct_cell(a, b, k, i, prior, q, prev, cur, flag, nxt, m0);
            lemma_struct_cell(a2, b2, k, i, prior, q, prev, cur, flag, nxt, m0);
            lemma_slide_agree(a, b, a2, b2, k, i - 1, m0, q, false);
        }
        assert(struct_rows(a, b, k, i) =~= struct_rows(a2, b2, k, i));
    }
}

proof fn lemma_result_agree<T: StructCell, U: StructCell>(a: Seq<T>, b: Seq<T>, a2: Seq<U>, b2: Seq<U>, k: int, i: int)
    requires
        cells_agree(a, b, a2, b2),
    ensures
        struct_result(a, b, k, i) == struct_result(a2, b2, k, i),
    decreases sw_thr(b.len() as int, k) + 2 - i,
{
    if !(i < 1 || i > sw_thr(b.len() as int, k) + 1) {
        lemma_rows_agree(a, b, a2, b2, k, i);
        lemma_result_agree(a, b, a2, b2, k, i + 1);
    }
}

/// Law: the interned structural traversals of two trees give the structural
/// SED that their text traversals give, for every budget.
pub proof fn sed_struct_int_agrees(
    t1: TreeArena,
    t2: TreeArena,
    s1: SEDStructIndex,
    s2: SEDStructIndex,
    i1: SEDStructIndexInt,
    i2: SEDStructIndexInt,
    d: Map<Seq<char>, i32>,
    k: int,
)
    requires
        s1.indexes(t1),
        s2.indexes(t2),
        i1.indexes(t1, d),
        i2.indexes(t2, d),
        injective_ids(d),
        forall|y: int| 0 <= y < t1.n() ==> d.dom().contains(#[trigger] t1.label(y)),
        forall|y: int| 0 <= y < t2.n() ==> d.dom().contains(#[trigger] t2.label(y)),
    ensures
        bounded_struct_value(s1.first_traversal@, s2.first_traversal@, s1.second_traversal@, s2.second_traversal@, k)
            == bounded_struct_value(i1.first_traversal@, i2.first_traversal@, i1.second_traversal@, i2.second_traversal@, k),
{
    let n1 = t1.n();
    let n2 = t2.n();
    let (f1, f2, g1, g2) = (s1.first_traversal@, s2.first_traversal@, s1.second_traversal@, s2.second_traversal@);
    let (h1, h2, j1, j2) = (i1.first_traversal@, i2.first_traversal@, i1.second_traversal@, i2.second_traversal@);
    assert forall|x: int| 0 <= x < n1 implies #[trigger] f1[x].spec_sum() == h1[x].spec_sum() && f1[x].spec_diff() == h1[x].spec_diff() by {
        assert(f1[x] == s1.first_traversal@[x]);
    }
    assert forall|x: int| 0 <= x < n2 implies #[trigger] f2[x].spec_sum() == h2[x].spec_sum() && f2[x].spec_diff() == h2[x].spec_diff() by {
        assert(f2[x] == s2.first_traversal@[x]);
    }
    assert forall|x: int| 0 <= x < n1 implies #[trigger] g1[x].spec_sum() == j1[x].spec_sum() && g1[x].spec_diff() == j1[x].spec_diff() by {
        let y = n1 - 1 - x;
        assert(g1[n1 - 1 - y] == s1.second_traversal@[n1 - 1 - y]);
    }
    assert forall|x: int| 0 <= x < n2 implies #[trigger] g2[x].spec_sum() == j2[x].spec_sum() && g2[x].spec_diff() == j2[x].spec_diff() by {
        let y = n2 - 1 - x;
        assert(g2[n2 - 1 - y] == s2.second_traversal@[n2 - 1 - y]);
    }
    assert forall|x: int, y: int| 0 <= x < n1 && 0 <= y < n2 implies #[trigger] f1[x].spec_label().same(&f2[y].spec_label())
        == #[trigger] h1[x].spec_label().same(&h2[y].spec_label()) by {
        assert(d.dom().contains(t1.label(x)) && d.dom().contains(t2.label(y)));
    }
    assert forall|x: int, y: int| 0 <= x < n2 && 0 <= y < n1 implies #[trigger] f2[x].spec_label().same(&f1[y].spec_label())
        == #[trigger] h2[x].spec_label().same(&h1[y].spec_label()) by {
        assert(d.dom().contains(t2.label(x)) && d.dom().contains(t1.label(y)));
    }
    assert forall|x: int, y: int| 0 <= x < n1 && 0 <= y < n2 implies #[trigger] g1[x].spec_label().same(&g2[y].spec_label())
        == #[trigger] j1[x].spec_label().same(&j2[y].spec_label()) by {
        let x1 = n1 - 1 - x;
        let y1 = n2 - 1 - y;
        assert(g1[n1 - 1 - x1] == s1.second_traversal@[n1 - 1 - x1]);
        assert(g2[n2 - 1 - y1] == s2.second_traversal@[n2 - 1 - y1]);
        assert(d.dom().contains(t1.label(x1)) && d.dom().contains(t2.label(y1)));
    }
    assert forall|x: int, y: int| 0 <= x < n2 && 0 <= y < n1 implies #[trigger] g2[x].spec_label().same(&g1[y].spec_label())
        == #[trigger] j2[x].spec_label().same(&j1[y].spec_label()) by {
        let x1 = n2 - 1 - x;
        let y1 = n1 - 1 - y;
        assert(g2[n2 - 1 - x1] == s2.second_traversal@[n2 - 1 - x1]);
        assert(g1[n1 - 1 - y1] == s1.second_traversal@[n1 - 1 - y1]);
        assert(d.dom().contains(t2.label(x1)) && d.dom().contains(t1.label(y1)));
    }
    lemma_result_agree(f1, f2, h1, h2, k, 1);
    lemma_result_agree(f2, f1, h2, h1, k, 1);
    lemma_result_agree(g1, g2, j1, j2, k, 1);
    lemma_result_agree(g2, g1, j2, j1, k, 1);
}

/// Row `v` of a program array, its values read as integers.
pub open spec fn row_ints(v: Seq<(i32, bool)>) -> Seq<(int, bool)> {
    v.map_values(|c: (i32, bool)| (c.0 as int, c.1))
}

/// Bounded structural string edit distance: the diagonal-transition program
/// of `bounded_string_edit_distance_opt`, where a run of matching labels only
/// extends while, with `e` edits spent, `e + |Δsum| <= k` and `e + |Δdiff| <= k`
/// hold for the two cells, and a diagonal whose run stopped on that test may
/// not be continued by a substitution.
///
/// `s1` is the shorter sequence.  Returns the number of edits `e <= min(|s2|, k)`
/// after which the last diagonal reaches the end of `s1`, or `usize::MAX` when
/// none does.
#[verifier::spinoff_prover]
#[verifier::rlimit(100)]
pub fn bounded_string_edit_distance_with_structure<T: StructCell>(s1: &[T], s2: &[T], k: usize) -> (r: usize)
    requires
        s1@.len() <= s2@.len() <= MAX_SEQ_LEN,
        s2@.len() - s1@.len() <= k,
        k <= i32::MAX,
        cells_bounded(s1@),
        cells_bounded(s2@),
    ensures
        r == usize::MAX || r as int <= k,
        r == usize::MAX || r as int <= s2@.len(),
        r != usize::MAX ==> edit_distance(cell_labels(s1@), cell_labels(s2@)) <= r,
        s1@ == s2@ ==> r == 0,
        r != usize::MAX ==> struct_distance(s1@, s2@, k as int) <= r,
        r as int == (if struct_result(s1@, s2@, k as int, 1) < 0 {
            usize::MAX as int
        } else {
            struct_result(s1@, s2@, k as int, 1)
        }),
        r == usize::MAX <==> struct_result(s1@, s2@, k as int, 1) < 0,
{
    let ghost same = s1@ == s2@;
    let ghost kk = k as int;
    let ghost la = cell_labels(s1@);
    let ghost lb = cell_labels(s2@);
    let s1len = s1.len() as i32;
    let s2len = s2.len() as i32;
    let size_diff = s2len - s1len;
    let k_i32 = k as i32;
    let threshold = if s2len < k_i32 { s2len } else { k_i32 };

    let zero_k: i32 = threshold + 1;
    let array_size = (2 * threshold + 3) as usize;

    let mut current_row: Vec<(i32, bool)> = Vec::new();
    let mut next_row: Vec<(i32, bool)> = Vec::new();
    let mut x: usize = 0;
    while x < array_size
        invariant
            0 <= x <= array_size,
            current_row@.len() == x,
            next_row@.len() == x,
            forall|y: int| 0 <= y < x ==> #[trigger] current_row@[y] == (-1i32, true),
            forall|y: int| 0 <= y < x ==> #[trigger] next_row@[y] == (-1i32, true),
        decreases array_size - x,
    {
        current_row.push((-1, true));
        next_row.push((-1, true));
        x = x + 1;
    }
    let target_diagonal = size_diff + zero_k;
    let target_diagonal_idx = target_diagonal as usize;
    let end_max: i64 = target_diagonal as i64 * 2;
    let ghost sa = s1@;
    let ghost sb = s2@;
    let ghost lai = s1@.len() as int;
    let ghost lbi = s2@.len() as int;
    proof {
        assert(threshold == sw_thr(lbi, kk));
        assert(row_ints(current_row@) =~= struct_rows(sa, sb, kk, -1));
        assert(row_ints(next_row@) =~= struct_rows(sa, sb, kk, 0));
    }

    let mut i: i32 = 1;
    while i <= threshold + 1
        invariant
            1 <= i <= threshold + 2,
            0 <= s1len <= s2len <= MAX_SEQ_LEN,
            s1len == s1@.len(),
            s2len == s2@.len(),
            k_i32 == k,
            threshold <= s2len,
            threshold <= k_i32,
            0 <= size_diff <= threshold,
            size_diff == s2len - s1len,
            zero_k == threshold + 1,
            array_size == 2 * threshold + 3,
            target_diagonal == size_diff + zero_k,
            target_diagonal_idx == target_diagonal,
            end_max == target_diagonal * 2,
            current_row@.len() == array_size,
            next_row@.len() == array_size,
            cells_bounded(s1@),
            cells_bounded(s2@),
            forall|y: int| 0 <= y < array_size ==> -1 <= #[trigger] current_row@[y].0 <= row_cap(s1len as int, i - 1),
            forall|y: int| 0 <= y < array_size ==> -1 <= #[trigger] next_row@[y].0 <= row_cap(s1len as int, i - 1),
            forall|y: int| 0 <= y < array_size ==> reached(la, lb, #[trigger] current_row@[y].0 as int, y - zero_k, i - 2),
            forall|y: int| 0 <= y < array_size ==> reached(la, lb, #[trigger] next_row@[y].0 as int, y - zero_k, i - 2),
            forall|y: int| 0 <= y < array_size ==> sreached(s1@, s2@, kk, #[trigger] current_row@[y].0 as int, y - zero_k, i - 2),
            forall|y: int| 0 <= y < array_size ==> sreached(s1@, s2@, kk, #[trigger] next_row@[y].0 as int, y - zero_k, i - 2),
            kk == k,
            la == cell_labels(s1@),
            lb == cell_labels(s2@),
            same == (s1@ == s2@),
            same ==> i == 1,
            sa == s1@,
            sb == s2@,
            lai == s1@.len(),
            lbi == s2@.len(),
            threshold == sw_thr(lbi, kk),
            row_ints(next_row@) == struct_rows(sa, sb, kk, i - 1),
            row_ints(current_row@) == struct_rows(sa, sb, kk, i - 2),
            struct_result(sa, sb, kk, 1) == struct_result(sa, sb, kk, i as int),
        decreases threshold + 2 - i,
    {
        let tmp = current_row;
        current_row = next_row;
        next_row = tmp;

        let original_start: i32 = if i <= zero_k {
            -i + 1
        } else {
            i - zero_k * 2 + 1
        };
        let original_end: i32;
        if i <= target_diagonal {
            original_end = i;
            next_row.set((zero_k + i) as usize, (-1, true));
        } else {
            original_end = (end_max - i as i64) as i32;
        }

        let budget = k_i32 as i64 - (i as i64 - 1);
        let (min_valid_diag, max_valid_diag) = if budget <= 0 {
            (size_diff as i64, size_diff as i64)
        } else {
            (size_diff as i64 - budget, size_diff as i64 + budget)
        };
        let start: i32 = if original_start as i64 > min_valid_diag { original_start } else { min_valid_diag as i32 };
        let end: i32 = if (original_end as i64) < max_valid_diag + 1 { original_end } else { (max_valid_diag + 1) as i32 };

        let mut current_cell: i32;
        let mut next_cell: i32;
        let mut previous_cell: i32;
        let mut next_allowed_substitution: bool;
        if i <= zero_k && start == original_start {
            current_cell = -1;
            next_cell = i - 2;
            next_allowed_substitution = true;
        } else {
            let start_idx = (zero_k + start) as usize;
            current_cell = if start > original_start && start_idx > 0 {
                current_row[start_idx - 1].0
            } else {
                -1
            };
            let cell = current_row[start_idx];
            next_cell = cell.0;
            next_allowed_substitution = cell.1;
        }

        let allowed_edits = i - 1;
        let ghost rprev = struct_rows(sa, sb, kk, i - 1);
        let ghost rold = struct_rows(sa, sb, kk, i - 2);
        proof {
            assert(zero_k == sw_zk(lbi, kk));
            assert(target_diagonal == sw_target(lai, lbi, kk));
            assert(original_start == sw_ostart(lbi, kk, i as int));
            assert(original_end == sw_oend(lai, lbi, kk, i as int));
            assert(start == sw_start(lai, lbi, kk, i as int));
            assert(end == sw_end(lai, lbi, kk, i as int));
            assert(row_ints(current_row@) == rprev);
            assert(current_cell as int == sw_prev(lai, lbi, kk, i as int, rprev, start as int));
            assert(next_cell as int == sw_cur(lai, lbi, kk, i as int, rprev, start as int));
            assert(next_allowed_substitution == sw_flag(lai, lbi, kk, i as int, rprev, start as int));
            assert forall|y: int| 0 <= y < array_size implies #[trigger] row_ints(next_row@)[y] == (if zero_k + start <= y
                < zero_k + start {
                struct_cell(sa, sb, kk, i as int, rprev, y - zero_k)
            } else if i <= target_diagonal && y == zero_k + i {
                (-1int, true)
            } else {
                rold[y]
            }) by {
                if !(i <= target_diagonal && y == zero_k + i) {
                    assert(row_ints(next_row@)[y] == rold[y]);
                }
            }
        }
        proof {
            assert forall|y: int| 0 <= y < array_size implies reached(la, lb, #[trigger] next_row@[y].0 as int, y - zero_k, i - 1) by {
                lemma_reach_mono(la, lb, next_row@[y].0 as int, y - zero_k, i - 2, i - 1);
            }
            assert forall|y: int| 0 <= y < array_size implies sreached(s1@, s2@, kk, #[trigger] next_row@[y].0 as int, y - zero_k, i - 1) by {
                lemma_sreach_mono(s1@, s2@, kk, next_row@[y].0 as int, y - zero_k, i - 2, i - 1);
            }
            if i <= zero_k && start == original_start {
                let x = min_int(i - 2, s1len as int);
                assert(min_int(i - 2 + start, s2len as int) == -1);
                if i >= 2 {
                    assert(ed_prefix(la, lb, x, -1) == (if x <= 0 { 0 } else { x }));
                    assert(struct_prefix(s1@, s2@, kk, x, -1) == (if x <= 0 { 0 } else { x }));
                }
                assert(reached(la, lb, next_cell as int, start as int, i - 2));
                assert(sreached(s1@, s2@, kk, next_cell as int, start as int, i - 2));
            } else {
                let start_idx = zero_k + start;
                assert(reached(la, lb, current_row@[start_idx].0 as int, start_idx - zero_k, i - 2));
                assert(sreached(s1@, s2@, kk, current_row@[start_idx].0 as int, start_idx - zero_k, i - 2));
                if start > original_start && start_idx > 0 {
                    assert(reached(la, lb, current_row@[start_idx - 1].0 as int, start_idx - 1 - zero_k, i - 2));
                    assert(sreached(s1@, s2@, kk, current_row@[start_idx - 1].0 as int, start_idx - 1 - zero_k, i - 2));
                }
            }
        }
        let mut diag_offset: i32 = start;
        while diag_offset < end
            invariant
                1 <= i <= threshold + 1,
                allowed_edits == i - 1,
                0 <= s1len <= s2len <= MAX_SEQ_LEN,
                s1len == s1@.len(),
                s2len == s2@.len(),
                k_i32 == k,
                threshold <= s2len,
                threshold <= k_i32,
                0 <= size_diff <= threshold,
                size_diff == s2len - s1len,
                zero_k == threshold + 1,
                array_size == 2 * threshold + 3,
                target_diagonal == size_diff + zero_k,
                end_max == target_diagonal * 2,
                current_row@.len() == array_size,
                next_row@.len() == array_size,
                cells_bounded(s1@),
                cells_bounded(s2@),
                original_start == (if i <= zero_k { -i + 1 } else { i - zero_k * 2 + 1 }),
                original_end == (if i <= target_diagonal { i as int } else { end_max - i }),
                start >= original_start,
                end <= original_end,
                original_start >= -zero_k + 1,
                end <= target_diagonal,
                start <= diag_offset,
                diag_offset <= end || diag_offset == start,
                forall|y: int| 0 <= y < array_size ==> -1 <= #[trigger] current_row@[y].0 <= row_cap(s1len as int, i - 1),
                forall|y: int| 0 <= y < array_size ==> -1 <= #[trigger] next_row@[y].0 <= row_cap(s1len as int, i as int),
                -1 <= current_cell <= row_cap(s1len as int, i - 1),
                -1 <= next_cell <= row_cap(s1len as int, i - 1),
                la == cell_labels(s1@),
                lb == cell_labels(s2@),
                forall|y: int| 0 <= y < array_size ==> reached(la, lb, #[trigger] current_row@[y].0 as int, y - zero_k, i - 2),
                forall|y: int| 0 <= y < array_size ==> reached(la, lb, #[trigger] next_row@[y].0 as int, y - zero_k, i - 1),
                reached(la, lb, current_cell as int, diag_offset - 1, i - 2),
                reached(la, lb, next_cell as int, diag_offset as int, i - 2),
                kk == k,
                forall|y: int| 0 <= y < array_size ==> sreached(s1@, s2@, kk, #[trigger] current_row@[y].0 as int, y - zero_k, i - 2),
                forall|y: int| 0 <= y < array_size ==> sreached(s1@, s2@, kk, #[trigger] next_row@[y].0 as int, y - zero_k, i - 1),
                sreached(s1@, s2@, kk, current_cell as int, diag_offset - 1, i - 2),
                sreached(s1@, s2@, kk, next_cell as int, diag_offset as int, i - 2),
                -i + 1 <= start,
                end <= i,
                same == (s1@ == s2@),
                same ==> i == 1 && start == 0 && end == 1,
                sa == s1@,
                sb == s2@,
                lai == s1@.len(),
                lbi == s2@.len(),
                zero_k == sw_zk(lbi, kk),
                target_diagonal == sw_target(lai, lbi, kk),
                start == sw_start(lai, lbi, kk, i as int),
                end == sw_end(lai, lbi, kk, i as int),
                rprev == struct_rows(sa, sb, kk, i - 1),
                rold == struct_rows(sa, sb, kk, i - 2),
                row_ints(current_row@) == rprev,
                current_cell as int == sw_prev(lai, lbi, kk, i as int, rprev, diag_offset as int),
                next_cell as int == sw_cur(lai, lbi, kk, i as int, rprev, diag_offset as int),
                next_allowed_substitution == sw_flag(lai, lbi, kk, i as int, rprev, diag_offset as int),
                forall|y: int|
                    0 <= y < array_size ==> #[trigger] row_ints(next_row@)[y] == (if zero_k + start <= y < zero_k
                        + diag_offset {
                        struct_cell(sa, sb, kk, i as int, rprev, y - zero_k)
                    } else if i <= target_diagonal && y == zero_k + i {
                        (-1int, true)
                    } else {
                        rold[y]
                    }),
                same && diag_offset == start ==> current_cell == -1 && next_cell == -1 && next_allowed_substitution,
                same && diag_offset > start ==> next_row@[zero_k as int].0 >= s1len,
            decreases end - diag_offset,
        {
            let diagonal_index = (zero_k + diag_offset) as usize;
            previous_cell = current_cell;
            current_cell = next_cell;
            let can_substitute = next_allowed_substitution;
            let cell = current_row[diagonal_index + 1];
            next_cell = cell.0;
            next_allowed_substitution = cell.1;
            let ghost q = diag_offset as int;
            let ghost next_row_before = next_row@;
            proof {
                assert(previous_cell as int == sw_prev(lai, lbi, kk, i as int, rprev, q));
                assert(current_cell as int == sw_cur(lai, lbi, kk, i as int, rprev, q));
                assert(can_substitute == sw_flag(lai, lbi, kk, i as int, rprev, q));
                assert(next_cell as int == rprev[sw_zk(lbi, kk) + q + 1].0);
                assert(next_cell as int == sw_cur(lai, lbi, kk, i as int, rprev, q + 1));
                assert(next_allowed_substitution == sw_flag(lai, lbi, kk, i as int, rprev, q + 1));
            }

            proof {
                assert(reached(la, lb, next_cell as int, diag_offset + 1, i - 2));
                assert(sreached(s1@, s2@, kk, next_cell as int, diag_offset + 1, i - 2));
            }
            let via_sub = current_cell + (if can_substitute { 1 } else { 0 });
            let via_del = next_cell + 1;
            let mut max_row_number = if previous_cell > via_del { previous_cell } else { via_del };
            max_row_number = if via_sub > max_row_number { via_sub } else { max_row_number };
            let ghost cell_q = struct_cell(sa, sb, kk, i as int, rprev, q);
            let ghost m0 = max_row_number as int;
            proof {
                lemma_struct_cell(
                    sa,
                    sb,
                    kk,
                    i as int,
                    rprev,
                    q,
                    previous_cell as int,
                    current_cell as int,
                    can_substitute,
                    next_cell as int,
                    m0,
                );
            }
            proof {
                let q = diag_offset as int;
                lemma_reach_start(la, lb, q, i - 1);
                lemma_sreach_start(s1@, s2@, kk, q, i - 1);
                if max_row_number == via_sub && can_substitute && current_cell >= 0 {
                    lemma_reach_sub(la, lb, current_cell as int, q, i - 2);
                    lemma_sreach_sub(s1@, s2@, kk, current_cell as int, q, i - 2);
                } else if max_row_number == via_sub && !can_substitute {
                    lemma_reach_mono(la, lb, current_cell as int, q, i - 2, i - 1);
                    lemma_sreach_mono(s1@, s2@, kk, current_cell as int, q, i - 2, i - 1);
                } else if max_row_number == via_del && next_cell >= 0 {
                    lemma_reach_del(la, lb, next_cell as int, q, i - 2);
                    lemma_sreach_del(s1@, s2@, kk, next_cell as int, q, i - 2);
                } else if max_row_number == previous_cell && previous_cell >= 0 {
                    lemma_reach_ins(la, lb, previous_cell as int, q, i - 2);
                    lemma_sreach_ins(s1@, s2@, kk, previous_cell as int, q, i - 2);
                }
                assert(reached(la, lb, max_row_number as int, q, i - 1));
                assert(sreached(s1@, s2@, kk, max_row_number as int, q, i - 1));
            }

            if !can_substitute && max_row_number == current_cell {
                next_row.set(diagonal_index, (max_row_number, false));
            } else {
                let mut struct_ok = false;
                let ghost m_start = max_row_number as int;
                while max_row_number < s1len && max_row_number + diag_offset < s2len
                    && 0 <= max_row_number + diag_offset
                    invariant
                        0 <= max_row_number <= row_cap(s1len as int, i as int),
                        1 <= i <= MAX_SEQ_LEN + 1,
                        s1len == s1@.len(),
                        s2len == s2@.len(),
                        -zero_k <= diag_offset <= zero_k,
                        diag_offset <= target_diagonal,
                        0 <= s1len <= s2len <= MAX_SEQ_LEN,
                        zero_k <= MAX_SEQ_LEN + 1,
                        target_diagonal <= 2 * MAX_SEQ_LEN + 1,
                        0 <= allowed_edits <= MAX_SEQ_LEN,
                        k_i32 == k,
                        cells_bounded(s1@),
                        cells_bounded(s2@),
                        la == cell_labels(s1@),
                        lb == cell_labels(s2@),
                        reached(la, lb, max_row_number as int, diag_offset as int, i - 1),
                        sreached(s1@, s2@, kk, max_row_number as int, diag_offset as int, i - 1),
                        kk == k,
                        allowed_edits == i - 1,
                        same == (s1@ == s2@),
                        same ==> i == 1 && diag_offset == 0 && allowed_edits == 0,
                        sa == s1@,
                        sb == s2@,
                        struct_slide(sa, sb, kk, i - 1, m_start, diag_offset as int, false) == struct_slide(
                            sa,
                            sb,
                            kk,
                            i - 1,
                            max_row_number as int,
                            diag_offset as int,
                            struct_ok,
                        ),
                    ensures
                        same ==> max_row_number >= s1len,
                        struct_slide(sa, sb, kk, i - 1, m_start, diag_offset as int, false) == (
                            max_row_number as int,
                            struct_ok,
                        ),
                    decreases s1len - max_row_number,
                {
                    let c1 = &s1[max_row_number as usize];
                    let c2 = &s2[(max_row_number + diag_offset) as usize];
                    let char_eq = c1.label().is_same(c2.label());
                    let ds = c1.sum() - c2.sum();
                    let dd = c1.diff() - c2.diff();
                    let ads = if ds < 0 { -ds } else { ds };
                    let add = if dd < 0 { -dd } else { dd };
                    struct_ok = allowed_edits as i64 + ads as i64 <= k_i32 as i64 && allowed_edits as i64
                        + add as i64 <= k_i32 as i64;
                    proof {
                        assert(char_eq == s1@[max_row_number as int].spec_label().same(
                            &s2@[max_row_number + diag_offset].spec_label(),
                        ));
                        assert(struct_ok == struct_fits(s1@[max_row_number as int], s2@[max_row_number + diag_offset], i - 1, kk));
                    }
                    if !char_eq || !struct_ok {
                        proof {
                            if same {
                                assert(*c2 == s1@[max_row_number as int]);
                                assert(*c1 == *c2);
                                T::Label::lemma_same_reflexive(&c1.spec_label());
                                assert(char_eq);
                                assert(ds == 0 && dd == 0);
                                assert(false);
                            }
                        }
                        break;
                    }
                    proof {
                        assert(la[max_row_number as int] == s1@[max_row_number as int].spec_label());
                        assert(lb[max_row_number + diag_offset] == s2@[max_row_number + diag_offset].spec_label());
                        lemma_reach_slide(la, lb, max_row_number as int, diag_offset as int, i - 1);
                        assert(cells_match(s1@[max_row_number as int], s2@[max_row_number + diag_offset], i - 1, kk));
                        lemma_sreach_slide(s1@, s2@, kk, max_row_number as int, diag_offset as int, i - 1);
                    }
                    max_row_number = max_row_number + 1;
                }
                next_row.set(diagonal_index, (max_row_number, struct_ok));
            }
            proof {
                assert(row_ints(next_row@)[zero_k + q] == cell_q);
                assert forall|y: int|
                    0 <= y < array_size implies #[trigger] row_ints(next_row@)[y] == (if zero_k + start <= y < zero_k
                        + diag_offset + 1 {
                        struct_cell(sa, sb, kk, i as int, rprev, y - zero_k)
                    } else if i <= target_diagonal && y == zero_k + i {
                        (-1int, true)
                    } else {
                        rold[y]
                    }) by {
                    if y != zero_k + q {
                        assert(row_ints(next_row@)[y] == row_ints(next_row_before)[y]);
                    }
                }
            }
            diag_offset = diag_offset + 1;
        }
        proof {
            let la2 = lai;
            assert(row_ints(next_row@) =~= struct_rows(sa, sb, kk, i as int)) by {
                assert forall|y: int| 0 <= y < array_size implies #[trigger] row_ints(next_row@)[y] == struct_rows(
                    sa,
                    sb,
                    kk,
                    i as int,
                )[y] by {
                    let q2 = y - sw_zk(lbi, kk);
                    if start <= end {
                        assert(diag_offset == end);
                    }
                }
            }
        }

        if next_row[target_diagonal_idx].0 >= s1len {
            proof {
                let v = next_row@[target_diagonal_idx as int].0 as int;
                assert(reached(la, lb, v, target_diagonal - zero_k, i - 1));
                assert(sreached(s1@, s2@, kk, v, target_diagonal - zero_k, i - 1));
                assert(min_int(v, s1len as int) == s1len);
                assert(min_int(v + size_diff, s2len as int) == s2len);
            }
            return (i - 1) as usize;
        }
        i = i + 1;
    }
    proof {
        assert(struct_result(sa, sb, kk, i as int) == -1);
    }
    usize::MAX
}

impl TreeArena {
    /// The arena holds one tree, rooted at slot 0, of at most `MAX_SEQ_LEN`
    /// nodes.
    pub open spec fn is_tree(&self) -> bool {
        &&& self.wf()
        &&& 0 < self.n() <= MAX_SEQ_LEN
        &&& self.size(0) == self.n()
    }

    /// Number of nodes that follow slot `y` in postorder without being its
    /// ancestors: the nodes after its subtree in preorder.
    pub open spec fn following(&self, y: int) -> int {
        self.n() - (self.post_index(y) + 1 + self.depth(y))
    }

    /// Number of nodes that precede slot `y` in postorder without being its
    /// descendants.
    pub open spec fn preceding(&self, y: int) -> int {
        self.post_index(y) + 1 - self.size(y)
    }
}

/// Text of each string of a sequence.
pub open spec fn texts(v: Seq<String>) -> Seq<Seq<char>> {
    v.map_values(|s: String| s@)
}

/// Label sequences of a tree in preorder and postorder.
pub struct SEDIndex {
    pub preorder: Vec<String>,
    pub postorder: Vec<String>,
    pub tree_size: usize,
}

impl SEDIndex {
    /// The sequences are the preorder and postorder label sequences of `t`.
    pub open spec fn indexes(&self, t: TreeArena) -> bool {
        &&& self.tree_size == t.n()
        &&& self.preorder@.len() == t.n()
        &&& self.postorder@.len() == t.n()
        &&& forall|y: int| 0 <= y < t.n() ==> #[trigger] self.preorder@[y]@ == t.label(y)
        &&& forall|y: int| 0 <= y < t.n() ==> #[trigger] self.postorder@[t.post_index(y)]@ == t.label(y)
    }

    /// Both sequences have the tree's size, which fits the dynamic programs.
    pub open spec fn wf(&self) -> bool {
        &&& self.preorder@.len() == self.tree_size
        &&& self.postorder@.len() == self.tree_size
        &&& self.tree_size <= MAX_SEQ_LEN
    }

    /// Indexes a tree: its labels in preorder and in postorder.
    pub fn index_tree(tree: &TreeArena) -> (r: SEDIndex)
        requires
            tree.is_tree(),
        ensures
            r.indexes(*tree),
            r.wf(),
    {
        let shape = tree_shape(tree);
        let n = tree.count();
        let mut pre: Vec<String> = Vec::new();
        let mut post: Vec<String> = Vec::new();
        let mut p: usize = 0;
        while p < n
            invariant
                tree.is_tree(),
                n == tree.n(),
                shape_of(*tree, shape),
                p <= n,
                pre@.len() == p,
                post@.len() == p,
                forall|y: int| 0 <= y < p ==> #[trigger] pre@[y]@ == tree.label(y),
                forall|q: int| 0 <= q < p ==> #[trigger] post@[q]@ == tree.label(shape.postorder@[q] as int),
            decreases n - p,
        {
            proof {
                assert(tree.node_ok(p as int));
            }
            pre.push(tree.node(p).get().clone());
            let x = shape.postorder[p];
            proof {
                assert(tree.in_tree(shape.postorder@[p as int] as int));
                assert(tree.node_ok(x as int));
            }
            post.push(tree.node(x).get().clone());
            p = p + 1;
        }
        proof {
            assert forall|y: int| 0 <= y < n implies #[trigger] post@[tree.post_index(y)]@ == tree.label(y) by {
                lemma_post_index_range(*tree, y);
                assert(shape.postorder@[tree.post_index(y)] as int == y);
            }
        }
        SEDIndex { preorder: pre, postorder: post, tree_size: n }
    }
}

/// Plain SED lower bound: the larger of the edit distances between the
/// preorder and between the postorder label sequences.
pub fn sed(t1: &SEDIndex, t2: &SEDIndex) -> (r: usize)
    requires
        t1.wf(),
        t2.wf(),
    ensures
        r as int == max_int(
            edit_distance(t1.preorder@, t2.preorder@),
            edit_distance(t1.postorder@, t2.postorder@),
        ),
{
    let (a, b) = if t1.preorder.len() > t2.preorder.len() {
        (t2, t1)
    } else {
        (t1, t2)
    };
    proof {
        lemma_edit_distance_symmetric(t1.preorder@, t2.preorder@);
        lemma_edit_distance_symmetric(t1.postorder@, t2.postorder@);
    }
    let pre_dist = string_edit_distance(a.preorder.as_slice(), b.preorder.as_slice());
    let post_dist = string_edit_distance(a.postorder.as_slice(), b.postorder.as_slice());
    if pre_dist >= post_dist {
        pre_dist
    } else {
        post_dist
    }
}

/// Law: the plain SED lower bound does not depend on the order of the two
/// trees.
pub proof fn sed_symmetric(t1: SEDIndex, t2: SEDIndex)
    ensures
        max_int(edit_distance(t1.preorder@, t2.preorder@), edit_distance(t1.postorder@, t2.postorder@))
            == max_int(edit_distance(t2.preorder@, t1.preorder@), edit_distance(t2.postorder@, t1.postorder@)),
{
    lemma_edit_distance_symmetric(t1.preorder@, t2.preorder@);
    lemma_edit_distance_symmetric(t1.postorder@, t2.postorder@);
}

/// Bounded plain SED: `k + 1` when the tree sizes differ by more than `k`;
/// otherwise the diagonal-transition distance of the preorder sequences with
/// budget `k + 1`, returned at once when it exceeds that budget, else the
/// larger of it and the same distance of the postorder sequences.
pub fn bounded_sed(t1: &SEDIndex, t2: &SEDIndex, k: usize) -> (r: usize)
    requires
        t1.wf(),
        t2.wf(),
        k < usize::MAX - 1,
    ensures
        (t1.tree_size as int - t2.tree_size as int > k || t2.tree_size as int - t1.tree_size as int > k)
            ==> r == k + 1,
        r <= max_int(t1.tree_size as int, t2.tree_size as int) || r == k + 1,
        t1.preorder@ == t2.preorder@ && t1.postorder@ == t2.postorder@ ==> r == 0,
        r > k || max_int(edit_distance(t1.preorder@, t2.preorder@), edit_distance(t1.postorder@, t2.postorder@)) <= r,
        (k as u64) < 0x7fff_ffff_ffff_ffffu64 ==> ({
            let sed = max_int(edit_distance(t1.preorder@, t2.preorder@), edit_distance(t1.postorder@, t2.postorder@));
            &&& sed <= k + 1 ==> r == sed
            &&& sed > k + 1 ==> r == k + 1
        }),
{
    proof {
        lemma_edit_distance_symmetric(t1.preorder@, t2.preorder@);
        lemma_edit_distance_symmetric(t1.postorder@, t2.postorder@);
        crate::edit_distance::lemma_ed_prefix_bounds(t1.preorder@, t2.preorder@, t1.preorder@.len() as int, t2.preorder@.len() as int);
        crate::edit_distance::lemma_ed_prefix_bounds(t1.postorder@, t2.postorder@, t1.postorder@.len() as int, t2.postorder@.len() as int);
    }
    let diff = if t1.tree_size > t2.tree_size {
        t1.tree_size - t2.tree_size
    } else {
        t2.tree_size - t1.tree_size
    };
    if diff > k {
        return k + 1;
    }
    let (a, b) = if t1.preorder.len() > t2.preorder.len() {
        (t2, t1)
    } else {
        (t1, t2)
    };
    let kk = k + 1;
    let pre_dist = bounded_string_edit_distance(a.preorder.as_slice(), b.preorder.as_slice(), kk);
    if pre_dist > kk {
        return pre_dist;
    }
    let post_dist = if a.postorder.len() <= b.postorder.len() {
        bounded_string_edit_distance(a.postorder.as_slice(), b.postorder.as_slice(), kk)
    } else {
        bounded_string_edit_distance(b.postorder.as_slice(), a.postorder.as_slice(), kk)
    };
    if pre_dist >= post_dist {
        pre_dist
    } else {
        post_dist
    }
}

/// Bounded plain SED with the budget-pruned band: `k + 1` when the tree sizes
/// differ by more than `k` or either sequence distance exceeds `k`, else the
/// larger of the two distances.
pub fn bounded_sed_opt(t1: &SEDIndex, t2: &SEDIndex, k: usize) -> (r: usize)
    requires
        t1.wf(),
        t2.wf(),
        k < usize::MAX,
    ensures
        r <= k + 1,
        (t1.tree_size as int - t2.tree_size as int > k || t2.tree_size as int - t1.tree_size as int > k)
            ==> r == k + 1,
        r <= k ==> max_int(edit_distance(t1.preorder@, t2.preorder@), edit_distance(t1.postorder@, t2.postorder@)) <= r,
        (k as u64) <= 0x7fff_ffff_ffff_ffffu64 ==> r as int == ({
            let sed = max_int(edit_distance(t1.preorder@, t2.preorder@), edit_distance(t1.postorder@, t2.postorder@));
            if sed <= k {
                sed
            } else {
                k + 1
            }
        }),
{
    proof {
        lemma_edit_distance_symmetric(t1.preorder@, t2.preorder@);
        lemma_edit_distance_symmetric(t1.postorder@, t2.postorder@);
        crate::edit_distance::lemma_ed_prefix_bounds(t1.preorder@, t2.preorder@, t1.preorder@.len() as int, t2.preorder@.len() as int);
        crate::edit_distance::lemma_ed_prefix_bounds(t1.postorder@, t2.postorder@, t1.postorder@.len() as int, t2.postorder@.len() as int);
    }
    let diff = if t1.tree_size > t2.tree_size {
        t1.tree_size - t2.tree_size
    } else {
        t2.tree_size - t1.tree_size
    };
    if diff > k {
        return k + 1;
    }
    let (a, b) = if t1.preorder.len() > t2.preorder.len() {
        (t2, t1)
    } else {
        (t1, t2)
    };
    let pre_dist = bounded_string_edit_distance_opt(a.preorder.as_slice(), b.preorder.as_slice(), k);
    if pre_dist > k {
        return k + 1;
    }
    let post_dist = bounded_string_edit_distance_opt(a.postorder.as_slice(), b.postorder.as_slice(), k);
    if post_dist > k {
        return k + 1;
    }
    if pre_dist >= post_dist {
        pre_dist
    } else {
        post_dist
    }
}

/// The structural features of slot `y`: (sum, diff) for its preorder cell,
/// from the nodes that follow it and its descendants, and (sum, diff) for its
/// cell of the second traversal, from the nodes that precede it and its
/// ancestors.
pub open spec fn first_features(t: TreeArena, y: int) -> (int, int) {
    (t.following(y) + (t.size(y) - 1), (t.size(y) - 1) - t.following(y))
}

pub open spec fn second_features(t: TreeArena, y: int) -> (int, int) {
    (t.preceding(y) + t.depth(y), t.depth(y) - t.preceding(y))
}

/// Computes the features of slot `y` from its subtree size and depth.
fn features(n: usize, y: usize, size: usize, depth: usize) -> (r: (i32, i32, i32, i32))
    requires
        n <= MAX_SEQ_LEN,
        1 <= size,
        y + size <= n,
        depth <= y,
    ensures
        r.0 == (n - (y + size)) + (size - 1),
        r.1 == (size - 1) - (n - (y + size)),
        r.2 == (y - depth) + depth,
        r.3 == depth - (y - depth),
{
    let pid = y + size - depth;
    let preceding = pid - size;
    let following = n - (pid + depth);
    let descendant = size as i32 - 1;
    let ancestor = depth as i32;
    (following as i32 + descendant, descendant - following as i32, preceding as i32 + ancestor, ancestor - preceding as i32)
}

/// Structural traversals of a tree: the preorder cells with their following
/// and descendant counts, and the second traversal with preceding and
/// ancestor counts, filled in preorder and then reversed.
pub struct SEDStructIndex {
    pub first_traversal: Vec<TraversalCharacter>,
    pub second_traversal: Vec<TraversalCharacter>,
    pub tree_size: usize,
}

impl SEDStructIndex {
    pub open spec fn indexes(&self, t: TreeArena) -> bool {
        let n = t.n();
        &&& self.tree_size == n
        &&& self.first_traversal@.len() == n
        &&& self.second_traversal@.len() == n
        &&& forall|y: int|
            0 <= y < n ==> {
                let c = #[trigger] self.first_traversal@[y];
                &&& c.label@ == t.label(y)
                &&& (c.sum as int, c.diff as int) == first_features(t, y)
            }
        &&& forall|y: int|
            0 <= y < n ==> {
                let c = #[trigger] self.second_traversal@[n - 1 - y];
                &&& c.label@ == t.label(y)
                &&& (c.sum as int, c.diff as int) == second_features(t, y)
            }
    }

    pub open spec fn wf(&self) -> bool {
        &&& self.first_traversal@.len() == self.tree_size
        &&& self.second_traversal@.len() == self.tree_size
        &&& self.tree_size <= MAX_SEQ_LEN
        &&& cells_bounded(self.first_traversal@)
        &&& cells_bounded(self.second_traversal@)
    }

    /// Indexes a tree into its two structural traversals.
    pub fn index_tree(tree: &TreeArena) -> (r: SEDStructIndex)
        requires
            tree.is_tree(),
        ensures
            r.indexes(*tree),
            r.wf(),
    {
        let shape = tree_shape(tree);
        let n = tree.count();
        let mut first: Vec<TraversalCharacter> = Vec::new();
        let mut y: usize = 0;
        while y < n
            invariant
                tree.is_tree(),
                n == tree.n(),
                shape_of(*tree, shape),
                y <= n,
                first@.len() == y,
                forall|x: int|
                    0 <= x < y ==> {
                        let c = #[trigger] first@[x];
                        &&& c.label@ == tree.label(x)
                        &&& (c.sum as int, c.diff as int) == first_features(*tree, x)
                    },
                cells_bounded(first@),
            decreases n - y,
        {
            proof {
                assert(tree.node_ok(y as int));
                crate::traversal::lemma_depth_le_index(*tree, y as int);
            }
            let f = features(n, y, shape.sizes[y], shape.depths[y]);
            first.push(TraversalCharacter { label: tree.node(y).get().clone(), sum: f.0, diff: f.1 });
            y = y + 1;
        }
        let mut second: Vec<TraversalCharacter> = Vec::new();
        let mut q: usize = 0;
        while q < n
            invariant
                tree.is_tree(),
                n == tree.n(),
                shape_of(*tree, shape),
                q <= n,
                second@.len() == q,
                forall|x: int|
                    n - q <= x < n ==> {
                        let c = #[trigger] second@[n - 1 - x];
                        &&& c.label@ == tree.label(x)
                        &&& (c.sum as int, c.diff as int) == second_features(*tree, x)
                    },
                cells_bounded(second@),
            decreases n - q,
        {
            let y = n - 1 - q;
            proof {
                assert(tree.node_ok(y as int));
                crate::traversal::lemma_depth_le_index(*tree, y as int);
            }
            let f = features(n, y, shape.sizes[y], shape.depths[y]);
            let ghost before = second@;
            second.push(TraversalCharacter { label: tree.node(y).get().clone(), sum: f.2, diff: f.3 });
            proof {
                assert forall|x: int| n - (q + 1) <= x < n implies {
                    let c = #[trigger] second@[n - 1 - x];
                    &&& c.label@ == tree.label(x)
                    &&& (c.sum as int, c.diff as int) == second_features(*tree, x)
                } by {
                    if x != y {
                        assert(second@[n - 1 - x] == before[n - 1 - x]);
                    }
                }
            }
            q = q + 1;
        }
        SEDStructIndex { first_traversal: first, second_traversal: second, tree_size: n }
    }
}

/// A labelling by ids: distinct label texts have distinct ids.
pub open spec fn injective_ids(d: Map<Seq<char>, i32>) -> bool {
    forall|l1: Seq<char>, l2: Seq<char>|
        #[trigger] d.dom().contains(l1) && #[trigger] d.dom().contains(l2) && d[l1] == d[l2] ==> l1 == l2
}

/// The labels of a tree, slot by slot (in preorder).
pub open spec fn tree_labels(t: TreeArena) -> Seq<Seq<char>> {
    Seq::new(t.n() as nat, |y: int| t.label(y))
}

/// Interns the labels of the tree in preorder; returns the id of each slot.
pub fn intern_labels(tree: &TreeArena, dict: &mut LabelDict) -> (ids: Vec<i32>)
    requires
        tree.is_tree(),
        old(dict).wf(),
        interned(old(dict).entries(), tree_labels(*tree)).len() < i32::MAX,
    ensures
        final(dict).wf(),
        final(dict).entries() == interned(old(dict).entries(), tree_labels(*tree)),
        old(dict).entries().submap_of(final(dict).entries()),
        final(dict).entries().len() <= old(dict).entries().len() + tree.n(),
        ids@.len() == tree.n(),
        forall|y: int| 0 <= y < tree.n() ==> final(dict).entries().dom().contains(#[trigger] tree.label(y)),
        forall|y: int| 0 <= y < tree.n() ==> final(dict).entries()[tree.label(y)] == #[trigger] ids@[y],
        forall|l: Seq<char>|
            #[trigger] final(dict).entries().dom().contains(l) ==> old(dict).entries().dom().contains(l)
                || exists|y: int| 0 <= y < tree.n() && tree.label(y) == l,
{
    let n = tree.count();
    let mut ids: Vec<i32> = Vec::new();
    let ghost d0 = dict.entries();
    let ghost labels = tree_labels(*tree);
    proof {
        lemma_interned(d0, labels);
        assert(labels.take(0) =~= Seq::<Seq<char>>::empty());
    }
    let mut y: usize = 0;
    while y < n
        invariant
            tree.is_tree(),
            n == tree.n(),
            y <= n,
            dict.wf(),
            d0.dom().finite(),
            labels == tree_labels(*tree),
            dict.entries() == interned(d0, labels.take(y as int)),
            interned(d0, labels).len() < i32::MAX,
            d0.submap_of(dict.entries()),
            dict.entries().len() <= d0.len() + y,
            ids@.len() == y,
            forall|x: int| 0 <= x < y ==> dict.entries().dom().contains(#[trigger] tree.label(x)),
            forall|x: int| 0 <= x < y ==> dict.entries()[tree.label(x)] == #[trigger] ids@[x],
            forall|l: Seq<char>|
                #[trigger] dict.entries().dom().contains(l) ==> d0.dom().contains(l)
                    || exists|x: int| 0 <= x < y && tree.label(x) == l,
        decreases n - y,
    {
        proof {
            assert(tree.node_ok(y as int));
        }
        let ghost before = dict.entries();
        let ghost ids0 = ids@;
        let lbl = tree.node(y).get().as_str();
        assert(lbl@ == tree.label(y as int));
        proof {
            assert(labels.take(y as int) + labels.skip(y as int) =~= labels);
            lemma_interned_concat(d0, labels.take(y as int), labels.skip(y as int));
            lemma_interned(interned(d0, labels.take(y as int)), labels.skip(y as int));
        }
        let id = intern(dict, lbl);
        proof {
            assert(labels.take(y + 1).drop_last() =~= labels.take(y as int));
            assert(labels.take(y + 1).last() == tree.label(y as int));
        }
        ids.push(id);
        proof {
            assert forall|x: int| 0 <= x < y + 1 implies dict.entries().dom().contains(#[trigger] tree.label(x)) by {
                if x < y {
                    assert(before.dom().contains(tree.label(x)));
                }
            }
            assert forall|x: int| 0 <= x < y + 1 implies dict.entries()[tree.label(x)] == #[trigger] ids@[x] by {
                if x < y {
                    assert(ids@[x] == ids0[x]);
                    assert(before.dom().contains(tree.label(x)));
                    assert(before[tree.label(x)] == ids0[x]);
                } else {
                    assert(ids@[x] == id);
                }
            }
            assert forall|l: Seq<char>| #[trigger] dict.entries().dom().contains(l) implies d0.dom().contains(l)
                || exists|x: int| 0 <= x < y + 1 && tree.label(x) == l by {
                if l == tree.label(y as int) {
                    assert(0 <= y < y + 1 && tree.label(y as int) == l);
                } else {
                    assert(before.dom().contains(l));
                }
            }
        }
        y = y + 1;
    }
    proof {
        assert(labels.take(n as int) =~= labels);
    }
    ids
}

/// Label sequences of a tree as interned ids.
pub struct SEDIndexInt {
    pub preorder: Vec<i32>,
    pub postorder: Vec<i32>,
    pub tree_size: usize,
}

impl SEDIndexInt {
    /// The sequences are the preorder and postorder label sequences of `t`,
    /// each label replaced by its id in `d`.
    pub open spec fn indexes(&self, t: TreeArena, d: Map<Seq<char>, i32>) -> bool {
        &&& self.tree_size == t.n()
        &&& self.preorder@.len() == t.n()
        &&& self.postorder@.len() == t.n()
        &&& forall|y: int| 0 <= y < t.n() ==> #[trigger] self.preorder@[y] == d[t.label(y)]
        &&& forall|y: int| 0 <= y < t.n() ==> #[trigger] self.postorder@[t.post_index(y)] == d[t.label(y)]
    }

    pub open spec fn wf(&self) -> bool {
        &&& self.preorder@.len() == self.tree_size
        &&& self.postorder@.len() == self.tree_size
        &&& self.tree_size <= MAX_SEQ_LEN
    }
}

/// Structural traversals with interned labels.
pub struct SEDStructIndexInt {
    pub first_traversal: Vec<TraversalCharacterInt>,
    pub second_traversal: Vec<TraversalCharacterInt>,
    pub tree_size: usize,
}

impl SEDStructIndexInt {
    pub open spec fn indexes(&self, t: TreeArena, d: Map<Seq<char>, i32>) -> bool {
        let n = t.n();
        &&& self.tree_size == n
        &&& self.first_traversal@.len() == n
        &&& self.second_traversal@.len() == n
        &&& forall|y: int|
            0 <= y < n ==> {
                let c = #[trigger] self.first_traversal@[y];
                &&& c.label == d[t.label(y)]
                &&& (c.sum as int, c.diff as int) == first_features(t, y)
            }
        &&& forall|y: int|
            0 <= y < n ==> {
                let c = #[trigger] self.second_traversal@[n - 1 - y];
                &&& c.label == d[t.label(y)]
                &&& (c.sum as int, c.diff as int) == second_features(t, y)
            }
    }

    pub open spec fn wf(&self) -> bool {
        &&& self.first_traversal@.len() == self.tree_size
        &&& self.second_traversal@.len() == self.tree_size
        &&& self.tree_size <= MAX_SEQ_LEN
        &&& cells_bounded(self.first_traversal@)
        &&& cells_bounded(self.second_traversal@)
    }
}

/// Indexes a tree into its label-id sequences, interning labels in preorder.
pub fn sed_index_int(tree: &TreeArena, dict: &mut LabelDict) -> (r: SEDIndexInt)
    requires
        tree.is_tree(),
        old(dict).wf(),
        interned(old(dict).entries(), tree_labels(*tree)).len() < i32::MAX,
    ensures
        final(dict).wf(),
        final(dict).entries() == interned(old(dict).entries(), tree_labels(*tree)),
        old(dict).entries().submap_of(final(dict).entries()),
        final(dict).entries().len() <= old(dict).entries().len() + tree.n(),
        r.indexes(*tree, final(dict).entries()),
        r.wf(),
        forall|y: int| 0 <= y < tree.n() ==> final(dict).entries().dom().contains(#[trigger] tree.label(y)),
{
    let ids = intern_labels(tree, dict);
    let shape = tree_shape(tree);
    let n = tree.count();
    let mut pre: Vec<i32> = Vec::new();
    let mut post: Vec<i32> = Vec::new();
    let mut p: usize = 0;
    while p < n
        invariant
            tree.is_tree(),
            n == tree.n(),
            shape_of(*tree, shape),
            ids@.len() == n,
            p <= n,
            pre@.len() == p,
            post@.len() == p,
            forall|y: int| 0 <= y < p ==> #[trigger] pre@[y] == ids@[y],
            forall|q: int| 0 <= q < p ==> #[trigger] post@[q] == ids@[shape.postorder@[q] as int],
        decreases n - p,
    {
        pre.push(ids[p]);
        let x = shape.postorder[p];
        proof {
            assert(tree.in_tree(shape.postorder@[p as int] as int));
        }
        post.push(ids[x]);
        p = p + 1;
    }
    proof {
        assert forall|y: int| 0 <= y < n implies #[trigger] post@[tree.post_index(y)] == dict.entries()[tree.label(y)] by {
            lemma_post_index_range(*tree, y);
            assert(shape.postorder@[tree.post_index(y)] as int == y);
            assert(ids@[y] == dict.entries()[tree.label(y)]);
        }
        assert forall|y: int| 0 <= y < n implies #[trigger] pre@[y] == dict.entries()[tree.label(y)] by {
            assert(ids@[y] == dict.entries()[tree.label(y)]);
        }
    }
    SEDIndexInt { preorder: pre, postorder: post, tree_size: n }
}

/// Indexes a tree into its structural traversals with interned labels.
pub fn sed_struct_index_int(tree: &TreeArena, dict: &mut LabelDict) -> (r: SEDStructIndexInt)
    requires
        tree.is_tree(),
        old(dict).wf(),
        interned(old(dict).entries(), tree_labels(*tree)).len() < i32::MAX,
    ensures
        final(dict).wf(),
        final(dict).entries() == interned(old(dict).entries(), tree_labels(*tree)),
        old(dict).entries().submap_of(final(dict).entries()),
        final(dict).entries().len() <= old(dict).entries().len() + tree.n(),
        r.indexes(*tree, final(dict).entries()),
        r.wf(),
        forall|y: int| 0 <= y < tree.n() ==> final(dict).entries().dom().contains(#[trigger] tree.label(y)),
{
    let ids = intern_labels(tree, dict);
    let shape = tree_shape(tree);
    let n = tree.count();
    let ghost d = dict.entries();
    let mut first: Vec<TraversalCharacterInt> = Vec::new();
    let mut y: usize = 0;
    while y < n
        invariant
            tree.is_tree(),
            n == tree.n(),
            shape_of(*tree, shape),
            ids@.len() == n,
            forall|x: int| 0 <= x < n ==> #[trigger] ids@[x] == d[tree.label(x)],
            y <= n,
            first@.len() == y,
            forall|x: int|
                0 <= x < y ==> {
                    let c = #[trigger] first@[x];
                    &&& c.label == d[tree.label(x)]
                    &&& (c.sum as int, c.diff as int) == first_features(*tree, x)
                },
            cells_bounded(first@),
        decreases n - y,
    {
        proof {
            crate::traversal::lemma_depth_le_index(*tree, y as int);
        }
        let f = features(n, y, shape.sizes[y], shape.depths[y]);
        first.push(TraversalCharacterInt { label: ids[y], sum: f.0, diff: f.1 });
        y = y + 1;
    }
    let mut second: Vec<TraversalCharacterInt> = Vec::new();
    let mut q: usize = 0;
    while q < n
        invariant
            tree.is_tree(),
            n == tree.n(),
            shape_of(*tree, shape),
            ids@.len() == n,
            forall|x: int| 0 <= x < n ==> #[trigger] ids@[x] == d[tree.label(x)],
            q <= n,
            second@.len() == q,
            forall|x: int|
                n - q <= x < n ==> {
                    let c = #[trigger] second@[n - 1 - x];
                    &&& c.label == d[tree.label(x)]
                    &&& (c.sum as int, c.diff as int) == second_features(*tree, x)
                },
            cells_bounded(second@),
        decreases n - q,
    {
        let y = n - 1 - q;
        proof {
            crate::traversal::lemma_depth_le_index(*tree, y as int);
        }
        let f = features(n, y, shape.sizes[y], shape.depths[y]);
        let ghost before = second@;
        second.push(TraversalCharacterInt { label: ids[y], sum: f.2, diff: f.3 });
        proof {
            assert forall|x: int| n - (q + 1) <= x < n implies {
                let c = #[trigger] second@[n - 1 - x];
                &&& c.label == d[tree.label(x)]
                &&& (c.sum as int, c.diff as int) == second_features(*tree, x)
            } by {
                if x != y {
                    assert(second@[n - 1 - x] == before[n - 1 - x]);
                }
            }
        }
        q = q + 1;
    }
    SEDStructIndexInt { first_traversal: first, second_traversal: second, tree_size: n }
}

/// Interns the labels of two trees into one fresh dictionary and indexes
/// both into label-id sequences.
pub fn build_sed_indices_int(t1: &TreeArena, t2: &TreeArena) -> (r: (SEDIndexInt, SEDIndexInt))
    requires
        t1.is_tree(),
        t2.is_tree(),
        t1.n() + t2.n() < i32::MAX,
    ensures
        r.0.wf(),
        r.1.wf(),
        exists|d: Map<Seq<char>, i32>| injective_ids(d) && r.0.indexes(*t1, d) && r.1.indexes(*t2, d),
{
    let mut dict = LabelDict::new();
    proof {
        lemma_interned(dict.entries(), tree_labels(*t1));
    }
    let i1 = sed_index_int(t1, &mut dict);
    let ghost d1 = dict.entries();
    proof {
        lemma_interned(dict.entries(), tree_labels(*t2));
    }
    let i2 = sed_index_int(t2, &mut dict);
    proof {
        let d = dict.entries();
        assert forall|y: int| 0 <= y < t1.n() implies #[trigger] i1.preorder@[y] == d[t1.label(y)] by {
            assert(d1.dom().contains(t1.label(y)));
            assert(i1.preorder@[y] == d1[t1.label(y)]);
            assert(d.dom().contains(t1.label(y)));
            assert(d[t1.label(y)] == d1[t1.label(y)]);
        }
        assert forall|y: int| 0 <= y < t1.n() implies #[trigger] i1.postorder@[t1.post_index(y)] == d[t1.label(y)] by {
            assert(d1.dom().contains(t1.label(y)));
            assert(i1.postorder@[t1.post_index(y)] == d1[t1.label(y)]);
            assert(d.dom().contains(t1.label(y)));
            assert(d[t1.label(y)] == d1[t1.label(y)]);
        }
        assert(injective_ids(d));
        assert(i1.indexes(*t1, d));
    }
    (i1, i2)
}

/// Interns the labels of two trees into one fresh dictionary and indexes
/// both into structural traversals.
pub fn build_sed_struct_indices_int(t1: &TreeArena, t2: &TreeArena) -> (r: (SEDStructIndexInt, SEDStructIndexInt))
    requires
        t1.is_tree(),
        t2.is_tree(),
        t1.n() + t2.n() < i32::MAX,
    ensures
        r.0.wf(),
        r.1.wf(),
        exists|d: Map<Seq<char>, i32>|
            injective_ids(d) && r.0.indexes(*t1, d) && r.1.indexes(*t2, d) && (forall|y: int|
                0 <= y < t1.n() ==> d.dom().contains(#[trigger] t1.label(y))) && (forall|y: int|
                0 <= y < t2.n() ==> d.dom().contains(#[trigger] t2.label(y))),
{
    let mut dict = LabelDict::new();
    proof {
        lemma_interned(dict.entries(), tree_labels(*t1));
    }
    let i1 = sed_struct_index_int(t1, &mut dict);
    let ghost d1 = dict.entries();
    proof {
        lemma_interned(dict.entries(), tree_labels(*t2));
    }
    let i2 = sed_struct_index_int(t2, &mut dict);
    proof {
        let d = dict.entries();
        let n = t1.n();
        assert forall|y: int| 0 <= y < n implies #[trigger] i1.first_traversal@[y].label == d[t1.label(y)] by {
            assert(d1.dom().contains(t1.label(y)));
            assert(i1.first_traversal@[y].label == d1[t1.label(y)]);
            assert(d.dom().contains(t1.label(y)));
            assert(d[t1.label(y)] == d1[t1.label(y)]);
        }
        assert forall|y: int| 0 <= y < n implies #[trigger] i1.second_traversal@[n - 1 - y].label == d[t1.label(y)] by {
            assert(d1.dom().contains(t1.label(y)));
            assert(i1.second_traversal@[n - 1 - y].label == d1[t1.label(y)]);
            assert(d.dom().contains(t1.label(y)));
            assert(d[t1.label(y)] == d1[t1.label(y)]);
        }
        assert(injective_ids(d));
        assert(i1.indexes(*t1, d));
    }
    (i1, i2)
}

/// Bounded structural SED: `k + 1` when the tree sizes differ by more than
/// `k` or either structural traversal distance exceeds `k`, else the larger
/// of the two.
pub fn bounded_sed_struct(t1: &SEDStructIndex, t2: &SEDStructIndex, k: usize) -> (r: usize)
    requires
        t1.wf(),
        t2.wf(),
        k < i32::MAX,
    ensures
        r <= k + 1,
        (t1.tree_size as int - t2.tree_size as int > k || t2.tree_size as int - t1.tree_size as int > k)
            ==> r == k + 1,
        r <= k ==> max_int(
            edit_distance(cell_labels(t1.first_traversal@), cell_labels(t2.first_traversal@)),
            edit_distance(cell_labels(t1.second_traversal@), cell_labels(t2.second_traversal@)),
        ) <= r,
        r <= k ==> max_int(
            struct_distance(t1.first_traversal@, t2.first_traversal@, k as int),
            struct_distance(t1.second_traversal@, t2.second_traversal@, k as int),
        ) <= r,
        !(t1.tree_size as int - t2.tree_size as int > k || t2.tree_size as int - t1.tree_size as int > k)
            ==> r as int == bounded_struct_value(
            t1.first_traversal@,
            t2.first_traversal@,
            t1.second_traversal@,
            t2.second_traversal@,
            k as int,
        ),
        t1.first_traversal@ == t2.first_traversal@ && t1.second_traversal@ == t2.second_traversal@ ==> r == 0,
{
    proof {
        lemma_struct_prefix_symmetric(t1.first_traversal@, t2.first_traversal@, k as int, t1.first_traversal@.len() as int, t2.first_traversal@.len() as int);
        lemma_struct_prefix_symmetric(t1.second_traversal@, t2.second_traversal@, k as int, t1.second_traversal@.len() as int, t2.second_traversal@.len() as int);
    }
    proof {
        lemma_edit_distance_symmetric(cell_labels(t1.first_traversal@), cell_labels(t2.first_traversal@));
        lemma_edit_distance_symmetric(cell_labels(t1.second_traversal@), cell_labels(t2.second_traversal@));
    }
    let diff = if t1.tree_size > t2.tree_size {
        t1.tree_size - t2.tree_size
    } else {
        t2.tree_size - t1.tree_size
    };
    if diff > k {
        return k + 1;
    }
    let (a, b) = if t1.first_traversal.len() > t2.first_traversal.len() {
        (t2, t1)
    } else {
        (t1, t2)
    };
    let first_dist = bounded_string_edit_distance_with_structure(
        a.first_traversal.as_slice(),
        b.first_traversal.as_slice(),
        k,
    );
    if first_dist > k {
        proof {
            if t1.first_traversal@.len() > t2.first_traversal@.len() {
                assert(a == t2 && b == t1);
            } else {
                assert(a == t1 && b == t2);
            }
        }
        return k + 1;
    }
    let second_dist = bounded_string_edit_distance_with_structure(
        a.second_traversal.as_slice(),
        b.second_traversal.as_slice(),
        k,
    );
    proof {
        if t1.first_traversal@.len() > t2.first_traversal@.len() {
            assert(a == t2 && b == t1);
        } else {
            assert(a == t1 && b == t2);
        }
    }
    if second_dist > k {
        return k + 1;
    }
    if first_dist >= second_dist {
        first_dist
    } else {
        second_dist
    }
}

/// Bounded plain SED over label ids, as `bounded_sed_opt`.
pub fn bounded_sed_opt_int(t1: &SEDIndexInt, t2: &SEDIndexInt, k: usize) -> (r: usize)
    requires
        t1.wf(),
        t2.wf(),
        k < usize::MAX,
    ensures
        r <= k + 1,
        (t1.tree_size as int - t2.tree_size as int > k || t2.tree_size as int - t1.tree_size as int > k)
            ==> r == k + 1,
        r <= k ==> max_int(edit_distance(t1.preorder@, t2.preorder@), edit_distance(t1.postorder@, t2.postorder@)) <= r,
        (k as u64) <= 0x7fff_ffff_ffff_ffffu64 ==> r as int == ({
            let sed = max_int(edit_distance(t1.preorder@, t2.preorder@), edit_distance(t1.postorder@, t2.postorder@));
            if sed <= k {
                sed
            } else {
                k + 1
            }
        }),
{
    proof {
        lemma_edit_distance_symmetric(t1.preorder@, t2.preorder@);
        lemma_edit_distance_symmetric(t1.postorder@, t2.postorder@);
        crate::edit_distance::lemma_ed_prefix_bounds(t1.preorder@, t2.preorder@, t1.preorder@.len() as int, t2.preorder@.len() as int);
        crate::edit_distance::lemma_ed_prefix_bounds(t1.postorder@, t2.postorder@, t1.postorder@.len() as int, t2.postorder@.len() as int);
    }
    let diff = if t1.tree_size > t2.tree_size {
        t1.tree_size - t2.tree_size
    } else {
        t2.tree_size - t1.tree_size
    };
    if diff > k {
        return k + 1;
    }
    let (a, b) = if t1.preorder.len() > t2.preorder.len() {
        (t2, t1)
    } else {
        (t1, t2)
    };
    let pre_dist = bounded_string_edit_distance_opt(a.preorder.as_slice(), b.preorder.as_slice(), k);
    if pre_dist > k {
        return k + 1;
    }
    let post_dist = bounded_string_edit_distance_opt(a.postorder.as_slice(), b.postorder.as_slice(), k);
    if post_dist > k {
        return k + 1;
    }
    if pre_dist >= post_dist {
        pre_dist
    } else {
        post_dist
    }
}

/// Bounded structural SED over label ids, as `bounded_sed_struct`.
pub fn bounded_sed_struct_int(t1: &SEDStructIndexInt, t2: &SEDStructIndexInt, k: usize) -> (r: usize)
    requires
        t1.wf(),
        t2.wf(),
        k < i32::MAX,
    ensures
        r <= k + 1,
        (t1.tree_size as int - t2.tree_size as int > k || t2.tree_size as int - t1.tree_size as int > k)
            ==> r == k + 1,
        r <= k ==> max_int(
            edit_distance(cell_labels(t1.first_traversal@), cell_labels(t2.first_traversal@)),
            edit_distance(cell_labels(t1.second_traversal@), cell_labels(t2.second_traversal@)),
        ) <= r,
        r <= k ==> max_int(
            struct_distance(t1.first_traversal@, t2.first_traversal@, k as int),
            struct_distance(t1.second_traversal@, t2.second_traversal@, k as int),
        ) <= r,
        !(t1.tree_size as int - t2.tree_size as int > k || t2.tree_size as int - t1.tree_size as int > k)
            ==> r as int == bounded_struct_value(
            t1.first_traversal@,
            t2.first_traversal@,
            t1.second_traversal@,
            t2.second_traversal@,
            k as int,
        ),
        t1.first_traversal@ == t2.first_traversal@ && t1.second_traversal@ == t2.second_traversal@ ==> r == 0,
{
    proof {
        lemma_struct_prefix_symmetric(t1.first_traversal@, t2.first_traversal@, k as int, t1.first_traversal@.len() as int, t2.first_traversal@.len() as int);
        lemma_struct_prefix_symmetric(t1.second_traversal@, t2.second_traversal@, k as int, t1.second_traversal@.len() as int, t2.second_traversal@.len() as int);
    }
    proof {
        lemma_edit_distance_symmetric(cell_labels(t1.first_traversal@), cell_labels(t2.first_traversal@));
        lemma_edit_distance_symmetric(cell_labels(t1.second_traversal@), cell_labels(t2.second_traversal@));
    }
    let diff = if t1.tree_size > t2.tree_size {
        t1.tree_size - t2.tree_size
    } else {
        t2.tree_size - t1.tree_size
    };
    if diff > k {
        return k + 1;
    }
    let (a, b) = if t1.first_traversal.len() > t2.first_traversal.len() {
        (t2, t1)
    } else {
        (t1, t2)
    };
    let first_dist = bounded_string_edit_distance_with_structure(
        a.first_traversal.as_slice(),
        b.first_traversal.as_slice(),
        k,
    );
    if first_dist > k {
        proof {
            if t1.first_traversal@.len() > t2.first_traversal@.len() {
                assert(a == t2 && b == t1);
            } else {
                assert(a == t1 && b == t2);
            }
        }
        return k + 1;
    }
    let second_dist = bounded_string_edit_distance_with_structure(
        a.second_traversal.as_slice(),
        b.second_traversal.as_slice(),
        k,
    );
    proof {
        if t1.first_traversal@.len() > t2.first_traversal@.len() {
            assert(a == t2 && b == t1);
        } else {
            assert(a == t1 && b == t2);
        }
    }
    if second_dist > k {
        return k + 1;
    }
    if first_dist >= second_dist {
        first_dist
    } else {
        second_dist
    }
}

} // verus!
