//! String edit distance (unit-cost Levenshtein distance) over sequences of
//! symbols, and the dynamic programs that compute it.

use vstd::prelude::*;

verus! {

/// Symbols that can be compared for equality, in code and in specifications.
pub trait Symbol: Sized {
    /// Whether two symbols are the same.
    spec fn same(&self, other: &Self) -> bool;

    /// Every symbol is the same as itself.
    proof fn lemma_same_reflexive(a: &Self)
        ensures
            a.same(a),
    ;

    /// Sameness is symmetric.
    proof fn lemma_same_symmetric(a: &Self, b: &Self)
        ensures
            a.same(b) == b.same(a),
    ;

    /// Compares two symbols.
    fn is_same(&self, other: &Self) -> (r: bool)
        ensures
            r == self.same(other),
    ;
}

impl Symbol for String {
    open spec fn same(&self, other: &Self) -> bool {
        self@ == other@
    }

    proof fn lemma_same_reflexive(a: &Self) {
    }

    proof fn lemma_same_symmetric(a: &Self, b: &Self) {
    }

    fn is_same(&self, other: &Self) -> (r: bool) {
        self.eq(other)
    }
}

impl Symbol for i32 {
    open spec fn same(&self, other: &Self) -> bool {
        *self == *other
    }

    proof fn lemma_same_reflexive(a: &Self) {
    }

    proof fn lemma_same_symmetric(a: &Self, b: &Self) {
    }

    fn is_same(&self, other: &Self) -> (r: bool) {
        *self == *other
    }
}

pub open spec fn min_int(a: int, b: int) -> int {
    if a <= b {
        a
    } else {
        b
    }
}

pub open spec fn max_int(a: int, b: int) -> int {
    if a >= b {
        a
    } else {
        b
    }
}

/// Cost of substituting `x` by `y`: 0 for the same symbol, 1 otherwise.
pub open spec fn subst_cost<T: Symbol>(x: T, y: T) -> int {
    if x.same(&y) {
        0
    } else {
        1
    }
}

/// Edit distance between the first `i` symbols of `a` and the first `j`
/// symbols of `b`, with unit-cost insertion, deletion and substitution.
pub open spec fn ed_prefix<T: Symbol>(a: Seq<T>, b: Seq<T>, i: int, j: int) -> int
    decreases i + j,
{
    if i <= 0 {
        if j <= 0 {
            0
        } else {
            j
        }
    } else if j <= 0 {
        i
    } else {
        min_int(
            min_int(ed_prefix(a, b, i - 1, j) + 1, ed_prefix(a, b, i, j - 1) + 1),
            ed_prefix(a, b, i - 1, j - 1) + subst_cost(a[i - 1], b[j - 1]),
        )
    }
}

/// Edit distance between two whole sequences.
pub open spec fn edit_distance<T: Symbol>(a: Seq<T>, b: Seq<T>) -> int {
    ed_prefix(a, b, a.len() as int, b.len() as int)
}

/// The distance of prefixes lies between the difference and the larger of
/// their lengths.
pub proof fn lemma_ed_prefix_bounds<T: Symbol>(a: Seq<T>, b: Seq<T>, i: int, j: int)
    requires
        0 <= i,
        0 <= j,
    ensures
        ed_prefix(a, b, i, j) <= max_int(i, j),
        ed_prefix(a, b, i, j) >= i - j,
        ed_prefix(a, b, i, j) >= j - i,
        ed_prefix(a, b, i, j) >= 0,
    decreases i + j,
{
    if i > 0 && j > 0 {
        lemma_ed_prefix_bounds(a, b, i - 1, j);
        lemma_ed_prefix_bounds(a, b, i, j - 1);
        lemma_ed_prefix_bounds(a, b, i - 1, j - 1);
    }
}

/// Edit distance is symmetric.
pub proof fn lemma_ed_prefix_symmetric<T: Symbol>(a: Seq<T>, b: Seq<T>, i: int, j: int)
    requires
        0 <= i,
        0 <= j,
    ensures
        ed_prefix(a, b, i, j) == ed_prefix(b, a, j, i),
    decreases i + j,
{
    if i > 0 && j > 0 {
        lemma_ed_prefix_symmetric(a, b, i - 1, j);
        lemma_ed_prefix_symmetric(a, b, i, j - 1);
        lemma_ed_prefix_symmetric(a, b, i - 1, j - 1);
        T::lemma_same_symmetric(&a[i - 1], &b[j - 1]);
    }
}

/// The edit distance of two sequences does not depend on their order.
pub proof fn lemma_edit_distance_symmetric<T: Symbol>(a: Seq<T>, b: Seq<T>)
    ensures
        edit_distance(a, b) == edit_distance(b, a),
{
    lemma_ed_prefix_symmetric(a, b, a.len() as int, b.len() as int);
}

/// The distance of prefixes depends only on the symbols in those prefixes.
pub proof fn lemma_ed_prefix_congr<T: Symbol>(a: Seq<T>, b: Seq<T>, a2: Seq<T>, b2: Seq<T>, i: int, j: int)
    requires
        0 <= i <= a.len(),
        i <= a2.len(),
        0 <= j <= b.len(),
        j <= b2.len(),
        forall|k: int| 0 <= k < i ==> a[k] == a2[k],
        forall|k: int| 0 <= k < j ==> b[k] == b2[k],
    ensures
        ed_prefix(a, b, i, j) == ed_prefix(a2, b2, i, j),
    decreases i + j,
{
    if i > 0 && j > 0 {
        lemma_ed_prefix_congr(a, b, a2, b2, i - 1, j);
        lemma_ed_prefix_congr(a, b, a2, b2, i, j - 1);
        lemma_ed_prefix_congr(a, b, a2, b2, i - 1, j - 1);
        assert(a[i - 1] == a2[i - 1]);
        assert(b[j - 1] == b2[j - 1]);
    }
}

/// The distance of whole sequences, unfolded once at their last symbols.
pub proof fn lemma_ed_unfold<T: Symbol>(x: Seq<T>, y: Seq<T>)
    ensures
        x.len() == 0 ==> edit_distance(x, y) == y.len(),
        y.len() == 0 ==> edit_distance(x, y) == x.len(),
        x.len() > 0 ==> edit_distance(x, y) <= edit_distance(x.drop_last(), y) + 1,
        y.len() > 0 ==> edit_distance(x, y) <= edit_distance(x, y.drop_last()) + 1,
        x.len() > 0 && y.len() > 0 ==> edit_distance(x, y) <= edit_distance(x.drop_last(), y.drop_last())
            + subst_cost(x.last(), y.last()),
        x.len() > 0 && y.len() > 0 ==> edit_distance(x, y) == min_int(
            min_int(edit_distance(x.drop_last(), y) + 1, edit_distance(x, y.drop_last()) + 1),
            edit_distance(x.drop_last(), y.drop_last()) + subst_cost(x.last(), y.last()),
        ),
{
    let i = x.len() as int;
    let j = y.len() as int;
    if i > 0 {
        lemma_ed_prefix_congr(x, y, x.drop_last(), y, i - 1, j);
    }
    if j > 0 {
        lemma_ed_prefix_congr(x, y, x, y.drop_last(), i, j - 1);
    }
    if i > 0 && j > 0 {
        lemma_ed_prefix_congr(x, y, x.drop_last(), y.drop_last(), i - 1, j - 1);
    }
}

/// Editing two halves separately edits their concatenation.
pub proof fn lemma_ed_concat<T: Symbol>(x1: Seq<T>, x2: Seq<T>, y1: Seq<T>, y2: Seq<T>)
    ensures
        edit_distance(x1 + x2, y1 + y2) <= edit_distance(x1, y1) + edit_distance(x2, y2),
    decreases x2.len() + y2.len(),
{
    lemma_ed_unfold(x2, y2);
    lemma_ed_unfold(x1 + x2, y1 + y2);
    if x2.len() == 0 && y2.len() == 0 {
        assert(x1 + x2 =~= x1);
        assert(y1 + y2 =~= y1);
    } else if x2.len() == 0 {
        assert((y1 + y2).drop_last() =~= y1 + y2.drop_last());
        lemma_ed_concat(x1, x2, y1, y2.drop_last());
        lemma_ed_unfold(x2, y2.drop_last());
    } else if y2.len() == 0 {
        assert((x1 + x2).drop_last() =~= x1 + x2.drop_last());
        lemma_ed_concat(x1, x2.drop_last(), y1, y2);
        lemma_ed_unfold(x2.drop_last(), y2);
    } else {
        assert((x1 + x2).drop_last() =~= x1 + x2.drop_last());
        assert((y1 + y2).drop_last() =~= y1 + y2.drop_last());
        assert((x1 + x2).last() == x2.last());
        assert((y1 + y2).last() == y2.last());
        lemma_ed_concat(x1, x2.drop_last(), y1, y2);
        lemma_ed_concat(x1, x2, y1, y2.drop_last());
        lemma_ed_concat(x1, x2.drop_last(), y1, y2.drop_last());
    }
}

/// An optimal edit of a concatenation splits the target into two parts, one
/// for each half.
pub proof fn lemma_ed_split<T: Symbol>(x1: Seq<T>, x2: Seq<T>, y: Seq<T>) -> (j: int)
    ensures
        0 <= j <= y.len(),
        edit_distance(x1 + x2, y) >= edit_distance(x1, y.subrange(0, j)) + edit_distance(x2, y.subrange(j, y.len() as int)),
    decreases x2.len() + y.len(),
{
    let ly = y.len() as int;
    lemma_ed_unfold(x1 + x2, y);
    if x2.len() == 0 {
        assert(x1 + x2 =~= x1);
        assert(y.subrange(0, ly) =~= y);
        lemma_ed_unfold(x2, y.subrange(ly, ly));
        ly
    } else if ly == 0 {
        lemma_ed_unfold(x1, y.subrange(0, 0));
        lemma_ed_unfold(x2, y.subrange(0, 0));
        0
    } else {
        let x2p = x2.drop_last();
        let yp = y.drop_last();
        assert((x1 + x2).drop_last() =~= x1 + x2p);
        assert((x1 + x2).last() == x2.last());
        let del = edit_distance(x1 + x2p, y) + 1;
        let ins = edit_distance(x1 + x2, yp) + 1;
        if edit_distance(x1 + x2, y) == del {
            let j = lemma_ed_split(x1, x2p, y);
            lemma_ed_unfold(x2, y.subrange(j, ly));
            j
        } else if edit_distance(x1 + x2, y) == ins {
            let j = lemma_ed_split(x1, x2, yp);
            assert(yp.subrange(0, j) =~= y.subrange(0, j));
            assert(yp.subrange(j, ly - 1) =~= y.subrange(j, ly).drop_last());
            lemma_ed_unfold(x2, y.subrange(j, ly));
            j
        } else {
            let j = lemma_ed_split(x1, x2p, yp);
            assert(yp.subrange(0, j) =~= y.subrange(0, j));
            assert(yp.subrange(j, ly - 1) =~= y.subrange(j, ly).drop_last());
            assert(y.subrange(j, ly).last() == y.last());
            lemma_ed_unfold(x2, y.subrange(j, ly));
            j
        }
    }
}

/// One more symbol anywhere in the source costs at most one more edit.
pub proof fn lemma_ed_insert_mid<T: Symbol>(x1: Seq<T>, e: T, x2: Seq<T>, y: Seq<T>)
    ensures
        edit_distance(x1 + seq![e] + x2, y) <= edit_distance(x1 + x2, y) + 1,
{
    let ly = y.len() as int;
    let j = lemma_ed_split(x1, x2, y);
    let y1 = y.subrange(0, j);
    let y2 = y.subrange(j, ly);
    assert(y =~= y1 + y2);
    lemma_ed_concat(x1 + seq![e], x2, y1, y2);
    assert((x1 + seq![e]).drop_last() =~= x1);
    lemma_ed_unfold(x1 + seq![e], y1);
}

/// Label sequences with the same texts are at the same distances.
pub proof fn lemma_ed_prefix_texts(a: Seq<String>, b: Seq<String>, a2: Seq<String>, b2: Seq<String>, i: int, j: int)
    requires
        0 <= i <= a.len(),
        i <= a2.len(),
        0 <= j <= b.len(),
        j <= b2.len(),
        forall|k: int| 0 <= k < i ==> a[k]@ == a2[k]@,
        forall|k: int| 0 <= k < j ==> b[k]@ == b2[k]@,
    ensures
        ed_prefix(a, b, i, j) == ed_prefix(a2, b2, i, j),
    decreases i + j,
{
    if i > 0 && j > 0 {
        lemma_ed_prefix_texts(a, b, a2, b2, i - 1, j);
        lemma_ed_prefix_texts(a, b, a2, b2, i, j - 1);
        lemma_ed_prefix_texts(a, b, a2, b2, i - 1, j - 1);
        assert(a[i - 1]@ == a2[i - 1]@);
        assert(b[j - 1]@ == b2[j - 1]@);
    }
}

/// Whole label sequences with the same texts are at the same distance.
pub proof fn lemma_ed_texts(a: Seq<String>, b: Seq<String>, a2: Seq<String>, b2: Seq<String>)
    requires
        a.len() == a2.len(),
        b.len() == b2.len(),
        forall|k: int| 0 <= k < a.len() ==> #[trigger] a[k]@ == a2[k]@,
        forall|k: int| 0 <= k < b.len() ==> #[trigger] b[k]@ == b2[k]@,
    ensures
        edit_distance(a, b) == edit_distance(a2, b2),
{
    lemma_ed_prefix_texts(a, b, a2, b2, a.len() as int, b.len() as int);
}

/// Exact edit distance by the row-by-row dynamic program, keeping one row.
pub fn string_edit_distance<T: Symbol>(s1: &[T], s2: &[T]) -> (r: usize)
    requires
        s1@.len() < usize::MAX,
        s2@.len() < usize::MAX,
    ensures
        r as int == edit_distance(s1@, s2@),
{
    let s2len = s2.len();
    let s1len = s1.len();
    let mut cache: Vec<usize> = Vec::new();
    let mut j: usize = 0;
    while j < s2len
        invariant
            j <= s2len,
            s2len == s2@.len(),
            cache@.len() == j,
            forall|q: int| 0 <= q < j ==> #[trigger] cache@[q] as int == ed_prefix(s1@, s2@, 0, q + 1),
        decreases s2len - j,
    {
        cache.push(j + 1);
        j = j + 1;
    }
    let mut result: usize = s2len;
    let mut i: usize = 0;
    while i < s1len
        invariant
            i <= s1len,
            s1len == s1@.len(),
            s2len == s2@.len(),
            s1len < usize::MAX,
            s2len < usize::MAX,
            cache@.len() == s2len,
            result as int == ed_prefix(s1@, s2@, i as int, s2len as int),
            forall|q: int| 0 <= q < s2len ==> #[trigger] cache@[q] as int == ed_prefix(s1@, s2@, i as int, q + 1),
        decreases s1len - i,
    {
        result = i + 1;
        let mut dist_b: usize = i;
        let mut j: usize = 0;
        while j < s2len
            invariant
                i < s1len,
                j <= s2len,
                s1len == s1@.len(),
                s2len == s2@.len(),
                s1len < usize::MAX,
                s2len < usize::MAX,
                cache@.len() == s2len,
                result as int == ed_prefix(s1@, s2@, i + 1, j as int),
                dist_b as int == ed_prefix(s1@, s2@, i as int, j as int),
                forall|q: int| 0 <= q < j ==> #[trigger] cache@[q] as int == ed_prefix(s1@, s2@, i + 1, q + 1),
                forall|q: int| j <= q < s2len ==> #[trigger] cache@[q] as int == ed_prefix(s1@, s2@, i as int, q + 1),
            decreases s2len - j,
        {
            proof {
                lemma_ed_prefix_bounds(s1@, s2@, i as int, j as int);
                lemma_ed_prefix_bounds(s1@, s2@, i as int, j + 1);
                lemma_ed_prefix_bounds(s1@, s2@, i + 1, j as int);
            }
            let cost: usize = if s1[i].is_same(&s2[j]) { 0 } else { 1 };
            let dist_a = dist_b + cost;
            dist_b = cache[j];
            let via_insert = result + 1;
            let via_delete = dist_b + 1;
            let best = if dist_a < via_delete { dist_a } else { via_delete };
            result = if via_insert < best { via_insert } else { best };
            cache.set(j, result);
            j = j + 1;
        }
        i = i + 1;
    }
    result
}


/// A diagonal-transition cell: value `v` on diagonal `q` (the point
/// `(v, v + q)`, clamped to the ends of the sequences) is reached within `e`
/// edits; -1 marks a cell not reached yet.
pub open spec fn reached<T: Symbol>(a: Seq<T>, b: Seq<T>, v: int, q: int, e: int) -> bool {
    v == -1 || (v >= 0 && ed_prefix(a, b, min_int(v, a.len() as int), min_int(v + q, b.len() as int)) <= e)
}

/// One more symbol of each sequence costs at most one more edit.
pub proof fn lemma_reach_sub<T: Symbol>(a: Seq<T>, b: Seq<T>, v: int, q: int, e: int)
    requires
        v >= 0,
        reached(a, b, v, q, e),
    ensures
        reached(a, b, v + 1, q, e + 1),
{
    let la = a.len() as int;
    let lb = b.len() as int;
    let x = min_int(v, la);
    let y = min_int(v + q, lb);
    let x1 = min_int(v + 1, la);
    let y1 = min_int(v + 1 + q, lb);
    if y < 0 {
        assert(ed_prefix(a, b, x, y) == (if x <= 0 { 0 } else { x }));
    } else if v < la && v + q < lb {
        assert(x1 == x + 1 && y1 == y + 1);
    } else if v < la {
        assert(y1 == y && x1 == x + 1);
        if y > 0 {
            assert(ed_prefix(a, b, x1, y) <= ed_prefix(a, b, x, y) + 1);
        }
    } else if v + q < lb {
        assert(x1 == x && y1 == y + 1);
        if x > 0 {
            assert(ed_prefix(a, b, x, y1) <= ed_prefix(a, b, x, y) + 1);
        }
    }
}

/// One more symbol of the first sequence costs at most one more edit.
pub proof fn lemma_reach_del<T: Symbol>(a: Seq<T>, b: Seq<T>, v: int, q: int, e: int)
    requires
        v >= 0,
        reached(a, b, v, q + 1, e),
    ensures
        reached(a, b, v + 1, q, e + 1),
{
    let la = a.len() as int;
    let lb = b.len() as int;
    let x = min_int(v, la);
    let y = min_int(v + q + 1, lb);
    let x1 = min_int(v + 1, la);
    assert(min_int(v + 1 + q, lb) == y);
    if v < la {
        assert(x1 == x + 1);
        if y > 0 {
            assert(ed_prefix(a, b, x1, y) <= ed_prefix(a, b, x, y) + 1);
        }
    }
}

/// One more symbol of the second sequence costs at most one more edit.
pub proof fn lemma_reach_ins<T: Symbol>(a: Seq<T>, b: Seq<T>, v: int, q: int, e: int)
    requires
        v >= 0,
        reached(a, b, v, q - 1, e),
    ensures
        reached(a, b, v, q, e + 1),
{
    let la = a.len() as int;
    let lb = b.len() as int;
    let x = min_int(v, la);
    let y = min_int(v + q - 1, lb);
    let y1 = min_int(v + q, lb);
    if v + q - 1 < lb {
        assert(y1 == y + 1);
        if y >= 0 && x > 0 {
            assert(ed_prefix(a, b, x, y1) <= ed_prefix(a, b, x, y) + 1);
        }
    }
}

/// A matching pair of symbols costs nothing.
pub proof fn lemma_reach_slide<T: Symbol>(a: Seq<T>, b: Seq<T>, v: int, q: int, e: int)
    requires
        0 <= v < a.len(),
        0 <= v + q < b.len(),
        a[v].same(&b[v + q]),
        reached(a, b, v, q, e),
    ensures
        reached(a, b, v + 1, q, e),
{
    assert(min_int(v + 1, a.len() as int) == v + 1);
    assert(min_int(v + 1 + q, b.len() as int) == v + q + 1);
    assert(subst_cost(a[v], b[v + q]) == 0);
}

/// The start of a diagonal within `e` of the main one is reached within `e`
/// edits.
pub proof fn lemma_reach_start<T: Symbol>(a: Seq<T>, b: Seq<T>, q: int, e: int)
    requires
        -e <= q <= e,
    ensures
        reached(a, b, 0, q, e),
{
}

/// A cell reached within `e` edits is reached within any larger budget.
pub proof fn lemma_reach_mono<T: Symbol>(a: Seq<T>, b: Seq<T>, v: int, q: int, e: int, f: int)
    requires
        e <= f,
        reached(a, b, v, q, e),
    ensures
        reached(a, b, v, q, f),
{
}

/// The point `(x, x + q)` lies within both sequences, is within `e` edits,
/// and the diagonal `q` is close enough to the last diagonal `d` for the
/// budget `thr`: `e + |d - q| <= thr`.
pub open spec fn good_pt<T: Symbol>(a: Seq<T>, b: Seq<T>, e: int, x: int, q: int, d: int, thr: int) -> bool {
    &&& 0 <= x <= a.len()
    &&& 0 <= x + q <= b.len()
    &&& ed_prefix(a, b, x, x + q) <= e
    &&& e + (if d >= q { d - q } else { q - d }) <= thr
}

/// Value `v` on diagonal `q` is at least every good point of the diagonal.
pub open spec fn covers<T: Symbol>(a: Seq<T>, b: Seq<T>, e: int, q: int, d: int, thr: int, v: int) -> bool {
    forall|x: int| #[trigger] good_pt(a, b, e, x, q, d, thr) ==> v >= x
}

/// Every cell of a row, on the diagonals `lo..hi`, is at least every good
/// point of its diagonal; cell `z + q` holds diagonal `q`.
pub open spec fn row_covers<T: Symbol>(a: Seq<T>, b: Seq<T>, e: int, d: int, thr: int, row: Seq<i64>, z: int, lo: int, hi: int) -> bool {
    forall|x: int, q: int| lo <= q < hi && #[trigger] good_pt(a, b, e, x, q, d, thr) ==> row[z + q] >= x
}

/// A good point lies on a diagonal the round `e + 1` of the narrowed program
/// computes.
pub proof fn lemma_good_in_band<T: Symbol>(
    a: Seq<T>,
    b: Seq<T>,
    e: int,
    x: int,
    q: int,
    d: int,
    thr: int,
    zero_k: int,
)
    requires
        a.len() <= b.len(),
        d == b.len() - a.len(),
        0 <= d <= thr <= b.len(),
        zero_k == (if a.len() < thr { a.len() as int } else { thr }) / 2 + 2,
        good_pt(a, b, e, x, q, d, thr),
    ensures
        e >= 0,
        2 * zero_k >= thr - d + 3,
        -e <= q <= e,
        q >= (if e + 1 <= zero_k { -e } else { e + 2 - zero_k * 2 }),
        q < (if e + 1 <= d + zero_k { e + 1 } else { (d + zero_k) * 2 - (e + 1) }),
        thr - e <= 0 ==> q == d,
        thr - e > 0 ==> d - (thr - e) <= q <= d + (thr - e),
{
    lemma_ed_prefix_bounds(a, b, x, x + q);
}

/// A cell computed from the three cells of the previous round covers every
/// good point of its diagonal, once its run of matches cannot be extended:
/// `em`, `qm` and `qp` stand for `e - 1`, `q - 1` and `q + 1`.
pub proof fn lemma_cell_covers<T: Symbol>(
    a: Seq<T>,
    b: Seq<T>,
    e: int,
    em: int,
    q: int,
    qm: int,
    qp: int,
    d: int,
    thr: int,
    prev: int,
    cur: int,
    next: int,
    t: int,
)
    requires
        em == e - 1,
        qm == q - 1,
        qp == q + 1,
        forall|x: int| #[trigger] good_pt(a, b, em, x, qm, d, thr) ==> prev >= x,
        forall|x: int| #[trigger] good_pt(a, b, em, x, q, d, thr) ==> cur >= x,
        forall|x: int| #[trigger] good_pt(a, b, em, x, qp, d, thr) ==> next >= x,
        t >= 0,
        t >= prev,
        t >= cur + 1,
        t >= next + 1,
        (0 <= t < a.len() && 0 <= t + q < b.len()) ==> !a[t].same(&b[t + q]),
    ensures
        forall|x: int| #[trigger] good_pt(a, b, e, x, q, d, thr) ==> t >= x,
{
    assert forall|x: int| #[trigger] good_pt(a, b, e, x, q, d, thr) implies t >= x by {
        lemma_cell_covers_point(a, b, e, em, q, qm, qp, d, thr, prev, cur, next, t, x);
    }
}

proof fn lemma_cell_covers_point<T: Symbol>(
    a: Seq<T>,
    b: Seq<T>,
    e: int,
    em: int,
    q: int,
    qm: int,
    qp: int,
    d: int,
    thr: int,
    prev: int,
    cur: int,
    next: int,
    t: int,
    x: int,
)
    requires
        em == e - 1,
        qm == q - 1,
        qp == q + 1,
        forall|z: int| #[trigger] good_pt(a, b, em, z, qm, d, thr) ==> prev >= z,
        forall|z: int| #[trigger] good_pt(a, b, em, z, q, d, thr) ==> cur >= z,
        forall|z: int| #[trigger] good_pt(a, b, em, z, qp, d, thr) ==> next >= z,
        t >= 0,
        t >= prev,
        t >= cur + 1,
        t >= next + 1,
        (0 <= t < a.len() && 0 <= t + q < b.len()) ==> !a[t].same(&b[t + q]),
        good_pt(a, b, e, x, q, d, thr),
    ensures
        t >= x,
    decreases x,
{
    let y = x + q;
    if x > 0 {
        if y == 0 {
            assert(ed_prefix(a, b, x - 1, 0) == x - 1);
            assert(good_pt(a, b, em, x - 1, qp, d, thr));
        } else {
            let del = ed_prefix(a, b, x - 1, y) + 1;
            let ins = ed_prefix(a, b, x, y - 1) + 1;
            let sub = ed_prefix(a, b, x - 1, y - 1) + subst_cost(a[x - 1], b[y - 1]);
            assert(ed_prefix(a, b, x, y) == min_int(min_int(del, ins), sub));
            if del <= e {
                assert(good_pt(a, b, em, x - 1, qp, d, thr));
            } else if ins <= e {
                assert(good_pt(a, b, em, x, qm, d, thr));
            } else if subst_cost(a[x - 1], b[y - 1]) == 1 {
                assert(good_pt(a, b, em, x - 1, q, d, thr));
            } else {
                assert(good_pt(a, b, e, x - 1, q, d, thr));
                lemma_cell_covers_point(a, b, e, em, q, qm, qp, d, thr, prev, cur, next, t, x - 1);
                if t == x - 1 {
                    assert(a[x - 1].same(&b[y - 1]));
                }
            }
        }
    }
}

/// Dropping the last symbol of the second sequence saves at most one edit.
pub proof fn lemma_ed_adjacent_col<T: Symbol>(a: Seq<T>, b: Seq<T>, x: int, y: int)
    requires
        0 <= x,
        0 <= y,
    ensures
        ed_prefix(a, b, x, y) <= ed_prefix(a, b, x, y + 1) + 1,
    decreases x,
{
    if x > 0 {
        lemma_ed_adjacent_col(a, b, x - 1, y);
    }
}

/// Dropping the last symbol of the first sequence saves at most one edit.
pub proof fn lemma_ed_adjacent_row<T: Symbol>(a: Seq<T>, b: Seq<T>, x: int, y: int)
    requires
        0 <= x,
        0 <= y,
    ensures
        ed_prefix(a, b, x, y) <= ed_prefix(a, b, x + 1, y) + 1,
    decreases y,
{
    if y > 0 {
        lemma_ed_adjacent_row(a, b, x, y - 1);
    }
}

/// A matching last pair costs nothing: the distance equals that without it.
pub proof fn lemma_ed_match_last<T: Symbol>(a: Seq<T>, b: Seq<T>, x: int, y: int)
    requires
        0 <= x < a.len(),
        0 <= y < b.len(),
        a[x].same(&b[y]),
    ensures
        ed_prefix(a, b, x + 1, y + 1) == ed_prefix(a, b, x, y),
{
    lemma_ed_adjacent_col(a, b, x, y);
    lemma_ed_adjacent_row(a, b, x, y);
    assert(subst_cost(a[x], b[y]) == 0);
}

/// A run of `m` matching pairs after `(x, y)` costs nothing, exactly.
pub proof fn lemma_ed_matching_run_eq<T: Symbol>(a: Seq<T>, b: Seq<T>, x: int, y: int, m: int)
    requires
        0 <= x,
        0 <= y,
        0 <= m,
        x + m <= a.len(),
        y + m <= b.len(),
        forall|d: int| 0 <= d < m ==> #[trigger] a[x + d].same(&b[y + d]),
    ensures
        ed_prefix(a, b, x + m, y + m) == ed_prefix(a, b, x, y),
    decreases m,
{
    if m > 0 {
        lemma_ed_matching_run_eq(a, b, x, y, m - 1);
        assert(a[x + (m - 1)].same(&b[y + (m - 1)]));
        lemma_ed_match_last(a, b, x + m - 1, y + m - 1);
    }
}

/// With a common prefix of length `c`, the distance of prefixes is that of
/// the parts after the common prefix.
pub proof fn lemma_ed_common_prefix_eq<T: Symbol>(s1: Seq<T>, s2: Seq<T>, c: int, a: Seq<T>, b: Seq<T>, i: int, j: int)
    requires
        0 <= c,
        c + a.len() <= s1.len(),
        c + b.len() <= s2.len(),
        forall|d: int| 0 <= d < a.len() ==> #[trigger] a[d] == s1[c + d],
        forall|d: int| 0 <= d < b.len() ==> #[trigger] b[d] == s2[c + d],
        forall|d: int| 0 <= d < c ==> #[trigger] s1[d].same(&s2[d]),
        0 <= i <= a.len(),
        0 <= j <= b.len(),
    ensures
        ed_prefix(s1, s2, c + i, c + j) == ed_prefix(a, b, i, j),
    decreases i + j,
{
    lemma_ed_common_prefix(s1, s2, c, a, b, i, j);
    if i == 0 || j == 0 {
        lemma_ed_prefix_bounds(s1, s2, c + i, c + j);
    } else {
        lemma_ed_common_prefix_eq(s1, s2, c, a, b, i - 1, j);
        lemma_ed_common_prefix_eq(s1, s2, c, a, b, i, j - 1);
        lemma_ed_common_prefix_eq(s1, s2, c, a, b, i - 1, j - 1);
        assert(a[i - 1] == s1[c + i - 1]);
        assert(b[j - 1] == s2[c + j - 1]);
    }
}

/// Inserting `j` more symbols costs at most `j` more edits.
pub proof fn lemma_ed_insertions<T: Symbol>(a: Seq<T>, b: Seq<T>, x: int, y: int, j: int)
    requires
        0 <= x,
        0 <= y,
        0 <= j,
    ensures
        ed_prefix(a, b, x, y + j) <= ed_prefix(a, b, x, y) + j,
    decreases j,
{
    if j > 0 {
        lemma_ed_insertions(a, b, x, y, j - 1);
    }
}

/// Deleting `i` more symbols costs at most `i` more edits.
pub proof fn lemma_ed_deletions<T: Symbol>(a: Seq<T>, b: Seq<T>, x: int, y: int, i: int)
    requires
        0 <= x,
        0 <= y,
        0 <= i,
    ensures
        ed_prefix(a, b, x + i, y) <= ed_prefix(a, b, x, y) + i,
    decreases i,
{
    if i > 0 {
        lemma_ed_deletions(a, b, x, y, i - 1);
    }
}

/// A run of `m` matching pairs after `(x, y)` costs nothing.
pub proof fn lemma_ed_matching_run<T: Symbol>(a: Seq<T>, b: Seq<T>, x: int, y: int, m: int)
    requires
        0 <= x,
        0 <= y,
        0 <= m,
        x + m <= a.len(),
        y + m <= b.len(),
        forall|d: int| 0 <= d < m ==> #[trigger] a[x + d].same(&b[y + d]),
    ensures
        ed_prefix(a, b, x + m, y + m) <= ed_prefix(a, b, x, y),
    decreases m,
{
    if m > 0 {
        lemma_ed_matching_run(a, b, x, y, m - 1);
        assert(a[x + (m - 1)].same(&b[y + (m - 1)]));
        assert(subst_cost(a[x + m - 1], b[y + m - 1]) == 0);
    }
}

/// With a common prefix of length `c`, the distance of prefixes is at most
/// that of the parts after the common prefix.
pub proof fn lemma_ed_common_prefix<T: Symbol>(s1: Seq<T>, s2: Seq<T>, c: int, a: Seq<T>, b: Seq<T>, i: int, j: int)
    requires
        0 <= c,
        c + a.len() <= s1.len(),
        c + b.len() <= s2.len(),
        forall|d: int| 0 <= d < a.len() ==> #[trigger] a[d] == s1[c + d],
        forall|d: int| 0 <= d < b.len() ==> #[trigger] b[d] == s2[c + d],
        forall|d: int| 0 <= d < c ==> #[trigger] s1[d].same(&s2[d]),
        0 <= i <= a.len(),
        0 <= j <= b.len(),
    ensures
        ed_prefix(s1, s2, c + i, c + j) <= ed_prefix(a, b, i, j),
    decreases i + j,
{
    if i == 0 {
        assert forall|d: int| 0 <= d < c implies #[trigger] s1[0 + d].same(&s2[0 + d]) by {
            assert(s1[d].same(&s2[d]));
        }
        lemma_ed_matching_run(s1, s2, 0, 0, c);
        lemma_ed_insertions(s1, s2, c, c, j);
    } else if j == 0 {
        assert forall|d: int| 0 <= d < c implies #[trigger] s1[0 + d].same(&s2[0 + d]) by {
            assert(s1[d].same(&s2[d]));
        }
        lemma_ed_matching_run(s1, s2, 0, 0, c);
        lemma_ed_deletions(s1, s2, c, c, i);
    } else {
        lemma_ed_common_prefix(s1, s2, c, a, b, i - 1, j);
        lemma_ed_common_prefix(s1, s2, c, a, b, i, j - 1);
        lemma_ed_common_prefix(s1, s2, c, a, b, i - 1, j - 1);
        assert(a[i - 1] == s1[c + i - 1]);
        assert(b[j - 1] == s2[c + j - 1]);
    }
}

/// Largest sequence length (and tree size) the distance programs accept: with
/// it the `i32` diagonal-transition rows, of length `2 * threshold + 3`, and
/// their diagonal offsets stay inside `i32`.
pub const MAX_SEQ_LEN: usize = 0x3fff_fffe;

/// Largest value of a diagonal-transition row after `i` rounds.
pub open spec fn row_cap(s1len: int, i: int) -> int {
    s1len + i + 1
}

/// Diagonal-transition (Berghel-Roach) bounded edit distance, with the band of
/// diagonals narrowed to those still reachable within the remaining budget.
///
/// Returns the number of edits `e <= min(|s2|, k)` after which the last
/// diagonal reaches the end of the shorter sequence, or `usize::MAX` when no
/// such round exists within the budget (also when the lengths differ by more
/// than the budget).
#[verifier::spinoff_prover]
#[verifier::rlimit(80)]
pub fn bounded_string_edit_distance_opt<T: Symbol>(s1: &[T], s2: &[T], k: usize) -> (r: usize)
    requires
        s1@.len() <= MAX_SEQ_LEN,
        s2@.len() <= MAX_SEQ_LEN,
    ensures
        r == usize::MAX || r as int <= k,
        r == usize::MAX || r as int <= max_int(s1@.len() as int, s2@.len() as int),
        (s1@.len() as int - s2@.len() as int > k as int || s2@.len() as int - s1@.len() as int > k as int)
            ==> r == usize::MAX,
        r != usize::MAX ==> edit_distance(s1@, s2@) <= r,
        r as int == (if edit_distance(s1@, s2@) <= k && (k as u64) <= 0x7fff_ffff_ffff_ffffu64 {
            edit_distance(s1@, s2@)
        } else {
            usize::MAX as int
        }),
{
    let ghost (l1, l2) = (s1@.len() as int, s2@.len() as int);
    let (a, b) = if s1.len() <= s2.len() {
        (s1, s2)
    } else {
        (s2, s1)
    };
    proof {
        lemma_edit_distance_symmetric(s1@, s2@);
    }
    assert(edit_distance(a@, b@) == edit_distance(s1@, s2@));
    let s1len = a.len() as i64;
    let s2len = b.len() as i64;
    assert(s2len == max_int(l1, l2));
    assert(s1len + s2len == l1 + l2);
    // A budget beyond `i64` behaves as a negative one: nothing is within it.
    let kk: i64 = if k <= MAX_SEQ_LEN { k as i64 } else if (k as u64) <= 0x7fff_ffff_ffff_ffffu64 { MAX_SEQ_LEN as i64 + 1 } else { -1 };
    let threshold = if s2len < kk { s2len } else { kk };
    let size_diff = s2len - s1len;
    proof {
        lemma_ed_prefix_bounds(a@, b@, s1len as int, s2len as int);
    }
    if size_diff > threshold {
        return usize::MAX;
    }
    let zero_k: i64 = ((if s1len < threshold { s1len } else { threshold }) / 2) + 2;
    let arr_len = size_diff + zero_k * 2 + 2;
    let condition_diag = size_diff + zero_k;
    let end_max = condition_diag * 2;

    let mut current_row: Vec<i64> = Vec::new();
    let mut next_row: Vec<i64> = Vec::new();
    let mut x: i64 = 0;
    while x < arr_len
        invariant
            0 <= x <= arr_len,
            current_row@.len() == x,
            next_row@.len() == x,
            forall|y: int| 0 <= y < x ==> #[trigger] current_row@[y] == -1,
            forall|y: int| 0 <= y < x ==> #[trigger] next_row@[y] == -1,
        decreases arr_len - x,
    {
        current_row.push(-1);
        next_row.push(-1);
        x = x + 1;
    }

    proof {
        assert forall|x: int, y: int|
            -zero_k <= y < arr_len - zero_k && #[trigger] good_pt(a@, b@, -1, x, y, size_diff as int, threshold as int)
                implies next_row@[zero_k + y] >= x by {
            lemma_ed_prefix_bounds(a@, b@, x, x + y);
        }
    }
    let mut i: i64 = 1;
    while i <= threshold + 1
        invariant
            1 <= i <= threshold + 2,
            0 <= s1len <= s2len <= MAX_SEQ_LEN,
            s1len == a@.len(),
            s2len == b@.len(),
            threshold <= s2len,
            0 <= size_diff <= threshold,
            size_diff == s2len - s1len,
            zero_k == (if s1len < threshold { s1len } else { threshold }) / 2 + 2,
            arr_len == size_diff + zero_k * 2 + 2,
            condition_diag == size_diff + zero_k,
            end_max == condition_diag * 2,
            current_row@.len() == arr_len,
            next_row@.len() == arr_len,
            forall|y: int| 0 <= y < arr_len ==> -1 <= #[trigger] current_row@[y] <= row_cap(s1len as int, i - 1),
            forall|y: int| 0 <= y < arr_len ==> -1 <= #[trigger] next_row@[y] <= row_cap(s1len as int, i - 1),
            forall|y: int| 0 <= y < arr_len ==> reached(a@, b@, #[trigger] current_row@[y] as int, y - zero_k, i - 2),
            forall|y: int| 0 <= y < arr_len ==> reached(a@, b@, #[trigger] next_row@[y] as int, y - zero_k, i - 2),
            edit_distance(a@, b@) == edit_distance(s1@, s2@),
            row_covers(a@, b@, i - 2, size_diff as int, threshold as int, next_row@, zero_k as int, -zero_k as int, arr_len - zero_k),
            edit_distance(a@, b@) >= i - 1,
            edit_distance(a@, b@) <= s2len,
            kk as int == (if k <= MAX_SEQ_LEN { k as int } else if (k as u64) <= 0x7fff_ffff_ffff_ffffu64 { MAX_SEQ_LEN as int + 1 } else { -1 }),
            threshold == (if s2len < kk { s2len } else { kk }),
            threshold <= k,
            s2len == max_int(l1, l2),
            s1len + s2len == l1 + l2,
            l1 == s1@.len(),
            l2 == s2@.len(),
        decreases threshold + 2 - i,
    {
        let tmp = current_row;
        current_row = next_row;
        next_row = tmp;

        let original_start: i64 = if i <= zero_k {
            -i + 1
        } else {
            i - zero_k * 2 + 1
        };
        let original_end: i64;
        if i <= condition_diag {
            original_end = i;
            next_row.set((zero_k + i) as usize, -1);
        } else {
            original_end = end_max - i;
        }

        // Only the diagonals still reachable within the remaining edits.
        let budget = threshold - (i - 1);
        let (min_valid_diag, max_valid_diag) = if budget <= 0 {
            (size_diff, size_diff)
        } else {
            (size_diff - budget, size_diff + budget)
        };
        let start = if original_start > min_valid_diag { original_start } else { min_valid_diag };
        let end = if original_end < max_valid_diag + 1 { original_end } else { max_valid_diag + 1 };

        let mut current_cell: i64;
        let mut next_cell: i64;
        let mut previous_cell: i64;
        if i <= zero_k && start == original_start {
            current_cell = -1;
            next_cell = i - 2;
        } else {
            let start_idx = (zero_k + start) as usize;
            current_cell = if start > original_start && start_idx > 0 {
                current_row[start_idx - 1]
            } else {
                -1
            };
            next_cell = current_row[start_idx];
        }

        proof {
            assert forall|y: int| 0 <= y < arr_len implies reached(a@, b@, #[trigger] next_row@[y] as int, y - zero_k, i - 1) by {
                lemma_reach_mono(a@, b@, next_row@[y] as int, y - zero_k, i - 2, i - 1);
            }
            if i <= zero_k && start == original_start {
                let x = min_int(i - 2, s1len as int);
                assert(min_int(i - 2 + start, s2len as int) == -1);
                if i >= 2 {
                    assert(ed_prefix(a@, b@, x, -1) == (if x <= 0 { 0 } else { x }));
                }
                assert(reached(a@, b@, next_cell as int, start as int, i - 2));
            } else {
                let start_idx = zero_k + start;
                assert(reached(a@, b@, current_row@[start_idx] as int, start_idx - zero_k, i - 2));
                if start > original_start && start_idx > 0 {
                    assert(reached(a@, b@, current_row@[start_idx - 1] as int, start_idx - 1 - zero_k, i - 2));
                }
            }
            let e = i - 2;
            let dd = size_diff as int;
            let thr = threshold as int;
            assert(row_covers(a@, b@, e, dd, thr, current_row@, zero_k as int, -zero_k as int, arr_len - zero_k));
            assert forall|x: int| #[trigger] good_pt(a@, b@, e, x, start as int, dd, thr) implies next_cell >= x by {
                lemma_good_in_band(a@, b@, e, x, start as int, dd, thr, zero_k as int);
                if !(i <= zero_k && start == original_start) {
                    assert(good_pt(a@, b@, e, x, start as int, dd, thr));
                }
            }
            assert forall|x: int| #[trigger] good_pt(a@, b@, e, x, start - 1, dd, thr) implies current_cell >= x by {
                lemma_good_in_band(a@, b@, e, x, start - 1, dd, thr, zero_k as int);
                if start > original_start {
                    assert(good_pt(a@, b@, e, x, start - 1, dd, thr));
                }
            }
        }
        let mut q: i64 = start;
        while q < end
            invariant
                1 <= i <= threshold + 1,
                0 <= s1len <= s2len <= MAX_SEQ_LEN,
                s1len == a@.len(),
                s2len == b@.len(),
                threshold <= s2len,
                0 <= size_diff <= threshold,
                size_diff == s2len - s1len,
                zero_k == (if s1len < threshold { s1len } else { threshold }) / 2 + 2,
                arr_len == size_diff + zero_k * 2 + 2,
                condition_diag == size_diff + zero_k,
                end_max == condition_diag * 2,
                current_row@.len() == arr_len,
                next_row@.len() == arr_len,
                original_start == (if i <= zero_k { -i + 1 } else { i - zero_k * 2 + 1 }),
                original_end == (if i <= condition_diag { i as int } else { end_max - i }),
                start >= original_start,
                end <= original_end,
                original_start >= -zero_k,
                end <= condition_diag,
                start <= q,
                q <= end || q == start,
                forall|y: int| 0 <= y < arr_len ==> -1 <= #[trigger] current_row@[y] <= row_cap(s1len as int, i - 1),
                forall|y: int| 0 <= y < arr_len ==> -1 <= #[trigger] next_row@[y] <= row_cap(s1len as int, i as int),
                -1 <= current_cell <= row_cap(s1len as int, i - 1),
                -1 <= next_cell <= row_cap(s1len as int, i - 1),
                forall|y: int| 0 <= y < arr_len ==> reached(a@, b@, #[trigger] current_row@[y] as int, y - zero_k, i - 2),
                forall|y: int| 0 <= y < arr_len ==> reached(a@, b@, #[trigger] next_row@[y] as int, y - zero_k, i - 1),
                reached(a@, b@, current_cell as int, q - 1, i - 2),
                reached(a@, b@, next_cell as int, q as int, i - 2),
                -i + 1 <= start,
                end <= i,
                row_covers(a@, b@, i - 2, size_diff as int, threshold as int, current_row@, zero_k as int, -zero_k as int, arr_len - zero_k),
                row_covers(a@, b@, i - 1, size_diff as int, threshold as int, next_row@, zero_k as int, start as int, q as int),
                covers(a@, b@, i - 2, q - 1, size_diff as int, threshold as int, current_cell as int),
                covers(a@, b@, i - 2, q as int, size_diff as int, threshold as int, next_cell as int),
                budget == threshold - (i - 1),
                min_valid_diag as int == (if budget <= 0 { size_diff as int } else { size_diff - budget }),
                max_valid_diag as int == (if budget <= 0 { size_diff as int } else { size_diff + budget }),
                start as int == (if original_start > min_valid_diag { original_start as int } else { min_valid_diag as int }),
                end as int == (if original_end < max_valid_diag + 1 { original_end as int } else { max_valid_diag + 1 }),
            decreases end - q,
        {
            let row_index = (zero_k + q) as usize;
            previous_cell = current_cell;
            current_cell = next_cell;
            next_cell = current_row[row_index + 1];

            proof {
                assert(reached(a@, b@, next_cell as int, q + 1, i - 2));
                assert forall|x: int| #[trigger] good_pt(a@, b@, i - 2, x, q + 1, size_diff as int, threshold as int) implies next_cell >= x by {
                    lemma_good_in_band(a@, b@, i - 2, x, q + 1, size_diff as int, threshold as int, zero_k as int);
                }
            }
            let via_sub = current_cell + 1;
            let via_del = next_cell + 1;
            let mut t = if via_sub > previous_cell { via_sub } else { previous_cell };
            t = if t > via_del { t } else { via_del };
            proof {
                lemma_reach_start(a@, b@, q as int, i - 1);
                if t == via_sub && current_cell >= 0 {
                    lemma_reach_sub(a@, b@, current_cell as int, q as int, i - 2);
                } else if t == via_del && next_cell >= 0 {
                    lemma_reach_del(a@, b@, next_cell as int, q as int, i - 2);
                } else if t == previous_cell && previous_cell >= 0 {
                    lemma_reach_ins(a@, b@, previous_cell as int, q as int, i - 2);
                }
                assert(reached(a@, b@, t as int, q as int, i - 1));
            }
            let ghost t0 = t;
            if t < s1len {
                while t < s1len && t + q < s2len && 0 <= t + q && a[t as usize].is_same(&b[(t + q) as usize])
                    invariant
                        t0 <= t,
                        0 <= t <= s1len,
                        s1len == a@.len(),
                        s2len == b@.len(),
                        -zero_k <= q < condition_diag,
                        0 <= s1len <= s2len <= MAX_SEQ_LEN,
                        zero_k <= MAX_SEQ_LEN,
                        condition_diag <= 2 * MAX_SEQ_LEN + 2,
                        reached(a@, b@, t as int, q as int, i - 1),
                    decreases s1len - t,
                {
                    proof {
                        lemma_reach_slide(a@, b@, t as int, q as int, i - 1);
                    }
                    t = t + 1;
                }
            }
            proof {
                assert((0 <= t < a@.len() && 0 <= t + q < b@.len()) ==> !a@[t as int].same(&b@[t + q]));
                lemma_cell_covers(
                    a@,
                    b@,
                    i - 1,
                    i - 2,
                    q as int,
                    q - 1,
                    q + 1,
                    size_diff as int,
                    threshold as int,
                    previous_cell as int,
                    current_cell as int,
                    next_cell as int,
                    t as int,
                );
            }
            let ghost before = next_row@;
            next_row.set(row_index, t);
            proof {
                assert forall|x: int, y: int|
                    start <= y < q + 1 && #[trigger] good_pt(a@, b@, i - 1, x, y, size_diff as int, threshold as int)
                        implies next_row@[zero_k + y] >= x by {
                    if y < q {
                        assert(before[zero_k + y] >= x);
                    }
                }
            }
            q = q + 1;
        }

        proof {
            let e = i - 1;
            let dd = size_diff as int;
            let thr = threshold as int;
            assert forall|x: int, y: int|
                -zero_k <= y < arr_len - zero_k && #[trigger] good_pt(a@, b@, e, x, y, dd, thr)
                    implies next_row@[zero_k + y] >= x by {
                lemma_good_in_band(a@, b@, e, x, y, dd, thr, zero_k as int);
                assert(start <= y < end);
            }
            if edit_distance(a@, b@) <= e {
                assert(min_int(s1len as int, s1len as int) == s1len);
                assert(good_pt(a@, b@, e, s1len as int, dd, dd, thr));
                assert(next_row@[zero_k + dd] >= s1len);
            }
        }
        let condition_value = next_row[condition_diag as usize];
        if condition_value >= s1len {
            proof {
                assert(reached(a@, b@, condition_value as int, condition_diag - zero_k, i - 1));
                assert(min_int(condition_value as int, s1len as int) == s1len);
                assert(min_int(condition_value + size_diff, s2len as int) == s2len);
            }
            assert(i - 1 <= threshold);
            assert(threshold <= s2len);
            assert(s2len == max_int(l1, l2));
            return (i - 1) as usize;
        }
        i = i + 1;
    }
    usize::MAX
}


/// Bounded edit distance by the diagonal-transition (Berghel-Roach) program,
/// after trimming the common suffix and prefix of the two sequences.
///
/// `s1` must not be longer than `s2`.  Returns a number of edits no larger
/// than `s2`'s length; identical sequences give 0.
#[verifier::spinoff_prover]
#[verifier::rlimit(80)]
pub fn bounded_string_edit_distance<T: Symbol>(s1: &[T], s2: &[T], k: usize) -> (r: usize)
    requires
        s1@.len() <= s2@.len(),
        s2@.len() <= MAX_SEQ_LEN,
    ensures
        r as int <= s2@.len() || r == k,
        r as int <= s2@.len() || (k as u64) > 0x7fff_ffff_ffff_ffffu64,
        s1@ == s2@ ==> r == 0,
        r == k || edit_distance(s1@, s2@) <= r,
        r == edit_distance(s1@, s2@) || (r == k && (edit_distance(s1@, s2@) > k || (k as u64)
            > 0x7fff_ffff_ffff_ffffu64)),
        edit_distance(s1@, s2@) <= k && (k as u64) <= 0x7fff_ffff_ffff_ffffu64 ==> r == edit_distance(s1@, s2@),
        r > k ==> r == s2@.len() - s1@.len(),
        s2@.len() - s1@.len() <= k && (k as u64) <= 0x7fff_ffff_ffff_ffffu64 ==> r == min_int(
            edit_distance(s1@, s2@),
            k as int,
        ),
{
    let mut s1len = s1.len();
    let mut s2len = s2.len();
    // suffix trimming
    while s1len > 0 && s2len > 0 && s1[s1len - 1].is_same(&s2[s2len - 1])
        invariant
            s1len <= s1@.len(),
            s2len <= s2@.len(),
            s2len - s1len == s2@.len() - s1@.len(),
            s1@ == s2@ ==> s1len == s2len,
            s1@ == s2@ ==> forall|x: int| 0 <= x < s1len ==> #[trigger] s1@[x] == s2@[x],
            forall|d: int| 0 <= d < s1@.len() - s1len ==> #[trigger] s1@[s1len + d].same(&s2@[s2len + d]),
        decreases s1len,
    {
        proof {
            assert forall|d: int| 0 <= d < s1@.len() - (s1len - 1) implies #[trigger] s1@[(s1len - 1) + d].same(&s2@[(s2len - 1) + d]) by {
                if d > 0 {
                    assert(s1@[s1len + (d - 1)].same(&s2@[s2len + (d - 1)]));
                }
            }
        }
        s1len = s1len - 1;
        s2len = s2len - 1;
    }
    proof {
        lemma_ed_matching_run_eq(s1@, s2@, s1len as int, s2len as int, s1@.len() - s1len);
        assert(edit_distance(s1@, s2@) == ed_prefix(s1@, s2@, s1len as int, s2len as int));
    }
    proof {
        if s1@ == s2@ && s1len > 0 {
            let x = s1len - 1;
            assert(s1@[x] == s2@[x]);
            T::lemma_same_reflexive(&s1@[x]);
        }
    }
    if s1len == 0 {
        return s2len;
    }
    let ghost full_len = (s1len, s2len);
    assert(s1@ != s2@);
    // prefix trimming
    let mut common_prefix: usize = 0;
    while common_prefix < s1len && s1[common_prefix].is_same(&s2[common_prefix])
        invariant
            common_prefix <= s1len,
            s1len <= s1@.len(),
            s2len <= s2@.len(),
            s1len <= s2len,
            forall|d: int| 0 <= d < common_prefix ==> #[trigger] s1@[d].same(&s2@[d]),
        decreases s1len - common_prefix,
    {
        common_prefix = common_prefix + 1;
    }
    let a = &s1[common_prefix..s1len];
    let b = &s2[common_prefix..s2len];
    let alen = (s1len - common_prefix) as i64;
    let blen = (s2len - common_prefix) as i64;
    proof {
        assert(a@ =~= s1@.subrange(common_prefix as int, s1len as int));
        assert(b@ =~= s2@.subrange(common_prefix as int, s2len as int));
        lemma_ed_common_prefix_eq(s1@, s2@, common_prefix as int, a@, b@, alen as int, blen as int);
        assert(edit_distance(s1@, s2@) == edit_distance(a@, b@));
        lemma_ed_prefix_bounds(a@, b@, alen as int, blen as int);
    }
    if alen == 0 {
        return blen as usize;
    }
    if (k as u64) > 0x7fff_ffff_ffff_ffffu64 {
        // The budget reads as a negative `i64`, which is then handed back.
        return k;
    }
    let kk: i64 = if k <= MAX_SEQ_LEN { k as i64 } else { MAX_SEQ_LEN as i64 + 1 };
    let threshold = if blen < kk { blen } else { kk };
    let size_diff = blen - alen;
    proof {
        lemma_ed_prefix_bounds(a@, b@, alen as int, blen as int);
    }
    if threshold < size_diff {
        return threshold as usize;
    }
    let zero_k: i64 = ((if alen < threshold { alen } else { threshold }) / 2) + 2;
    let arr_len = size_diff + zero_k * 2 + 2;
    let condition_row = size_diff + zero_k;
    let end_max = condition_row * 2;
    proof {
        lemma_band_fits(alen as int, blen as int, threshold as int, zero_k as int);
    }

    let mut current_row: Vec<i64> = Vec::new();
    let mut next_row: Vec<i64> = Vec::new();
    let mut x: i64 = 0;
    while x < arr_len
        invariant
            0 <= x <= arr_len,
            current_row@.len() == x,
            next_row@.len() == x,
            forall|y: int| 0 <= y < x ==> #[trigger] current_row@[y] == -1,
            forall|y: int| 0 <= y < x ==> #[trigger] next_row@[y] == -1,
        decreases arr_len - x,
    {
        current_row.push(-1);
        next_row.push(-1);
        x = x + 1;
    }

    proof {
        assert forall|x: int, y: int|
            -zero_k <= y < arr_len - zero_k && #[trigger] good_pt(a@, b@, -1, x, y, size_diff as int, threshold as int)
                implies next_row@[zero_k + y] >= x by {
            lemma_ed_prefix_bounds(a@, b@, x, x + y);
        }
        lemma_ed_prefix_bounds(a@, b@, alen as int, blen as int);
    }
    let mut i: i64 = 0;
    loop
        invariant
            0 <= i <= threshold,
            s1@ != s2@,
            1 <= alen <= blen <= MAX_SEQ_LEN,
            alen == a@.len(),
            blen == b@.len(),
            blen as int <= s2@.len(),
            0 <= size_diff <= threshold <= blen,
            size_diff == blen - alen,
            zero_k == (if alen < threshold { alen } else { threshold }) / 2 + 2,
            arr_len == size_diff + zero_k * 2 + 2,
            condition_row == size_diff + zero_k,
            end_max == condition_row * 2,
            threshold + 2 - zero_k < arr_len,
            current_row@.len() == arr_len,
            next_row@.len() == arr_len,
            forall|y: int| 0 <= y < arr_len ==> -1 <= #[trigger] current_row@[y] <= row_cap(alen as int, i as int),
            forall|y: int| 0 <= y < arr_len ==> -1 <= #[trigger] next_row@[y] <= row_cap(alen as int, i as int),
            forall|y: int| 0 <= y < arr_len ==> reached(a@, b@, #[trigger] current_row@[y] as int, y - zero_k, i - 1),
            forall|y: int| 0 <= y < arr_len ==> reached(a@, b@, #[trigger] next_row@[y] as int, y - zero_k, i - 1),
            edit_distance(s1@, s2@) == edit_distance(a@, b@),
            edit_distance(a@, b@) <= blen,
            row_covers(a@, b@, i - 1, size_diff as int, threshold as int, next_row@, zero_k as int, -zero_k as int, arr_len - zero_k),
            edit_distance(a@, b@) >= i,
            (k as u64) <= 0x7fff_ffff_ffff_ffffu64,
            threshold == (if blen < kk { blen } else { kk }),
            kk as int == (if k <= MAX_SEQ_LEN { k as int } else { MAX_SEQ_LEN as int + 1 }),
        decreases threshold + 1 - i,
    {
        i = i + 1;
        let tmp = current_row;
        current_row = next_row;
        next_row = tmp;

        let start: i64;
        let mut next_cell: i64;
        let mut previous_cell: i64;
        let mut current_cell: i64 = -1;
        if i <= zero_k {
            start = -i + 1;
            next_cell = i - 2;
        } else {
            start = i - zero_k * 2 + 1;
            next_cell = current_row[(zero_k + start) as usize];
        }
        let end: i64;
        if i <= condition_row {
            end = i;
            next_row.set((zero_k + i) as usize, -1);
        } else {
            end = end_max - i;
        }

        proof {
            assert forall|y: int| 0 <= y < arr_len implies reached(a@, b@, #[trigger] next_row@[y] as int, y - zero_k, i - 1) by {
                lemma_reach_mono(a@, b@, next_row@[y] as int, y - zero_k, i - 2, i - 1);
            }
            if i <= zero_k {
                let x = min_int(i - 2, alen as int);
                assert(min_int(i - 2 + start, blen as int) == -1);
                if i >= 2 {
                    assert(ed_prefix(a@, b@, x, -1) == (if x <= 0 { 0 } else { x }));
                }
                assert(reached(a@, b@, next_cell as int, start as int, i - 2));
            } else {
                assert(reached(a@, b@, current_row@[zero_k + start] as int, (zero_k + start) - zero_k, i - 2));
            }
            let e = i - 2;
            let dd = size_diff as int;
            let thr = threshold as int;
            assert forall|x: int| #[trigger] good_pt(a@, b@, e, x, start as int, dd, thr) implies next_cell >= x by {
                lemma_good_in_band(a@, b@, e, x, start as int, dd, thr, zero_k as int);
                if i > zero_k {
                    assert(good_pt(a@, b@, e, x, start as int, dd, thr));
                }
            }
            assert forall|x: int| #[trigger] good_pt(a@, b@, e, x, start - 1, dd, thr) implies current_cell >= x by {
                lemma_good_in_band(a@, b@, e, x, start - 1, dd, thr, zero_k as int);
            }
        }
        let mut q: i64 = start;
        while q < end
            invariant
                1 <= i <= threshold + 1,
                1 <= alen <= blen <= MAX_SEQ_LEN,
                alen == a@.len(),
                blen == b@.len(),
                0 <= size_diff <= threshold <= blen,
                size_diff == blen - alen,
                zero_k == (if alen < threshold { alen } else { threshold }) / 2 + 2,
                arr_len == size_diff + zero_k * 2 + 2,
                condition_row == size_diff + zero_k,
                end_max == condition_row * 2,
                current_row@.len() == arr_len,
                next_row@.len() == arr_len,
                start >= -zero_k + 1,
                end <= condition_row,
                start <= q,
                q <= end || q == start,
                forall|y: int| 0 <= y < arr_len ==> -1 <= #[trigger] current_row@[y] <= row_cap(alen as int, i - 1),
                forall|y: int| 0 <= y < arr_len ==> -1 <= #[trigger] next_row@[y] <= row_cap(alen as int, i as int),
                -1 <= current_cell <= row_cap(alen as int, i - 1),
                -1 <= next_cell <= row_cap(alen as int, i - 1),
                forall|y: int| 0 <= y < arr_len ==> reached(a@, b@, #[trigger] current_row@[y] as int, y - zero_k, i - 2),
                forall|y: int| 0 <= y < arr_len ==> reached(a@, b@, #[trigger] next_row@[y] as int, y - zero_k, i - 1),
                reached(a@, b@, current_cell as int, q - 1, i - 2),
                reached(a@, b@, next_cell as int, q as int, i - 2),
                -i + 1 <= start,
                end <= i,
                start == (if i <= zero_k { -i + 1 } else { i - zero_k * 2 + 1 }),
                end == (if i <= condition_row { i as int } else { end_max - i }),
                row_covers(a@, b@, i - 2, size_diff as int, threshold as int, current_row@, zero_k as int, -zero_k as int, arr_len - zero_k),
                row_covers(a@, b@, i - 1, size_diff as int, threshold as int, next_row@, zero_k as int, start as int, q as int),
                covers(a@, b@, i - 2, q - 1, size_diff as int, threshold as int, current_cell as int),
                covers(a@, b@, i - 2, q as int, size_diff as int, threshold as int, next_cell as int),
            decreases end - q,
        {
            let row_index = (zero_k + q) as usize;
            previous_cell = current_cell;
            current_cell = next_cell;
            next_cell = current_row[row_index + 1];
            proof {
                assert(reached(a@, b@, next_cell as int, q + 1, i - 2));
                assert forall|x: int| #[trigger] good_pt(a@, b@, i - 2, x, q + 1, size_diff as int, threshold as int) implies next_cell >= x by {
                    lemma_good_in_band(a@, b@, i - 2, x, q + 1, size_diff as int, threshold as int, zero_k as int);
                }
            }
            let via_sub = current_cell + 1;
            let via_del = next_cell + 1;
            let mut t = if via_sub > previous_cell { via_sub } else { previous_cell };
            t = if t > via_del { t } else { via_del };
            proof {
                lemma_reach_start(a@, b@, q as int, i - 1);
                if t == via_sub && current_cell >= 0 {
                    lemma_reach_sub(a@, b@, current_cell as int, q as int, i - 2);
                } else if t == via_del && next_cell >= 0 {
                    lemma_reach_del(a@, b@, next_cell as int, q as int, i - 2);
                } else if t == previous_cell && previous_cell >= 0 {
                    lemma_reach_ins(a@, b@, previous_cell as int, q as int, i - 2);
                }
                assert(reached(a@, b@, t as int, q as int, i - 1));
            }
            let ghost t0 = t;
            if t < alen {
                while t < alen && t + q < blen && 0 <= t + q && a[t as usize].is_same(&b[(t + q) as usize])
                    invariant
                        t0 <= t,
                        0 <= t <= alen,
                        alen == a@.len(),
                        blen == b@.len(),
                        -zero_k <= q < condition_row,
                        1 <= alen <= blen <= MAX_SEQ_LEN,
                        zero_k <= MAX_SEQ_LEN,
                        condition_row <= 2 * MAX_SEQ_LEN + 2,
                        reached(a@, b@, t as int, q as int, i - 1),
                    decreases alen - t,
                {
                    proof {
                        lemma_reach_slide(a@, b@, t as int, q as int, i - 1);
                    }
                    t = t + 1;
                }
            }
            proof {
                assert((0 <= t < a@.len() && 0 <= t + q < b@.len()) ==> !a@[t as int].same(&b@[t + q]));
                lemma_cell_covers(
                    a@,
                    b@,
                    i - 1,
                    i - 2,
                    q as int,
                    q - 1,
                    q + 1,
                    size_diff as int,
                    threshold as int,
                    previous_cell as int,
                    current_cell as int,
                    next_cell as int,
                    t as int,
                );
            }
            let ghost before = next_row@;
            next_row.set(row_index, t);
            proof {
                assert forall|x: int, y: int|
                    start <= y < q + 1 && #[trigger] good_pt(a@, b@, i - 1, x, y, size_diff as int, threshold as int)
                        implies next_row@[zero_k + y] >= x by {
                    if y < q {
                        assert(before[zero_k + y] >= x);
                    }
                }
            }
            q = q + 1;
        }
        proof {
            let e = i - 1;
            let dd = size_diff as int;
            let thr = threshold as int;
            assert forall|x: int, y: int|
                -zero_k <= y < arr_len - zero_k && #[trigger] good_pt(a@, b@, e, x, y, dd, thr)
                    implies next_row@[zero_k + y] >= x by {
                lemma_good_in_band(a@, b@, e, x, y, dd, thr, zero_k as int);
                assert(start <= y < end);
            }
            if edit_distance(a@, b@) <= e && e <= thr {
                assert(min_int(alen as int, alen as int) == alen);
                assert(good_pt(a@, b@, e, alen as int, dd, dd, thr));
                assert(next_row@[zero_k + dd] >= alen);
            }
        }

        if !(next_row[condition_row as usize] < alen && i <= threshold) {
            proof {
                let v = next_row@[condition_row as int] as int;
                if v >= alen {
                    assert(reached(a@, b@, v, condition_row - zero_k, i - 1));
                    assert(min_int(v, alen as int) == alen);
                    assert(min_int(v + size_diff, blen as int) == blen);
                }
            }
            return (i - 1) as usize;
        }
    }
}

/// The diagonal band of the trimmed program fits its row arrays.
proof fn lemma_band_fits(alen: int, blen: int, threshold: int, zero_k: int)
    requires
        1 <= alen <= blen,
        0 <= blen - alen <= threshold <= blen,
        zero_k == (if alen < threshold { alen } else { threshold }) / 2 + 2,
    ensures
        threshold + 2 - zero_k < (blen - alen) + zero_k * 2 + 2,
{
}

} // verus!
