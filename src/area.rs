use vstd::prelude::*;
use crate::shape::occupied;
use crate::grid::{Cell, on_board, covers, fits, placed, filled, lemma_paint_dims};
use crate::catalog::ShapesView;
use crate::solver::{Board, width, run, search, row_in_range, col_in_range};

verus! {

/// The sum of `f` over `lo..hi`.
pub open spec fn total(f: spec_fn(int) -> nat, lo: int, hi: int) -> nat
    decreases hi - lo,
{
    if hi <= lo { 0 } else { total(f, lo, hi - 1) + f(hi - 1) }
}

/// The number of empty cells of a row.
pub open spec fn row_empty(r: Seq<Cell>) -> nat {
    total(|x: int| if r[x] == Cell::Empty { 1nat } else { 0nat }, 0, r.len() as int)
}

/// The number of empty cells of a board.
pub open spec fn empty_count(b: Board) -> nat {
    total(|y: int| row_empty(b[y]), 0, b.len() as int)
}

/// The number of covered offsets of a shape row.
pub open spec fn row_size(r: Seq<bool>) -> nat {
    total(|j: int| if r[j] { 1nat } else { 0nat }, 0, r.len() as int)
}

/// The number of cells a shape covers.
pub open spec fn shape_size(s: Seq<Seq<bool>>) -> nat {
    total(|i: int| row_size(s[i]), 0, s.len() as int)
}

proof fn lemma_total_split(f: spec_fn(int) -> nat, lo: int, mid: int, hi: int)
    requires
        lo <= mid <= hi,
    ensures
        total(f, lo, hi) == total(f, lo, mid) + total(f, mid, hi),
    decreases hi - mid,
{
    if hi > mid {
        lemma_total_split(f, lo, mid, hi - 1);
    }
}

proof fn lemma_total_zero(f: spec_fn(int) -> nat, lo: int, hi: int)
    requires
        forall|x: int| lo <= x < hi ==> #[trigger] f(x) == 0,
    ensures
        total(f, lo, hi) == 0,
    decreases hi - lo,
{
    if hi > lo {
        lemma_total_zero(f, lo, hi - 1);
    }
}

proof fn lemma_total_positive(f: spec_fn(int) -> nat, lo: int, hi: int)
    requires
        total(f, lo, hi) > 0,
    ensures
        exists|x: int| lo <= x < hi && #[trigger] f(x) > 0,
{
    if !(exists|x: int| lo <= x < hi && #[trigger] f(x) > 0) {
        lemma_total_zero(f, lo, hi);
    }
}

proof fn lemma_total_ext(f: spec_fn(int) -> nat, g: spec_fn(int) -> nat, lo: int, hi: int)
    requires
        forall|x: int| lo <= x < hi ==> #[trigger] f(x) == g(x),
    ensures
        total(f, lo, hi) == total(g, lo, hi),
    decreases hi - lo,
{
    if hi > lo {
        lemma_total_ext(f, g, lo, hi - 1);
    }
}

proof fn lemma_total_shift(f: spec_fn(int) -> nat, g: spec_fn(int) -> nat, d: int, lo: int, hi: int)
    requires
        forall|x: int| lo <= x < hi ==> #[trigger] g(x) == f(x + d),
    ensures
        total(g, lo, hi) == total(f, lo + d, hi + d),
    decreases hi - lo,
{
    if hi > lo {
        lemma_total_shift(f, g, d, lo, hi - 1);
        assert(g(hi - 1) == f(hi - 1 + d));
    }
}

proof fn lemma_total_add(f: spec_fn(int) -> nat, g: spec_fn(int) -> nat, c: spec_fn(int) -> nat, lo: int, hi: int)
    requires
        forall|x: int| lo <= x < hi ==> #[trigger] f(x) == g(x) + c(x),
    ensures
        total(f, lo, hi) == total(g, lo, hi) + total(c, lo, hi),
    decreases hi - lo,
{
    if hi > lo {
        lemma_total_add(f, g, c, lo, hi - 1);
        assert(f(hi - 1) == g(hi - 1) + c(hi - 1));
    }
}

/// Two ranges that hold every point where `f` is not zero give the same sum.
proof fn lemma_total_hull(f: spec_fn(int) -> nat, lo1: int, hi1: int, lo2: int, hi2: int)
    requires
        lo1 <= hi1,
        lo2 <= hi2,
        forall|x: int| #[trigger] f(x) != 0 ==> lo1 <= x < hi1 && lo2 <= x < hi2,
    ensures
        total(f, lo1, hi1) == total(f, lo2, hi2),
{
    let lo = if lo1 < lo2 { lo1 } else { lo2 };
    let hi = if hi1 > hi2 { hi1 } else { hi2 };
    lemma_total_split(f, lo, lo1, hi);
    lemma_total_split(f, lo1, hi1, hi);
    lemma_total_zero(f, lo, lo1);
    lemma_total_zero(f, hi1, hi);
    lemma_total_split(f, lo, lo2, hi);
    lemma_total_split(f, lo2, hi2, hi);
    lemma_total_zero(f, lo, lo2);
    lemma_total_zero(f, hi2, hi);
}

/// How many cells of board row `y` the shape at `(ax, ay)` covers.
spec fn row_cover(s: Seq<Seq<bool>>, ax: int, ay: int, y: int) -> nat {
    if 0 <= y - ay < s.len() { row_size(s[y - ay]) } else { 0 }
}

proof fn lemma_row_cover(b: Board, s: Seq<Seq<bool>>, ax: int, ay: int, id: usize, y: int)
    requires
        fits(b, s, ax, ay),
        0 <= y < b.len(),
    ensures
        row_empty(b[y]) == row_empty(placed(b, s, ax, ay, id)[y]) + row_cover(s, ax, ay, y),
{
    let pb = placed(b, s, ax, ay, id);
    lemma_paint_dims(b, s, ax, ay, Cell::Occupied(id));
    let w = b[y].len() as int;
    let r = b[y];
    let pr = pb[y];
    let fe = |x: int| if r[x] == Cell::Empty { 1nat } else { 0nat };
    let ge = |x: int| if pr[x] == Cell::Empty { 1nat } else { 0nat };
    let cov = |x: int| if covers(s, ax, ay, x, y) { 1nat } else { 0nat };
    assert forall|x: int| 0 <= x < w implies #[trigger] fe(x) == ge(x) + cov(x) by {
        if covers(s, ax, ay, x, y) {
            assert(occupied(s, x - ax, y - ay));
        }
    }
    lemma_total_add(fe, ge, cov, 0, w);
    if 0 <= y - ay < s.len() {
        let sr = s[y - ay];
        let f = |j: int| if 0 <= j < sr.len() && sr[j] { 1nat } else { 0nat };
        let rf = |j: int| if sr[j] { 1nat } else { 0nat };
        assert forall|x: int| 0 <= x < w implies #[trigger] cov(x) == f(x + (-ax)) by {}
        lemma_total_shift(f, cov, -ax, 0, w);
        assert forall|j: int| #[trigger] f(j) != 0 implies -ax <= j < w - ax && 0 <= j < sr.len() by {
            assert(occupied(s, j, y - ay));
        }
        lemma_total_hull(f, -ax, w - ax, 0, sr.len() as int);
        lemma_total_ext(f, rf, 0, sr.len() as int);
    } else {
        lemma_total_zero(cov, 0, w);
    }
}

/// Placing a shape where it fits takes exactly as many empty cells as the
/// shape covers.
pub proof fn lemma_place_count(b: Board, s: Seq<Seq<bool>>, ax: int, ay: int, id: usize)
    requires
        fits(b, s, ax, ay),
    ensures
        empty_count(b) == empty_count(placed(b, s, ax, ay, id)) + shape_size(s),
{
    let pb = placed(b, s, ax, ay, id);
    lemma_paint_dims(b, s, ax, ay, Cell::Occupied(id));
    let h = b.len() as int;
    let fe = |y: int| row_empty(b[y]);
    let ge = |y: int| row_empty(pb[y]);
    let rc = |y: int| row_cover(s, ax, ay, y);
    assert forall|y: int| 0 <= y < h implies #[trigger] fe(y) == ge(y) + rc(y) by {
        lemma_row_cover(b, s, ax, ay, id, y);
    }
    lemma_total_add(fe, ge, rc, 0, h);
    let q = |i: int| if 0 <= i < s.len() { row_size(s[i]) } else { 0nat };
    let rs = |i: int| row_size(s[i]);
    assert forall|y: int| 0 <= y < h implies #[trigger] rc(y) == q(y + (-ay)) by {}
    lemma_total_shift(q, rc, -ay, 0, h);
    assert forall|i: int| #[trigger] q(i) != 0 implies -ay <= i < h - ay && 0 <= i < s.len() by {
        let sr = s[i];
        let rf = |j: int| if sr[j] { 1nat } else { 0nat };
        lemma_total_positive(rf, 0, sr.len() as int);
        let j = choose|j: int| 0 <= j < sr.len() && #[trigger] rf(j) > 0;
        assert(occupied(s, j, i));
    }
    lemma_total_hull(q, -ay, h - ay, 0, s.len() as int);
    lemma_total_ext(q, rs, 0, s.len() as int);
}

proof fn lemma_filled_count(b: Board)
    requires
        filled(b),
    ensures
        empty_count(b) == 0,
{
    assert forall|y: int| 0 <= y < b.len() implies #[trigger] row_empty(b[y]) == 0 by {
        let r = b[y];
        let fe = |x: int| if r[x] == Cell::Empty { 1nat } else { 0nat };
        assert forall|x: int| 0 <= x < r.len() implies #[trigger] fe(x) == 0 by {
            assert(on_board(b, x, y));
        }
        lemma_total_zero(fe, 0, r.len() as int);
    }
    lemma_total_zero(|y: int| row_empty(b[y]), 0, b.len() as int);
}

/// Whether `n` is the total size of some choice of the pieces `order[i..]`,
/// each taken at most once and in one of its orientations.
pub open spec fn subset_sum(cat: ShapesView, order: Seq<usize>, i: int, n: int) -> bool
    decreases order.len() - i, cat[order[i] as int].len() + 1,
{
    if n == 0 {
        true
    } else if !(0 <= i < order.len()) {
        false
    } else {
        subset_sum(cat, order, i + 1, n) || some_orientation(cat, order, i, n, cat[order[i] as int].len() as int)
    }
}

/// Whether taking piece `order[i]` in one of its first `k` orientations
/// leaves a total that the pieces after it can make up.
pub open spec fn some_orientation(cat: ShapesView, order: Seq<usize>, i: int, n: int, k: int) -> bool
    decreases order.len() - i, k,
{
    if !(0 <= i < order.len()) || k <= 0 || k > cat[order[i] as int].len() {
        false
    } else {
        subset_sum(cat, order, i + 1, n - shape_size(cat[order[i] as int][k - 1]))
            || some_orientation(cat, order, i, n, k - 1)
    }
}

proof fn lemma_some_orientation(cat: ShapesView, order: Seq<usize>, i: int, n: int, o: int, k: int)
    requires
        0 <= i < order.len(),
        0 <= o < k <= cat[order[i] as int].len(),
        subset_sum(cat, order, i + 1, n - shape_size(cat[order[i] as int][o])),
    ensures
        some_orientation(cat, order, i, n, k),
    decreases k,
{
    if k - 1 > o {
        lemma_some_orientation(cat, order, i, n, o, k - 1);
    }
}

proof fn lemma_subset_sum_take(cat: ShapesView, order: Seq<usize>, i: int, n: int, o: int)
    requires
        0 <= i < order.len(),
        0 <= o < cat[order[i] as int].len(),
        subset_sum(cat, order, i + 1, n - shape_size(cat[order[i] as int][o])),
    ensures
        subset_sum(cat, order, i, n),
{
    lemma_some_orientation(cat, order, i, n, o, cat[order[i] as int].len() as int);
}

proof fn lemma_run_area(b: Board, cat: ShapesView, order: Seq<usize>, i: int, used: Seq<bool>, o: int, y: int, x: int)
    requires
        0 <= i,
    ensures
        run(b, cat, order, i, used, o, y, x) is Some ==> subset_sum(cat, order, i, empty_count(b) as int),
    decreases order.len() - i, cat[order[i] as int].len() - o, b.len() - y, width(b) - x,
{
    if filled(b) {
        lemma_filled_count(b);
    } else if !(0 <= i < order.len()) {
    } else if used[order[i] as int] {
        lemma_run_area(b, cat, order, i + 1, used, 0, 0, 0);
    } else {
        let p = order[i] as int;
        if !(0 <= o < cat[p].len()) {
        } else if !row_in_range(b, cat[p][o], y) {
            lemma_run_area(b, cat, order, i, used, o + 1, 0, 0);
        } else if !col_in_range(b, cat[p][o], x) {
            lemma_run_area(b, cat, order, i, used, o, y + 1, 0);
        } else {
            let s = cat[p][o];
            let nb = placed(b, s, x, y, p as usize);
            if fits(b, s, x, y) && run(nb, cat, order, i + 1, used.update(p, true), 0, 0, 0) is Some {
                lemma_run_area(nb, cat, order, i + 1, used.update(p, true), 0, 0, 0);
                lemma_place_count(b, s, x, y, p as usize);
                lemma_subset_sum_take(cat, order, i, empty_count(b) as int, o);
            } else {
                lemma_run_area(b, cat, order, i, used, o, y, x + 1);
            }
        }
    }
}

/// A board whose number of empty cells is not the total size of any choice
/// of the remaining pieces (each at most once, in any orientation) is
/// reported unsolvable.
pub proof fn lemma_impossible_area(b: Board, cat: ShapesView, order: Seq<usize>, used: Seq<bool>)
    requires
        !subset_sum(cat, order, 0, empty_count(b) as int),
    ensures
        search(b, cat, order, 0, used) is None,
{
    lemma_run_area(b, cat, order, 0, used, 0, 0, 0);
}

} // verus!
