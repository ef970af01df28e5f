use vstd::prelude::*;
use crate::grid::{Cell, Grid, on_board, covers, fits, placed, filled, lemma_paint_dims, lemma_unplace_restores};
use crate::shape::occupied;
use crate::catalog::{Catalog, ShapesView};

verus! {

/// A board as the search sees it: rows of cells.
pub type Board = Seq<Seq<Cell>>;

/// The number of columns of a board.
pub open spec fn width(b: Board) -> int {
    if b.len() > 0 { b[0].len() as int } else { 0 }
}

/// The number of rows of a shape.
pub open spec fn shape_height(s: Seq<Seq<bool>>) -> int {
    s.len() as int
}

/// The number of columns of a shape: the length of its first row.
pub open spec fn shape_width(s: Seq<Seq<bool>>) -> int {
    if s.len() > 0 { s[0].len() as int } else { 0 }
}

/// Whether anchor row `y` keeps every row of shape `s` on board `b`.
pub open spec fn row_in_range(b: Board, s: Seq<Seq<bool>>, y: int) -> bool {
    0 <= y < b.len() && y + shape_height(s) <= b.len()
}

/// Whether anchor column `x` keeps every column of shape `s` on board `b`.
pub open spec fn col_in_range(b: Board, s: Seq<Seq<bool>>, x: int) -> bool {
    0 <= x < width(b) && x + shape_width(s) <= width(b)
}

/// The backtracking search as a state machine. The state is the board, the
/// position `i` in `order` (the catalog identities still to place), the
/// identities already used on this branch, and the next candidate: the
/// orientation `o` of piece `order[i]` and the anchor `(x, y)`, tried with
/// orientations in catalog order and anchors in row-major order, over the
/// anchors that keep the shape's rows and columns on the board. The result
/// is the first filled board reached, or `None` once every candidate failed.
pub open spec fn run(b: Board, cat: ShapesView, order: Seq<usize>, i: int, used: Seq<bool>, o: int, y: int, x: int) -> Option<Board>
    decreases order.len() - i, cat[order[i] as int].len() - o, b.len() - y, width(b) - x,
{
    if filled(b) {
        Some(b)
    } else if !(0 <= i < order.len()) {
        None
    } else if used[order[i] as int] {
        run(b, cat, order, i + 1, used, 0, 0, 0)
    } else {
        let p = order[i] as int;
        if !(0 <= o < cat[p].len()) {
            None
        } else if !row_in_range(b, cat[p][o], y) {
            run(b, cat, order, i, used, o + 1, 0, 0)
        } else if !col_in_range(b, cat[p][o], x) {
            run(b, cat, order, i, used, o, y + 1, 0)
        } else if fits(b, cat[p][o], x, y) && run(placed(b, cat[p][o], x, y, p as usize), cat, order, i + 1, used.update(p, true), 0, 0, 0) is Some {
            run(placed(b, cat[p][o], x, y, p as usize), cat, order, i + 1, used.update(p, true), 0, 0, 0)
        } else {
            run(b, cat, order, i, used, o, y, x + 1)
        }
    }
}

/// The outcome of the search from piece `i` of `order` with the identities
/// in `used` already taken.
pub open spec fn search(b: Board, cat: ShapesView, order: Seq<usize>, i: int, used: Seq<bool>) -> Option<Board> {
    run(b, cat, order, i, used, 0, 0, 0)
}

/// No identity is used yet.
pub open spec fn none_used(n: int) -> Seq<bool> {
    Seq::new(n as nat, |k: int| false)
}

/// Every entry of `order` names a catalog piece.
pub open spec fn order_valid(order: Seq<usize>, n: int) -> bool {
    forall|k: int| 0 <= k < order.len() ==> #[trigger] order[k] < n
}

fn backtrack(grid: &mut Grid, catalog: &Catalog, order: &Vec<usize>, index: usize, used: &mut Vec<bool>) -> (r: bool)
    requires
        old(grid).wf(),
        index <= order@.len(),
        order_valid(order@, catalog@.len() as int),
        old(used)@.len() == catalog@.len(),
    ensures
        final(grid).wf(),
        final(grid).width == old(grid).width,
        final(grid).height == old(grid).height,
        final(used)@.len() == old(used)@.len(),
        r == search(old(grid)@, catalog@, order@, index as int, old(used)@) is Some,
        r ==> search(old(grid)@, catalog@, order@, index as int, old(used)@) == Some(final(grid)@),
        !r ==> final(grid)@ == old(grid)@ && final(used)@ == old(used)@,
    decreases order@.len() - index,
{
    let ghost b0 = grid@;
    let ghost u0 = used@;
    let ghost cat = catalog@;
    if grid.is_filled() {
        return true;
    }
    if index == order.len() {
        return false;
    }
    let p = order[index];
    assert(p < catalog@.len());
    if used[p] {
        return backtrack(grid, catalog, order, index + 1, used);
    }
    let next = index + 1;
    let piece = &catalog.pieces[p];
    assert(cat[p as int].len() == piece.orientations@.len());
    let mut o: usize = 0;
    while o < piece.orientations.len()
        invariant
            grid.wf(),
            grid.width == old(grid).width,
            grid.height == old(grid).height,
            grid@ == b0,
            used@ == u0,
            b0 == old(grid)@,
            u0 == old(used)@,
            u0.len() == cat.len(),
            next == index + 1,
            cat == catalog@,
            !filled(b0),
            index < order@.len(),
            p == order@[index as int],
            p < cat.len(),
            !u0[p as int],
            *piece == catalog.pieces@[p as int],
            cat[p as int].len() == piece.orientations@.len(),
            order_valid(order@, catalog@.len() as int),
            o <= piece.orientations@.len(),
            run(b0, cat, order@, index as int, u0, o as int, 0, 0) == search(b0, cat, order@, index as int, u0),
        decreases piece.orientations@.len() - o,
    {
        let shape = &piece.orientations[o];
        assert(cat[p as int][o as int] == shape@);
        let sh = shape.rows.len();
        let sw = if sh > 0 { shape.rows[0].len() } else { 0 };
        assert(sh == shape_height(shape@) && sw == shape_width(shape@));
        let mut y: usize = 0;
        while y < grid.height && sh <= grid.height - y
            invariant
                grid.wf(),
                grid.width == old(grid).width,
                grid.height == old(grid).height,
                grid@ == b0,
                used@ == u0,
                b0 == old(grid)@,
                u0 == old(used)@,
                u0.len() == cat.len(),
                next == index + 1,
            u0.len() == cat.len(),
            next == index + 1,
                cat == catalog@,
                !filled(b0),
                index < order@.len(),
                p == order@[index as int],
                p < cat.len(),
                !u0[p as int],
                o < cat[p as int].len(),
                cat[p as int][o as int] == shape@,
                order_valid(order@, catalog@.len() as int),
                y <= grid.height,
                sh == shape_height(shape@) && sw == shape_width(shape@),
                run(b0, cat, order@, index as int, u0, o as int, y as int, 0) == search(b0, cat, order@, index as int, u0),
            decreases grid.height - y,
        {
            let mut x: usize = 0;
            assert(width(b0) == grid.width);
            while x < grid.width && sw <= grid.width - x
                invariant
                    grid.wf(),
                    grid.width == old(grid).width,
                    grid.height == old(grid).height,
                    grid@ == b0,
                    used@ == u0,
                    b0 == old(grid)@,
                    u0 == old(used)@,
                    u0.len() == cat.len(),
                    next == index + 1,
                u0.len() == cat.len(),
                next == index + 1,
            u0.len() == cat.len(),
            next == index + 1,
                    cat == catalog@,
                    !filled(b0),
                    index < order@.len(),
                    p == order@[index as int],
                    p < cat.len(),
                    !u0[p as int],
                    o < cat[p as int].len(),
                    cat[p as int][o as int] == shape@,
                    order_valid(order@, catalog@.len() as int),
                    row_in_range(b0, shape@, y as int),
                    sh == shape_height(shape@) && sw == shape_width(shape@),
                    width(b0) == grid.width,
                    x <= grid.width,
                    run(b0, cat, order@, index as int, u0, o as int, y as int, x as int) == search(b0, cat, order@, index as int, u0),
                decreases grid.width - x,
            {
                if grid.fits(shape, x, y) {
                    grid.place(shape, x, y, p);
                    used.set(p, true);
                    assert(used@ == u0.update(p as int, true));
                    if backtrack(grid, catalog, order, next, used) {
                        return true;
                    }
                    proof {
                        lemma_paint_dims(b0, shape@, x as int, y as int, Cell::Occupied(p));
                        lemma_unplace_restores(b0, shape@, x as int, y as int, p);
                    }
                    grid.unplace(shape, x, y);
                    used.set(p, false);
                    assert(used@ =~= u0);
                }
                x = x + 1;
            }
            y = y + 1;
        }
        o = o + 1;
    }
    false
}

/// Tries to fill every empty cell of `grid` with the pieces of `order`
/// (catalog identities), each identity used at most once: an identity that
/// occurs again in `order` is skipped. Success leaves the first filled board
/// that the search reaches in `grid`; failure leaves `grid` as it was.
pub fn solve(grid: &mut Grid, catalog: &Catalog, order: &Vec<usize>) -> (r: bool)
    requires
        old(grid).wf(),
        order_valid(order@, catalog@.len() as int),
    ensures
        final(grid).wf(),
        final(grid).width == old(grid).width,
        final(grid).height == old(grid).height,
        r == search(old(grid)@, catalog@, order@, 0, none_used(catalog@.len() as int)) is Some,
        r ==> search(old(grid)@, catalog@, order@, 0, none_used(catalog@.len() as int)) == Some(final(grid)@),
        r ==> completes(old(grid)@, final(grid)@),
        !r ==> final(grid)@ == old(grid)@,
{
    proof { lemma_search_keeps_occupied(old(grid)@, catalog@, order@, 0, none_used(catalog@.len() as int)); }
    let n = catalog.len();
    let mut used: Vec<bool> = Vec::new();
    let mut k: usize = 0;
    while k < n
        invariant
            k <= n,
            n == catalog@.len(),
            used@ == none_used(k as int),
        decreases n - k,
    {
        used.push(false);
        k = k + 1;
        assert(used@ =~= none_used(k as int));
    }
    backtrack(grid, catalog, order, 0, &mut used)
}

/// A board that the search returns is filled, has the dimensions of the
/// board it started from and keeps every cell that was occupied there.
pub open spec fn completes(b: Board, f: Board) -> bool {
    &&& filled(f)
    &&& f.len() == b.len()
    &&& forall|y: int| 0 <= y < b.len() ==> #[trigger] f[y].len() == b[y].len()
    &&& forall|x: int, y: int| on_board(b, x, y) && b[y][x] != Cell::Empty ==> #[trigger] f[y][x] == b[y][x]
}

proof fn lemma_run_completes(b: Board, cat: ShapesView, order: Seq<usize>, i: int, used: Seq<bool>, o: int, y: int, x: int)
    ensures
        run(b, cat, order, i, used, o, y, x) matches Some(f) ==> completes(b, f),
    decreases order.len() - i, cat[order[i] as int].len() - o, b.len() - y, width(b) - x,
{
    if filled(b) {
    } else if !(0 <= i < order.len()) {
    } else if used[order[i] as int] {
        lemma_run_completes(b, cat, order, i + 1, used, 0, 0, 0);
    } else {
        let p = order[i] as int;
        if !(0 <= o < cat[p].len()) {
        } else if !row_in_range(b, cat[p][o], y) {
            lemma_run_completes(b, cat, order, i, used, o + 1, 0, 0);
        } else if !col_in_range(b, cat[p][o], x) {
            lemma_run_completes(b, cat, order, i, used, o, y + 1, 0);
        } else {
            let s = cat[p][o];
            let nb = placed(b, s, x, y, p as usize);
            if fits(b, s, x, y) && run(nb, cat, order, i + 1, used.update(p, true), 0, 0, 0) is Some {
                lemma_run_completes(nb, cat, order, i + 1, used.update(p, true), 0, 0, 0);
                lemma_paint_dims(b, s, x, y, Cell::Occupied(p as usize));
                let f = run(nb, cat, order, i + 1, used.update(p, true), 0, 0, 0)->Some_0;
                assert forall|xx: int, yy: int| on_board(b, xx, yy) && b[yy][xx] != Cell::Empty
                    implies #[trigger] f[yy][xx] == b[yy][xx] by {
                    assert(on_board(nb, xx, yy));
                    if covers(s, x, y, xx, yy) {
                        assert(occupied(s, xx - x, yy - y));
                    }
                }
            } else {
                lemma_run_completes(b, cat, order, i, used, o, y, x + 1);
            }
        }
    }
}

/// A board that the search returns is filled, and every cell that was
/// occupied before the search (a pre-placed piece) still holds the same
/// identity there: the search only ever covers cells that started empty.
pub proof fn lemma_search_keeps_occupied(b: Board, cat: ShapesView, order: Seq<usize>, i: int, used: Seq<bool>)
    ensures
        search(b, cat, order, i, used) matches Some(f) ==> completes(b, f),
{
    lemma_run_completes(b, cat, order, i, used, 0, 0, 0);
}

/// A board that is already filled is solved as it stands, whatever pieces
/// remain (none, in particular), before any piece is tried.
pub proof fn lemma_filled_board_solved(b: Board, cat: ShapesView, order: Seq<usize>, i: int, used: Seq<bool>)
    requires
        filled(b),
    ensures
        search(b, cat, order, i, used) == Some(b),
{
}

/// The search is a function of its inputs: the same board, catalog, order,
/// position and used identities give the same verdict and the same board.
pub proof fn lemma_search_deterministic(
    b1: Board, cat1: ShapesView, order1: Seq<usize>, used1: Seq<bool>,
    b2: Board, cat2: ShapesView, order2: Seq<usize>, used2: Seq<bool>,
)
    requires
        b1 == b2,
        cat1 == cat2,
        order1 == order2,
        used1 == used2,
    ensures
        search(b1, cat1, order1, 0, used1) == search(b2, cat2, order2, 0, used2),
{
}

} // verus!
