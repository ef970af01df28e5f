use vstd::prelude::*;
use crate::shape::{Shape, occupied};

verus! {

/// The state of one board cell.
#[derive(Clone, Copy, Debug, PartialEq, Eq, Structural)]
pub enum Cell {
    Empty,
    /// Covered by the piece with this identity.
    Occupied(usize),
}

/// Whether `(x, y)` lies on board `b` (rows indexed by `y`).
pub open spec fn on_board(b: Seq<Seq<Cell>>, x: int, y: int) -> bool {
    0 <= y < b.len() && 0 <= x < b[y].len()
}

/// Whether a shape anchored at `(ax, ay)` covers board cell `(x, y)`.
pub open spec fn covers(s: Seq<Seq<bool>>, ax: int, ay: int, x: int, y: int) -> bool {
    occupied(s, x - ax, y - ay)
}

/// Every covered cell of the shape lies on the board.
pub open spec fn within(b: Seq<Seq<Cell>>, s: Seq<Seq<bool>>, ax: int, ay: int) -> bool {
    forall|dx: int, dy: int| #[trigger] occupied(s, dx, dy) ==> on_board(b, ax + dx, ay + dy)
}

/// Every covered cell of the shape lies on the board and is empty.
pub open spec fn fits(b: Seq<Seq<Cell>>, s: Seq<Seq<bool>>, ax: int, ay: int) -> bool {
    forall|dx: int, dy: int| #[trigger] occupied(s, dx, dy)
        ==> on_board(b, ax + dx, ay + dy) && b[ay + dy][ax + dx] == Cell::Empty
}

/// The board with every cell covered by the shape set to `c`.
pub open spec fn paint(b: Seq<Seq<Cell>>, s: Seq<Seq<bool>>, ax: int, ay: int, c: Cell) -> Seq<Seq<Cell>> {
    Seq::new(b.len(), |y: int| Seq::new(b[y].len(), |x: int|
        if covers(s, ax, ay, x, y) { c } else { b[y][x] }))
}

/// The board after placing piece `id` with shape `s` at `(ax, ay)`.
pub open spec fn placed(b: Seq<Seq<Cell>>, s: Seq<Seq<bool>>, ax: int, ay: int, id: usize) -> Seq<Seq<Cell>> {
    paint(b, s, ax, ay, Cell::Occupied(id))
}

/// The board after clearing the cells covered by shape `s` at `(ax, ay)`.
pub open spec fn unplaced(b: Seq<Seq<Cell>>, s: Seq<Seq<bool>>, ax: int, ay: int) -> Seq<Seq<Cell>> {
    paint(b, s, ax, ay, Cell::Empty)
}

/// No cell of the board is empty.
pub open spec fn filled(b: Seq<Seq<Cell>>) -> bool {
    forall|x: int, y: int| on_board(b, x, y) ==> #[trigger] b[y][x] != Cell::Empty
}

/// A board of `w` columns and `h` rows.
pub open spec fn board_dims(b: Seq<Seq<Cell>>, w: int, h: int) -> bool {
    b.len() == h && forall|y: int| 0 <= y < h ==> #[trigger] b[y].len() == w
}

/// A board of `w` columns and `h` rows, all empty.
pub open spec fn empty_board(w: int, h: int) -> Seq<Seq<Cell>> {
    Seq::new(h as nat, |y: int| Seq::new(w as nat, |x: int| Cell::Empty))
}

/// A fixed-size board of cells, rows indexed by `y`, columns by `x`.
#[derive(Clone, Debug)]
pub struct Grid {
    pub width: usize,
    pub height: usize,
    pub rows: Vec<Vec<Cell>>,
}

impl View for Grid {
    type V = Seq<Seq<Cell>>;

    open spec fn view(&self) -> Seq<Seq<Cell>> {
        self.rows@.map_values(|r: Vec<Cell>| r@)
    }
}

impl Grid {
    /// The rows match the stated width and height.
    pub open spec fn wf(&self) -> bool {
        board_dims(self@, self.width as int, self.height as int)
    }

    /// An all-empty board of `width` columns and `height` rows.
    pub fn new(width: usize, height: usize) -> (g: Grid)
        ensures
            g.wf(),
            g.width == width,
            g.height == height,
            g@ == empty_board(width as int, height as int),
    {
        let mut rows: Vec<Vec<Cell>> = Vec::new();
        let mut y: usize = 0;
        while y < height
            invariant
                y <= height,
                rows@.len() == y,
                forall|k: int| 0 <= k < y ==> #[trigger] rows@[k]@.len() == width,
                forall|k: int, x: int| 0 <= k < y && 0 <= x < width ==> #[trigger] rows@[k]@[x] == Cell::Empty,
            decreases height - y,
        {
            let mut row: Vec<Cell> = Vec::new();
            let mut x: usize = 0;
            while x < width
                invariant
                    x <= width,
                    row@.len() == x,
                    forall|k: int| 0 <= k < x ==> #[trigger] row@[k] == Cell::Empty,
                decreases width - x,
            {
                row.push(Cell::Empty);
                x = x + 1;
            }
            rows.push(row);
            y = y + 1;
        }
        let g = Grid { width, height, rows };
        assert(g@ =~~= empty_board(width as int, height as int));
        g
    }

    /// The cell at column `x`, row `y`.
    pub fn get(&self, x: usize, y: usize) -> (c: Cell)
        requires
            self.wf(),
            x < self.width,
            y < self.height,
        ensures
            c == self@[y as int][x as int],
    {
        self.rows[y][x]
    }

    /// Whether every covered cell of `shape` anchored at `(ax, ay)` lies on
    /// the board.
    pub fn contains_shape(&self, shape: &Shape, ax: usize, ay: usize) -> (r: bool)
        requires
            self.wf(),
        ensures
            r == within(self@, shape@, ax as int, ay as int),
    {
        let mut i: usize = 0;
        while i < shape.rows.len()
            invariant
                self.wf(),
                0 <= i <= shape@.len(),
                forall|dx: int, dy: int| dy < i && #[trigger] occupied(shape@, dx, dy) ==> on_board(self@, ax + dx, ay + dy),
            decreases shape@.len() - i,
        {
            let row = &shape.rows[i];
            let mut j: usize = 0;
            while j < row.len()
                invariant
                    self.wf(),
                    0 <= i < shape@.len(),
                    row@ == shape@[i as int],
                    0 <= j <= row@.len(),
                    forall|dx: int, dy: int| (dy < i || (dy == i && dx < j)) && #[trigger] occupied(shape@, dx, dy)
                        ==> on_board(self@, ax + dx, ay + dy),
                decreases row@.len() - j,
            {
                if row[j] {
                    assert(occupied(shape@, j as int, i as int));
                    if i >= self.height || ay >= self.height - i || j >= self.width || ax >= self.width - j {
                        return false;
                    }
                    assert(self@[(ay + i) as int].len() == self.width);
                }
                j = j + 1;
            }
            i = i + 1;
        }
        true
    }

    /// Whether `shape` anchored at `(ax, ay)` stays on the board and covers
    /// only empty cells.
    pub fn fits(&self, shape: &Shape, ax: usize, ay: usize) -> (r: bool)
        requires
            self.wf(),
        ensures
            r == fits(self@, shape@, ax as int, ay as int),
    {
        let mut i: usize = 0;
        while i < shape.rows.len()
            invariant
                self.wf(),
                0 <= i <= shape@.len(),
                forall|dx: int, dy: int| dy < i && #[trigger] occupied(shape@, dx, dy)
                    ==> on_board(self@, ax + dx, ay + dy) && self@[ay + dy][ax + dx] == Cell::Empty,
            decreases shape@.len() - i,
        {
            let row = &shape.rows[i];
            let mut j: usize = 0;
            while j < row.len()
                invariant
                    self.wf(),
                    0 <= i < shape@.len(),
                    row@ == shape@[i as int],
                    0 <= j <= row@.len(),
                    forall|dx: int, dy: int| (dy < i || (dy == i && dx < j)) && #[trigger] occupied(shape@, dx, dy)
                        ==> on_board(self@, ax + dx, ay + dy) && self@[ay + dy][ax + dx] == Cell::Empty,
                decreases row@.len() - j,
            {
                if row[j] {
                    assert(occupied(shape@, j as int, i as int));
                    if i >= self.height || ay >= self.height - i || j >= self.width || ax >= self.width - j {
                        return false;
                    }
                    if self.rows[ay + i][ax + j] != Cell::Empty {
                        return false;
                    }
                }
                j = j + 1;
            }
            i = i + 1;
        }
        true
    }

    /// Sets every cell covered by `shape` at `(ax, ay)` to `c`.
    fn paint_cells(&mut self, shape: &Shape, ax: usize, ay: usize, c: Cell)
        requires
            old(self).wf(),
            within(old(self)@, shape@, ax as int, ay as int),
        ensures
            final(self).wf(),
            final(self).width == old(self).width,
            final(self).height == old(self).height,
            final(self)@ == paint(old(self)@, shape@, ax as int, ay as int, c),
    {
        let ghost b0 = self@;
        let mut i: usize = 0;
        while i < shape.rows.len()
            invariant
                self.wf(),
                self.width == old(self).width,
                self.height == old(self).height,
                b0 == old(self)@,
                board_dims(b0, self.width as int, self.height as int),
                within(b0, shape@, ax as int, ay as int),
                0 <= i <= shape@.len(),
                forall|x: int, y: int| #[trigger] on_board(self@, x, y) ==> self@[y][x] == (
                    if covers(shape@, ax as int, ay as int, x, y) && y - ay < i { c } else { b0[y][x] }),
            decreases shape@.len() - i,
        {
            let row = &shape.rows[i];
            let mut j: usize = 0;
            while j < row.len()
                invariant
                    self.wf(),
                    self.width == old(self).width,
                    self.height == old(self).height,
                    b0 == old(self)@,
                    board_dims(b0, self.width as int, self.height as int),
                    within(b0, shape@, ax as int, ay as int),
                    0 <= i < shape@.len(),
                    row@ == shape@[i as int],
                    0 <= j <= row@.len(),
                    forall|x: int, y: int| #[trigger] on_board(self@, x, y) ==> self@[y][x] == (
                        if covers(shape@, ax as int, ay as int, x, y) && (y - ay < i || (y - ay == i && x - ax < j)) {
                            c
                        } else {
                            b0[y][x]
                        }),
                decreases row@.len() - j,
            {
                if row[j] {
                    assert(occupied(shape@, j as int, i as int));
                    let y = ay + i;
                    let x = ax + j;
                    assert(on_board(b0, x as int, y as int));
                    assert(self@[y as int].len() == self.width);
                    let ghost pre = self@;
                    self.rows[y][x] = c;
                    assert(self@ =~~= pre.update(y as int, pre[y as int].update(x as int, c)));
                    assert forall|x2: int, y2: int| #[trigger] on_board(self@, x2, y2) implies on_board(pre, x2, y2) by {
                        assert(self@[y2].len() == pre[y2].len());
                    }
                }
                j = j + 1;
            }
            i = i + 1;
        }
        let ghost p = paint(b0, shape@, ax as int, ay as int, c);
        assert forall|y: int| 0 <= y < self@.len() implies self@[y] =~= p[y] by {
            assert(self@[y].len() == self.width);
            assert forall|x: int| 0 <= x < self@[y].len() implies self@[y][x] == p[y][x] by {
                assert(on_board(self@, x, y));
            }
        }
        assert(self@ =~= p);
    }

    /// Marks the cells covered by `shape` at `(ax, ay)` as held by piece `id`.
    /// The shape must fit there.
    pub fn place(&mut self, shape: &Shape, ax: usize, ay: usize, id: usize)
        requires
            old(self).wf(),
            fits(old(self)@, shape@, ax as int, ay as int),
        ensures
            final(self).wf(),
            final(self).width == old(self).width,
            final(self).height == old(self).height,
            final(self)@ == placed(old(self)@, shape@, ax as int, ay as int, id),
    {
        self.paint_cells(shape, ax, ay, Cell::Occupied(id));
    }

    /// Clears the cells covered by `shape` at `(ax, ay)`, undoing a `place`
    /// of the same shape at the same anchor.
    pub fn unplace(&mut self, shape: &Shape, ax: usize, ay: usize)
        requires
            old(self).wf(),
            within(old(self)@, shape@, ax as int, ay as int),
        ensures
            final(self).wf(),
            final(self).width == old(self).width,
            final(self).height == old(self).height,
            final(self)@ == unplaced(old(self)@, shape@, ax as int, ay as int),
    {
        self.paint_cells(shape, ax, ay, Cell::Empty);
    }

    /// Whether no cell is empty.
    pub fn is_filled(&self) -> (r: bool)
        requires
            self.wf(),
        ensures
            r == filled(self@),
    {
        let mut y: usize = 0;
        while y < self.height
            invariant
                self.wf(),
                y <= self.height,
                forall|x: int, yy: int| yy < y && on_board(self@, x, yy) ==> #[trigger] self@[yy][x] != Cell::Empty,
            decreases self.height - y,
        {
            let mut x: usize = 0;
            while x < self.width
                invariant
                    self.wf(),
                    y < self.height,
                    x <= self.width,
                    forall|xx: int, yy: int| (yy < y || (yy == y && xx < x)) && on_board(self@, xx, yy)
                        ==> #[trigger] self@[yy][xx] != Cell::Empty,
                decreases self.width - x,
            {
                assert(self@[y as int].len() == self.width);
                if self.rows[y][x] == Cell::Empty {
                    assert(on_board(self@, x as int, y as int));
                    return false;
                }
                x = x + 1;
            }
            y = y + 1;
        }
        true
    }
}

/// Painting keeps the board's dimensions.
pub proof fn lemma_paint_dims(b: Seq<Seq<Cell>>, s: Seq<Seq<bool>>, ax: int, ay: int, c: Cell)
    ensures
        paint(b, s, ax, ay, c).len() == b.len(),
        forall|y: int| 0 <= y < b.len() ==> #[trigger] paint(b, s, ax, ay, c)[y].len() == b[y].len(),
        forall|x: int, y: int| on_board(b, x, y) <==> #[trigger] on_board(paint(b, s, ax, ay, c), x, y),
{
}

/// Clearing a shape right after placing it where it fits gives back the
/// board exactly as it was.
pub proof fn lemma_unplace_restores(b: Seq<Seq<Cell>>, s: Seq<Seq<bool>>, ax: int, ay: int, id: usize)
    requires
        fits(b, s, ax, ay),
    ensures
        unplaced(placed(b, s, ax, ay, id), s, ax, ay) == b,
{
    let p = placed(b, s, ax, ay, id);
    let u = unplaced(p, s, ax, ay);
    assert forall|y: int| 0 <= y < b.len() implies #[trigger] u[y] =~= b[y] by {
        assert forall|x: int| 0 <= x < b[y].len() implies u[y][x] == b[y][x] by {
            if covers(s, ax, ay, x, y) {
                assert(occupied(s, x - ax, y - ay));
            }
        }
    }
    assert(u =~= b);
}

/// One placement: a shape, its anchor and the identity of the piece.
pub type Placement = (Seq<Seq<bool>>, int, int, usize);

/// The board after making the placements of `ps` in order.
pub open spec fn place_all(b: Seq<Seq<Cell>>, ps: Seq<Placement>) -> Seq<Seq<Cell>>
    decreases ps.len(),
{
    if ps.len() == 0 {
        b
    } else {
        let last = ps.last();
        placed(place_all(b, ps.drop_last()), last.0, last.1, last.2, last.3)
    }
}

/// Each placement of `ps` fits on the board left by the ones before it.
pub open spec fn all_fit(b: Seq<Seq<Cell>>, ps: Seq<Placement>) -> bool {
    forall|k: int| 0 <= k < ps.len() ==> fits(#[trigger] place_all(b, ps.take(k)), ps[k].0, ps[k].1, ps[k].2)
}

/// Whether placement `p` covers board cell `(x, y)`.
pub open spec fn claims(p: Placement, x: int, y: int) -> bool {
    covers(p.0, p.1, p.2, x, y)
}

proof fn lemma_place_all_facts(b: Seq<Seq<Cell>>, ps: Seq<Placement>)
    requires
        all_fit(b, ps),
    ensures
        place_all(b, ps).len() == b.len(),
        forall|y: int| 0 <= y < b.len() ==> #[trigger] place_all(b, ps)[y].len() == b[y].len(),
        forall|x: int, y: int| on_board(b, x, y) && b[y][x] != Cell::Empty
            ==> #[trigger] place_all(b, ps)[y][x] == b[y][x],
        forall|k: int, x: int, y: int| 0 <= k < ps.len() && #[trigger] claims(ps[k], x, y)
            ==> on_board(b, x, y) && b[y][x] == Cell::Empty && place_all(b, ps)[y][x] == Cell::Occupied(ps[k].3),
        forall|k1: int, k2: int, x: int, y: int| 0 <= k1 < k2 < ps.len() && #[trigger] claims(ps[k1], x, y)
            ==> !#[trigger] claims(ps[k2], x, y),
    decreases ps.len(),
{
    if ps.len() > 0 {
        let n = ps.len() - 1;
        let pre = ps.drop_last();
        assert forall|k: int| 0 <= k < pre.len() implies fits(#[trigger] place_all(b, pre.take(k)), pre[k].0, pre[k].1, pre[k].2) by {
            assert(pre.take(k) =~= ps.take(k));
            assert(place_all(b, ps.take(k)) == place_all(b, pre.take(k)));
        }
        lemma_place_all_facts(b, pre);
        let bb = place_all(b, pre);
        assert(ps.take(n) =~= pre);
        assert(fits(place_all(b, ps.take(n)), ps[n].0, ps[n].1, ps[n].2));
        assert(fits(bb, ps[n].0, ps[n].1, ps[n].2));
        lemma_paint_dims(bb, ps[n].0, ps[n].1, ps[n].2, Cell::Occupied(ps[n].3));
        assert forall|x: int, y: int| on_board(b, x, y) && b[y][x] != Cell::Empty
            implies #[trigger] place_all(b, ps)[y][x] == b[y][x] by {
            assert(bb[y][x] == b[y][x]);
            if claims(ps[n], x, y) {
                assert(occupied(ps[n].0, x - ps[n].1, y - ps[n].2));
            }
        }
        assert forall|k: int, x: int, y: int| 0 <= k < ps.len() && #[trigger] claims(ps[k], x, y)
            implies on_board(b, x, y) && b[y][x] == Cell::Empty && place_all(b, ps)[y][x] == Cell::Occupied(ps[k].3) by {
            if k < n {
                assert(pre[k] == ps[k]);
                assert(claims(pre[k], x, y));
                if claims(ps[n], x, y) {
                    assert(occupied(ps[n].0, x - ps[n].1, y - ps[n].2));
                }
            } else {
                assert(occupied(ps[n].0, x - ps[n].1, y - ps[n].2));
                if b[y][x] != Cell::Empty {
                    assert(bb[y][x] == b[y][x]);
                }
            }
        }
        assert forall|k1: int, k2: int, x: int, y: int| 0 <= k1 < k2 < ps.len() && #[trigger] claims(ps[k1], x, y)
            implies !#[trigger] claims(ps[k2], x, y) by {
            if k2 < n {
                assert(pre[k1] == ps[k1] && pre[k2] == ps[k2]);
                assert(claims(pre[k1], x, y));
            } else if claims(ps[k2], x, y) {
                assert(pre[k1] == ps[k1]);
                assert(claims(pre[k1], x, y));
                assert(occupied(ps[n].0, x - ps[n].1, y - ps[n].2));
            }
        }
    }
}

/// After a run of placements, each made where it fits on the board left by
/// the ones before, no board cell is claimed by two of them, none claims a
/// cell that was occupied at the start, and each claimed cell holds the
/// identity of the one placement that claims it.
pub proof fn lemma_no_double_coverage(b: Seq<Seq<Cell>>, ps: Seq<Placement>)
    requires
        all_fit(b, ps),
    ensures
        forall|k1: int, k2: int, x: int, y: int| 0 <= k1 < ps.len() && 0 <= k2 < ps.len() && k1 != k2
            && #[trigger] claims(ps[k1], x, y) ==> !#[trigger] claims(ps[k2], x, y),
        forall|k: int, x: int, y: int| 0 <= k < ps.len() && #[trigger] claims(ps[k], x, y)
            ==> on_board(b, x, y) && b[y][x] == Cell::Empty && place_all(b, ps)[y][x] == Cell::Occupied(ps[k].3),
{
    lemma_place_all_facts(b, ps);
    assert forall|k1: int, k2: int, x: int, y: int| 0 <= k1 < ps.len() && 0 <= k2 < ps.len() && k1 != k2
        && #[trigger] claims(ps[k1], x, y) implies !#[trigger] claims(ps[k2], x, y) by {
        if k2 < k1 && claims(ps[k2], x, y) {
            assert(!claims(ps[k1], x, y));
        }
    }
}

} // verus!
