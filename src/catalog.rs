use vstd::prelude::*;
use crate::shape::{Shape, has_cell};

verus! {

/// A piece: its name, unique within a catalog, and its orientations.
#[derive(Clone, Debug)]
pub struct Piece {
    pub name: String,
    pub orientations: Vec<Shape>,
}

/// Why a catalog or an instance is rejected before any search.
#[derive(Clone, Copy, Debug, PartialEq, Eq, Structural)]
pub enum ConfigError {
    /// The catalog piece at this index has no orientation.
    NoOrientations(usize),
    /// Orientation `.1` of catalog piece `.0` covers no cell.
    EmptyShape(usize, usize),
    /// The catalog piece at this index repeats the name of an earlier one.
    DuplicateName(usize),
    /// The pre-placed piece at this index names no catalog piece.
    UnknownPiece(usize),
    /// The pre-placed piece at this index reaches off the board.
    OutOfBounds(usize),
    /// The pre-placed piece at this index covers a cell already taken.
    Overlap(usize),
}

/// The pieces a puzzle draws from, in a fixed order. A piece's identity is
/// its index here.
#[derive(Clone, Debug)]
pub struct Catalog {
    pub pieces: Vec<Piece>,
}

/// What the search needs of a catalog: each piece's orientations.
pub type ShapesView = Seq<Seq<Seq<Seq<bool>>>>;

impl View for Catalog {
    type V = ShapesView;

    open spec fn view(&self) -> ShapesView {
        self.pieces@.map_values(|p: Piece| p.orientations@.map_values(|s: Shape| s@))
    }
}

/// The first piece, in catalog order, that breaks a load rule, if any.
pub open spec fn load_error(pieces: Seq<Piece>) -> Option<ConfigError>
    decreases pieces.len(),
{
    if pieces.len() == 0 {
        None
    } else {
        let k = pieces.len() - 1;
        let p = pieces[k];
        match load_error(pieces.drop_last()) {
            Some(e) => Some(e),
            None => if p.orientations@.len() == 0 {
                Some(ConfigError::NoOrientations(k as usize))
            } else if exists|o: int| 0 <= o < p.orientations@.len() && !has_cell(#[trigger] p.orientations@[o]@) {
                Some(ConfigError::EmptyShape(k as usize, first_empty_shape(p.orientations@) as usize))
            } else if exists|j: int| 0 <= j < k && #[trigger] pieces[j].name@ == p.name@ {
                Some(ConfigError::DuplicateName(k as usize))
            } else {
                None
            },
        }
    }
}

/// The index of the first orientation that covers no cell.
pub open spec fn first_empty_shape(os: Seq<Shape>) -> int
    decreases os.len(),
{
    if os.len() == 0 {
        0
    } else if !has_cell(os[0]@) {
        0
    } else {
        1 + first_empty_shape(os.drop_first())
    }
}

/// Every piece has an orientation, every orientation covers a cell and no
/// two pieces share a name.
pub open spec fn pieces_wf(pieces: Seq<Piece>) -> bool {
    &&& forall|k: int| 0 <= k < pieces.len() ==> #[trigger] pieces[k].orientations@.len() > 0
    &&& forall|k: int, o: int| 0 <= k < pieces.len() && 0 <= o < pieces[k].orientations@.len()
        ==> has_cell(#[trigger] pieces[k].orientations@[o]@)
    &&& forall|j: int, k: int| 0 <= j < k < pieces.len() ==> #[trigger] pieces[j].name@ != #[trigger] pieces[k].name@
}

impl Catalog {
    pub open spec fn wf(&self) -> bool {
        pieces_wf(self.pieces@)
    }

    /// The names of the pieces, in order.
    pub open spec fn names(&self) -> Seq<Seq<char>> {
        self.pieces@.map_values(|p: Piece| p.name@)
    }

    /// Accepts `pieces` as a catalog, or names the first piece that breaks a
    /// load rule.
    #[verifier::loop_isolation(false)]
    pub fn new(pieces: Vec<Piece>) -> (r: Result<Catalog, ConfigError>)
        ensures
            match load_error(pieces@) {
                None => r is Ok && r->Ok_0.pieces@ == pieces@ && r->Ok_0.wf(),
                Some(e) => r == Err::<Catalog, ConfigError>(e),
            },
    {
        let mut k: usize = 0;
        while k < pieces.len()
            invariant
                k <= pieces@.len(),
                load_error(pieces@.take(k as int)) is None,
                pieces_wf(pieces@.take(k as int)),
            decreases pieces@.len() - k,
        {
            let ghost pre = pieces@.take(k as int);
            let ghost cur = pieces@.take(k as int + 1);
            assert(cur.drop_last() =~= pre);
            let p = &pieces[k];
            assert(cur[k as int] == *p);
            if p.orientations.len() == 0 {
                proof { lemma_take_full(pieces@, k as int); }
                return Err(ConfigError::NoOrientations(k));
            }
            let mut o: usize = 0;
            while o < p.orientations.len()
                invariant
                    o <= p.orientations@.len(),
                    forall|q: int| 0 <= q < o ==> has_cell(#[trigger] p.orientations@[q]@),
                decreases p.orientations@.len() - o,
            {
                if !p.orientations[o].has_occupied() {
                    proof {
                        lemma_first_empty_shape(p.orientations@, o as int);
                        lemma_take_full(pieces@, k as int);
                    }
                    return Err(ConfigError::EmptyShape(k, o));
                }
                o = o + 1;
            }
            let mut j: usize = 0;
            while j < k
                invariant
                    j <= k < pieces@.len(),
                    *p == pieces@[k as int],
                    forall|q: int| 0 <= q < j ==> #[trigger] pieces@[q].name@ != p.name@,
                decreases k - j,
            {
                if pieces[j].name == p.name {
                    proof {
                        assert(cur[j as int].name@ == cur[k as int].name@);
                        lemma_take_full(pieces@, k as int);
                    }
                    return Err(ConfigError::DuplicateName(k));
                }
                j = j + 1;
            }
            proof {
                assert(forall|q: int| 0 <= q < k ==> #[trigger] cur[q] == pieces@[q]);
                assert forall|jj: int, kk: int| 0 <= jj < kk < cur.len() implies #[trigger] cur[jj].name@ != #[trigger] cur[kk].name@ by {
                    if kk < k {
                        assert(cur[jj] == pre[jj] && cur[kk] == pre[kk]);
                    }
                }
            }
            k = k + 1;
        }
        assert(pieces@.take(pieces@.len() as int) =~= pieces@);
        Ok(Catalog { pieces })
    }

    /// The number of pieces.
    pub fn len(&self) -> (n: usize)
        ensures
            n == self.pieces@.len(),
            n == self@.len(),
    {
        self.pieces.len()
    }

    /// The identity of the piece called `name`, if there is one.
    pub fn find(&self, name: &String) -> (r: Option<usize>)
        ensures
            match r {
                Some(i) => i < self.pieces@.len() && self.pieces@[i as int].name@ == name@,
                None => forall|i: int| 0 <= i < self.pieces@.len() ==> #[trigger] self.pieces@[i].name@ != name@,
            },
    {
        let mut i: usize = 0;
        while i < self.pieces.len()
            invariant
                i <= self.pieces@.len(),
                forall|q: int| 0 <= q < i ==> #[trigger] self.pieces@[q].name@ != name@,
            decreases self.pieces@.len() - i,
        {
            if self.pieces[i].name == *name {
                return Some(i);
            }
            i = i + 1;
        }
        None
    }
}

proof fn lemma_first_empty_shape(os: Seq<Shape>, o: int)
    requires
        0 <= o < os.len(),
        forall|q: int| 0 <= q < o ==> has_cell(#[trigger] os[q]@),
        !has_cell(os[o]@),
    ensures
        first_empty_shape(os) == o,
    decreases o,
{
    if o > 0 {
        let t = os.drop_first();
        assert forall|q: int| 0 <= q < o - 1 implies has_cell(#[trigger] t[q]@) by {
            assert(t[q] == os[q + 1]);
        }
        assert(has_cell(os[0]@));
        lemma_first_empty_shape(t, o - 1);
    }
}

/// The error found at piece `k` is the catalog's error, once every piece
/// before it passed.
proof fn lemma_take_full(pieces: Seq<Piece>, k: int)
    requires
        0 <= k < pieces.len(),
        load_error(pieces.take(k)) is None,
        load_error(pieces.take(k + 1)) is Some,
    ensures
        load_error(pieces) == load_error(pieces.take(k + 1)),
    decreases pieces.len(),
{
    if pieces.len() > k + 1 {
        let d = pieces.drop_last();
        assert(d.take(k) =~= pieces.take(k));
        assert(d.take(k + 1) =~= pieces.take(k + 1));
        lemma_take_full(d, k);
    } else {
        assert(pieces.take(k + 1) =~= pieces);
    }
}

} // verus!
