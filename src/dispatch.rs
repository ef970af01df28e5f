use vstd::prelude::*;
use crate::shape::Shape;
use crate::grid::{Grid, empty_board, within, fits, placed, filled};
use crate::catalog::{Catalog, ConfigError};
use crate::solver::{Board, search, solve, none_used, order_valid};

verus! {

/// A piece fixed on the board before the search: the catalog name it
/// stands for, its anchor and the orientation it was placed in.
#[derive(Clone, Debug)]
pub struct PlacedPiece {
    pub name: String,
    pub x: usize,
    pub y: usize,
    pub shape: Shape,
}

/// Whether some catalog piece is called `n`.
pub open spec fn known(names: Seq<Seq<char>>, n: Seq<char>) -> bool {
    exists|i: int| 0 <= i < names.len() && names[i] == n
}

/// The catalog index of the piece called `n`.
pub open spec fn name_index(names: Seq<Seq<char>>, n: Seq<char>) -> int {
    choose|i: int| 0 <= i < names.len() && names[i] == n
}

/// The board of `w` by `h` cells with the pieces of `ps` placed in order,
/// each as its catalog identity, and which identities they took; or the
/// first pre-placed piece that names no catalog piece, reaches off the board
/// or overlaps one before it.
pub open spec fn seed(w: int, h: int, names: Seq<Seq<char>>, ps: Seq<PlacedPiece>) -> Result<(Board, Seq<bool>), ConfigError>
    decreases ps.len(),
{
    if ps.len() == 0 {
        Ok((empty_board(w, h), none_used(names.len() as int)))
    } else {
        let k = ps.len() - 1;
        let q = ps[k];
        match seed(w, h, names, ps.drop_last()) {
            Err(e) => Err(e),
            Ok((b, present)) => if !known(names, q.name@) {
                Err(ConfigError::UnknownPiece(k as usize))
            } else if !within(b, q.shape@, q.x as int, q.y as int) {
                Err(ConfigError::OutOfBounds(k as usize))
            } else if !fits(b, q.shape@, q.x as int, q.y as int) {
                Err(ConfigError::Overlap(k as usize))
            } else {
                let id = name_index(names, q.name@);
                Ok((placed(b, q.shape@, q.x as int, q.y as int, id as usize), present.update(id, true)))
            },
        }
    }
}

/// The catalog identities not marked in `present`, in catalog order.
pub open spec fn absent_ids(present: Seq<bool>) -> Seq<usize>
    decreases present.len(),
{
    if present.len() == 0 {
        Seq::empty()
    } else {
        let rest = absent_ids(present.drop_last());
        if present.last() {
            rest
        } else {
            rest.push((present.len() - 1) as usize)
        }
    }
}

/// What an instance comes to: a configuration error, or the search's result
/// on the seeded board with the catalog pieces that the instance did not
/// pre-place.
pub open spec fn instance_result(c: Catalog, w: int, h: int, ps: Seq<PlacedPiece>) -> Result<Option<Board>, ConfigError> {
    match seed(w, h, c.names(), ps) {
        Err(e) => Err(e),
        Ok((b, present)) => Ok(search(b, c@, absent_ids(present), 0, none_used(c@.len() as int))),
    }
}

/// The result of one instance.
#[derive(Clone, Debug)]
pub enum Outcome {
    /// The search filled the board; this is the filled board.
    Solved(Grid),
    /// No arrangement of the remaining pieces fills the board.
    Unsolved,
    /// The instance breaks a configuration rule.
    Invalid(ConfigError),
}

proof fn lemma_absent_ids_valid(present: Seq<bool>)
    ensures
        order_valid(absent_ids(present), present.len() as int),
    decreases present.len(),
{
    if present.len() > 0 {
        lemma_absent_ids_valid(present.drop_last());
    }
}

/// The catalog identities that `present` does not mark, in catalog order.
fn absent(present: &Vec<bool>) -> (r: Vec<usize>)
    ensures
        r@ == absent_ids(present@),
{
    let mut r: Vec<usize> = Vec::new();
    let mut k: usize = 0;
    while k < present.len()
        invariant
            k <= present@.len(),
            r@ == absent_ids(present@.take(k as int)),
        decreases present@.len() - k,
    {
        assert(present@.take(k as int + 1).drop_last() =~= present@.take(k as int));
        if !present[k] {
            r.push(k);
        }
        k = k + 1;
    }
    assert(present@.take(present@.len() as int) =~= present@);
    r
}

/// Places the pre-placed pieces on an empty board of `width` by `height`
/// cells and marks the identities they take.
#[verifier::loop_isolation(false)]
fn seed_grid(catalog: &Catalog, width: usize, height: usize, pieces: &Vec<PlacedPiece>) -> (r: Result<(Grid, Vec<bool>), ConfigError>)
    requires
        catalog.wf(),
    ensures
        match seed(width as int, height as int, catalog.names(), pieces@) {
            Err(e) => r == Err::<(Grid, Vec<bool>), ConfigError>(e),
            Ok((b, present)) => r matches Ok((g, p)) && g.wf() && g.width == width && g.height == height
                && g@ == b && p@ == present && p@.len() == catalog@.len(),
        },
{
    let mut grid = Grid::new(width, height);
    let n = catalog.len();
    let mut present: Vec<bool> = Vec::new();
    let mut k: usize = 0;
    while k < n
        invariant
            k <= n,
            n == catalog@.len(),
            present@ == none_used(k as int),
        decreases n - k,
    {
        present.push(false);
        k = k + 1;
        assert(present@ =~= none_used(k as int));
    }
    assert(catalog.names().len() == n);
    let mut k: usize = 0;
    while k < pieces.len()
        invariant
            k <= pieces@.len(),
            grid.wf(),
            grid.width == width,
            grid.height == height,
            seed(width as int, height as int, catalog.names(), pieces@.take(k as int)) == Ok::<(Board, Seq<bool>), ConfigError>((grid@, present@)),
            present@.len() == n,
        decreases pieces@.len() - k,
    {
        let ghost pre = pieces@.take(k as int);
        let ghost cur = pieces@.take(k as int + 1);
        assert(cur.drop_last() =~= pre);
        let q = &pieces[k];
        assert(cur[k as int] == *q);
        let id = match catalog.find(&q.name) {
            Some(i) => i,
            None => {
                proof {
                    assert(!known(catalog.names(), q.name@));
                    lemma_seed_stops(width as int, height as int, catalog.names(), pieces@, k as int);
                }
                return Err(ConfigError::UnknownPiece(k));
            },
        };
        if !grid.contains_shape(&q.shape, q.x, q.y) {
            proof {
                assert(catalog.names()[id as int] == q.name@);
                lemma_seed_stops(width as int, height as int, catalog.names(), pieces@, k as int);
            }
            return Err(ConfigError::OutOfBounds(k));
        }
        if !grid.fits(&q.shape, q.x, q.y) {
            proof {
                assert(catalog.names()[id as int] == q.name@);
                lemma_seed_stops(width as int, height as int, catalog.names(), pieces@, k as int);
            }
            return Err(ConfigError::Overlap(k));
        }
        proof {
            assert(catalog.names()[id as int] == q.name@);
            let j = name_index(catalog.names(), q.name@);
            assert(catalog.names()[j] == q.name@);
            assert(catalog.pieces@[j].name@ == catalog.pieces@[id as int].name@);
            assert(j == id);
        }
        grid.place(&q.shape, q.x, q.y, id);
        present.set(id, true);
        k = k + 1;
    }
    assert(pieces@.take(pieces@.len() as int) =~= pieces@);
    Ok((grid, present))
}

/// Seeding stops with the error of the first piece that breaks a rule.
proof fn lemma_seed_stops(w: int, h: int, names: Seq<Seq<char>>, ps: Seq<PlacedPiece>, k: int)
    requires
        0 <= k < ps.len(),
        seed(w, h, names, ps.take(k)) is Ok,
        seed(w, h, names, ps.take(k + 1)) is Err,
    ensures
        seed(w, h, names, ps) == seed(w, h, names, ps.take(k + 1)),
    decreases ps.len(),
{
    if ps.len() > k + 1 {
        let d = ps.drop_last();
        assert(d.take(k) =~= ps.take(k));
        assert(d.take(k + 1) =~= ps.take(k + 1));
        lemma_seed_stops(w, h, names, d, k);
    } else {
        assert(ps.take(k + 1) =~= ps);
    }
}

/// Solves one instance: seeds a board of `width` by `height` cells with its
/// pre-placed pieces, then searches with the catalog pieces that it did not
/// pre-place, in catalog order.
pub fn solve_instance(catalog: &Catalog, width: usize, height: usize, pieces: &Vec<PlacedPiece>) -> (r: Outcome)
    requires
        catalog.wf(),
    ensures
        match instance_result(*catalog, width as int, height as int, pieces@) {
            Err(e) => r == Outcome::Invalid(e),
            Ok(None) => r is Unsolved,
            Ok(Some(f)) => r matches Outcome::Solved(g) && g.wf() && g.width == width && g.height == height && g@ == f
                && filled(f),
        },
{
    match seed_grid(catalog, width, height, pieces) {
        Err(e) => Outcome::Invalid(e),
        Ok((grid, present)) => {
            let mut grid = grid;
            let order = absent(&present);
            proof { lemma_absent_ids_valid(present@); }
            if solve(&mut grid, catalog, &order) {
                Outcome::Solved(grid)
            } else {
                Outcome::Unsolved
            }
        },
    }
}

/// Which of the three results an instance has: 0 solved, 1 unsolved,
/// 2 invalid.
pub open spec fn kind(r: Result<Option<Board>, ConfigError>) -> int {
    match r {
        Ok(Some(_)) => 0,
        Ok(None) => 1,
        Err(_) => 2,
    }
}

/// How many instances with index in `lo..hi` have result kind `k`.
pub open spec fn count(c: Catalog, w: int, h: int, insts: Seq<Vec<PlacedPiece>>, lo: int, hi: int, k: int) -> nat
    decreases hi - lo,
{
    if hi <= lo {
        0
    } else {
        count(c, w, h, insts, lo, hi - 1, k) + if kind(instance_result(c, w, h, insts[hi - 1]@)) == k { 1nat } else { 0nat }
    }
}

/// The three counts of a range of instances.
#[derive(Clone, Copy, Debug, PartialEq, Eq, Structural)]
pub struct Tally {
    pub solved: usize,
    pub unsolved: usize,
    pub invalid: usize,
}

impl Tally {
    /// The counts of `lo..hi`.
    pub open spec fn counts(&self, c: Catalog, w: int, h: int, insts: Seq<Vec<PlacedPiece>>, lo: int, hi: int) -> bool {
        &&& self.solved == count(c, w, h, insts, lo, hi, 0)
        &&& self.unsolved == count(c, w, h, insts, lo, hi, 1)
        &&& self.invalid == count(c, w, h, insts, lo, hi, 2)
    }

    /// The field-wise sum of two tallies, or `None` where a sum does not
    /// fit in a `usize`.
    pub fn merge(&self, other: &Tally) -> (r: Option<Tally>)
        ensures
            match r {
                Some(t) => t.solved == self.solved + other.solved && t.unsolved == self.unsolved + other.unsolved
                    && t.invalid == self.invalid + other.invalid,
                None => self.solved + other.solved > usize::MAX || self.unsolved + other.unsolved > usize::MAX
                    || self.invalid + other.invalid > usize::MAX,
            },
    {
        match (self.solved.checked_add(other.solved), self.unsolved.checked_add(other.unsolved), self.invalid.checked_add(other.invalid)) {
            (Some(s), Some(u), Some(i)) => Some(Tally { solved: s, unsolved: u, invalid: i }),
            _ => None,
        }
    }
}

proof fn lemma_count_bound(c: Catalog, w: int, h: int, insts: Seq<Vec<PlacedPiece>>, lo: int, hi: int)
    requires
        lo <= hi,
    ensures
        count(c, w, h, insts, lo, hi, 0) + count(c, w, h, insts, lo, hi, 1) + count(c, w, h, insts, lo, hi, 2) == hi - lo,
    decreases hi - lo,
{
    if hi > lo {
        lemma_count_bound(c, w, h, insts, lo, hi - 1);
    }
}

/// Solves the instances with index in `lo..hi` one after another and counts
/// their results.
pub fn tally(catalog: &Catalog, width: usize, height: usize, instances: &Vec<Vec<PlacedPiece>>, lo: usize, hi: usize) -> (t: Tally)
    requires
        catalog.wf(),
        lo <= hi <= instances@.len(),
    ensures
        t.counts(*catalog, width as int, height as int, instances@, lo as int, hi as int),
{
    let ghost (c, w, h, insts) = (*catalog, width as int, height as int, instances@);
    let mut t = Tally { solved: 0, unsolved: 0, invalid: 0 };
    let mut i: usize = lo;
    while i < hi
        invariant
            lo <= i <= hi <= instances@.len(),
            catalog.wf(),
            c == *catalog && w == width && h == height && insts == instances@,
            t.counts(c, w, h, insts, lo as int, i as int),
        decreases hi - i,
    {
        proof { lemma_count_bound(c, w, h, insts, lo as int, i as int); }
        match solve_instance(catalog, width, height, &instances[i]) {
            Outcome::Solved(_) => t.solved = t.solved + 1,
            Outcome::Unsolved => t.unsolved = t.unsolved + 1,
            Outcome::Invalid(_) => t.invalid = t.invalid + 1,
        }
        i = i + 1;
    }
    t
}

/// Solves every instance and counts the results.
pub fn solve_all(catalog: &Catalog, width: usize, height: usize, instances: &Vec<Vec<PlacedPiece>>) -> (t: Tally)
    requires
        catalog.wf(),
    ensures
        t.counts(*catalog, width as int, height as int, instances@, 0, instances@.len() as int),
{
    tally(catalog, width, height, instances, 0, instances.len())
}

/// `r` cuts `lo..hi` into consecutive ranges, in order.
pub open spec fn splits(r: Seq<(usize, usize)>, lo: int, hi: int) -> bool
    decreases r.len(),
{
    if r.len() == 0 {
        lo == hi
    } else {
        r.last().0 <= r.last().1 && r.last().1 == hi && splits(r.drop_last(), lo, r.last().0 as int)
    }
}

/// The sum over the ranges of `r` of their count of result kind `k`.
pub open spec fn range_total(c: Catalog, w: int, h: int, insts: Seq<Vec<PlacedPiece>>, r: Seq<(usize, usize)>, k: int) -> nat
    decreases r.len(),
{
    if r.len() == 0 {
        0
    } else {
        range_total(c, w, h, insts, r.drop_last(), k) + count(c, w, h, insts, r.last().0 as int, r.last().1 as int, k)
    }
}

proof fn lemma_count_split(c: Catalog, w: int, h: int, insts: Seq<Vec<PlacedPiece>>, lo: int, mid: int, hi: int, k: int)
    requires
        lo <= mid <= hi,
    ensures
        count(c, w, h, insts, lo, hi, k) == count(c, w, h, insts, lo, mid, k) + count(c, w, h, insts, mid, hi, k),
    decreases hi - mid,
{
    if hi > mid {
        lemma_count_split(c, w, h, insts, lo, mid, hi - 1, k);
    }
}

proof fn lemma_range_total(c: Catalog, w: int, h: int, insts: Seq<Vec<PlacedPiece>>, r: Seq<(usize, usize)>, lo: int, hi: int, k: int)
    requires
        splits(r, lo, hi),
    ensures
        lo <= hi,
        range_total(c, w, h, insts, r, k) == count(c, w, h, insts, lo, hi, k),
    decreases r.len(),
{
    if r.len() > 0 {
        let mid = r.last().0 as int;
        lemma_range_total(c, w, h, insts, r.drop_last(), lo, mid, k);
        lemma_count_split(c, w, h, insts, lo, mid, hi, k);
    }
}

/// However the instances `0..n` are cut into consecutive batches, the
/// batches' counts of solved (and of unsolved, and of invalid) instances
/// add up to the same totals: those of the whole range.
pub proof fn lemma_batches_agree(
    c: Catalog, w: int, h: int, insts: Seq<Vec<PlacedPiece>>, n: int,
    r1: Seq<(usize, usize)>, r2: Seq<(usize, usize)>,
)
    requires
        splits(r1, 0, n),
        splits(r2, 0, n),
    ensures
        forall|k: int| #[trigger] range_total(c, w, h, insts, r1, k) == count(c, w, h, insts, 0, n, k),
        forall|k: int| range_total(c, w, h, insts, r1, k) == #[trigger] range_total(c, w, h, insts, r2, k),
{
    assert forall|k: int| #[trigger] range_total(c, w, h, insts, r1, k) == count(c, w, h, insts, 0, n, k) by {
        lemma_range_total(c, w, h, insts, r1, 0, n, k);
    }
    assert forall|k: int| range_total(c, w, h, insts, r1, k) == #[trigger] range_total(c, w, h, insts, r2, k) by {
        lemma_range_total(c, w, h, insts, r1, 0, n, k);
        lemma_range_total(c, w, h, insts, r2, 0, n, k);
    }
}

/// Every range of `r` holds from one to `size` indices, and all but the
/// last hold exactly `size`.
pub open spec fn chunked(r: Seq<(usize, usize)>, size: int) -> bool {
    &&& forall|k: int| 0 <= k < r.len() ==> #[trigger] r[k].0 < r[k].1 <= r[k].0 + size
    &&& forall|k: int| 0 <= k < r.len() - 1 ==> #[trigger] r[k].1 == r[k].0 + size
}

/// Cuts `0..n` into consecutive ranges of `size` indices, the last one
/// possibly shorter.
pub fn batch_ranges(n: usize, size: usize) -> (r: Vec<(usize, usize)>)
    requires
        size >= 1,
    ensures
        splits(r@, 0, n as int),
        chunked(r@, size as int),
{
    let mut r: Vec<(usize, usize)> = Vec::new();
    let mut pos: usize = 0;
    while pos < n
        invariant
            pos <= n,
            size >= 1,
            splits(r@, 0, pos as int),
            chunked(r@, size as int),
            r@.len() > 0 ==> r@.last().1 == pos,
            r@.len() > 0 && r@.last().1 != r@.last().0 + size ==> pos == n,
        decreases n - pos,
    {
        let end = if n - pos > size { pos + size } else { n };
        let ghost old_r = r@;
        r.push((pos, end));
        assert(r@.drop_last() =~= old_r);
        assert forall|k: int| 0 <= k < r@.len() - 1 implies #[trigger] r@[k].1 == r@[k].0 + size by {
            assert(r@[k] == old_r[k]);
            if k == r@.len() - 2 {
                assert(old_r[k].1 == pos);
                assert(old_r[k].1 <= old_r[k].0 + size);
            }
        }
        pos = end;
    }
    r
}

/// Relies on num_cpus::get: the number of CPUs this process may run on,
/// which it documents as never below one.
#[verifier::external_body]
fn worker_count() -> (n: usize)
    ensures
        n >= 1,
{
    num_cpus::get()
}

/// Cuts `0..n` into batches for the workers: consecutive ranges of as many
/// instances as there are CPUs to run on, the last one possibly shorter.
pub fn plan_batches(n: usize) -> (r: Vec<(usize, usize)>)
    ensures
        splits(r@, 0, n as int),
        exists|size: int| size >= 1 && #[trigger] chunked(r@, size),
{
    let size = worker_count();
    let r = batch_ranges(n, size);
    assert(chunked(r@, size as int));
    r
}

} // verus!
