use vstd::prelude::*;

verus! {

/// The occupancy pattern of one orientation of a piece: rows of cells, each
/// cell `true` where the piece covers that offset from its anchor.
#[derive(Clone, Debug)]
pub struct Shape {
    pub rows: Vec<Vec<bool>>,
}

impl View for Shape {
    type V = Seq<Seq<bool>>;

    open spec fn view(&self) -> Seq<Seq<bool>> {
        self.rows@.map_values(|r: Vec<bool>| r@)
    }
}

/// Whether offset `(dx, dy)` of `s` is covered.
pub open spec fn occupied(s: Seq<Seq<bool>>, dx: int, dy: int) -> bool {
    0 <= dy < s.len() && 0 <= dx < s[dy].len() && s[dy][dx]
}

/// At least one offset is covered.
pub open spec fn has_cell(s: Seq<Seq<bool>>) -> bool {
    exists|dx: int, dy: int| #[trigger] occupied(s, dx, dy)
}

impl Shape {
    /// Whether at least one offset is covered.
    pub fn has_occupied(&self) -> (r: bool)
        ensures
            r == has_cell(self@),
    {
        let mut i: usize = 0;
        while i < self.rows.len()
            invariant
                0 <= i <= self@.len(),
                forall|dx: int, dy: int| dy < i ==> !#[trigger] occupied(self@, dx, dy),
            decreases self@.len() - i,
        {
            let row = &self.rows[i];
            let mut j: usize = 0;
            while j < row.len()
                invariant
                    0 <= i < self@.len(),
                    row@ == self@[i as int],
                    0 <= j <= row@.len(),
                    forall|dx: int, dy: int| (dy < i || (dy == i && dx < j)) ==> !#[trigger] occupied(self@, dx, dy),
                decreases row@.len() - j,
            {
                if row[j] {
                    assert(occupied(self@, j as int, i as int));
                    return true;
                }
                j = j + 1;
            }
            i = i + 1;
        }
        false
    }
}

} // verus!
