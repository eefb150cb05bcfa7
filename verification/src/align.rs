use crate::alignment::{AlignmentView, PWAlignment};
use crate::error::AlignError;
use crate::grid::{came_across, came_down, cell, filled, Variant};
use crate::scoring::ScoringView;
use crate::step::StepView;
use crate::traceback::has_shape;
use vstd::prelude::*;

verus! {

/// Whether the cell was derived from the cell up and left of it: a step
/// that sets a symbol of the top sequence over one of the bottom sequence.
pub open spec fn came_diagonally(s: StepView) -> bool {
    s.i > 0 && s.j > 0 && s.next == Some(((s.i - 1) as nat, (s.j - 1) as nat))
}

/// Whether the cell has no backpointer or points back at one of the three
/// cells it can be derived from.
pub open spec fn links_back(s: StepView) -> bool {
    s.next is None || came_diagonally(s) || came_down(s) || came_across(s)
}

/// Whether the cell in row `i`, column `j` of `grid` knows its place and
/// links back to a neighbour, if to any cell.
pub open spec fn in_place(grid: Seq<Seq<StepView>>, i: int, j: int) -> bool {
    grid[i][j].i == i && grid[i][j].j == j && links_back(grid[i][j])
}

/// What holds of every alignment result for `top` and `bottom`, whichever
/// algorithm produced it: the two aligned rows have the same length, the
/// sequences are kept as they were given, and the grid has a cell for every
/// pair of a row from zero to the length of `bottom` and a column from zero
/// to the length of `top`, each in its place.
pub open spec fn sound(v: AlignmentView, top: Seq<u8>, bottom: Seq<u8>) -> bool {
    &&& v.a.len() == v.b.len()
    &&& v.a_orig == top
    &&& v.b_orig == bottom
    &&& has_shape(v.grid, bottom.len() + 1, top.len() + 1)
    &&& forall|i: int, j: int|
        0 <= i <= bottom.len() && 0 <= j <= top.len() ==> #[trigger] in_place(v.grid, i, j)
}

/// An algorithm that aligns two sequences under a scoring configuration.
/// An instance holds the two sequences and the configuration; `align` runs
/// the algorithm on them.
pub trait PWAlign {
    /// The sequence that runs along the columns of the grid.
    spec fn top(&self) -> Seq<u8>;

    /// The sequence that runs along the rows of the grid.
    spec fn bottom(&self) -> Seq<u8>;

    /// The scoring configuration.
    spec fn scoring(&self) -> ScoringView;

    /// The alignment that the algorithm gives for these sequences under this
    /// configuration.
    spec fn alignment(&self) -> AlignmentView;

    /// Runs the algorithm. It fails with `EmptyInput` if a sequence is
    /// empty, else with `UnknownSymbol` if the matrix does not list a symbol
    /// of one of them, and in every other case returns the alignment, whole.
    fn align(&mut self) -> (r: Result<PWAlignment, AlignError>)
        ensures
            final(self).top() == old(self).top(),
            final(self).bottom() == old(self).bottom(),
            final(self).scoring() == old(self).scoring(),
            is_outcome(
                old(self).top(),
                old(self).bottom(),
                old(self).scoring(),
                old(self).alignment(),
                r,
            ),
    ;
}

/// Whether `r` is what a run on `top` and `bottom` under `sc` returns where
/// `expected` is the alignment that the algorithm gives for them:
/// `EmptyInput` if one of the sequences is empty, else `UnknownSymbol` if
/// the matrix does not list a symbol of one of them, and in every other
/// case that alignment, sound.
pub open spec fn is_outcome(
    top: Seq<u8>,
    bottom: Seq<u8>,
    sc: ScoringView,
    expected: AlignmentView,
    r: Result<PWAlignment, AlignError>,
) -> bool {
    match r {
        Ok(al) => {
            &&& top.len() > 0
            &&& bottom.len() > 0
            &&& sc.covers(top)
            &&& sc.covers(bottom)
            &&& al@ == expected
            &&& sound(al@, top, bottom)
        },
        Err(e) => if top.len() == 0 || bottom.len() == 0 {
            e == AlignError::EmptyInput
        } else {
            &&& e == AlignError::UnknownSymbol
            &&& !(sc.covers(top) && sc.covers(bottom))
        },
    }
}

/// Every cell of a filled grid knows its place and links back to a
/// neighbour, if to any cell.
pub proof fn lemma_filled_in_place(
    variant: Variant,
    a: Seq<u8>,
    b: Seq<u8>,
    sc: ScoringView,
    i: nat,
    j: nat,
)
    requires
        i <= b.len(),
        j <= a.len(),
    ensures
        in_place(filled(variant, a, b, sc), i as int, j as int),
        filled(variant, a, b, sc)[i as int][j as int] == cell(variant, a, b, sc, i, j),
{
}

/// A filled grid has one row more than `b` has symbols and one column more
/// than `a` has.
pub proof fn lemma_filled_shape(variant: Variant, a: Seq<u8>, b: Seq<u8>, sc: ScoringView)
    ensures
        has_shape(filled(variant, a, b, sc), b.len() + 1, a.len() + 1),
{
}

} // verus!
