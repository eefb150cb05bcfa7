use crate::align::{
    in_place, is_outcome, lemma_filled_in_place, lemma_filled_shape, sound, PWAlign,
};
use crate::alignment::{grid_view, AlignmentView, PWAlignment};
use crate::error::AlignError;
use crate::grid::{cell, fill_grid, filled, lemma_scorable_covers, Variant};
use crate::scoring::{Scoring, ScoringView};
use crate::step::{Step, StepView};
use crate::traceback::{has_shape, lemma_traced_rows_agree, traceback, traced};
use vstd::prelude::*;

verus! {

/// The score of the cell in row `i`, column `j` of `grid`.
pub open spec fn value_at(grid: Seq<Seq<StepView>>, i: int, j: int) -> int {
    grid[i][j].val
}

/// Whether the cell in row `i1`, column `j1` is met before the one in row
/// `i2`, column `j2` when the grid is read row by row.
pub open spec fn comes_before(i1: int, j1: int, i2: int, j2: int) -> bool {
    i1 < i2 || (i1 == i2 && j1 < j2)
}

/// Whether the cell in row `bi`, column `bj` is the best of the first `rows`
/// rows of `grid`, of which `upto` cells of the last count and all cells of
/// the others: no cell among them scores higher, and every cell met before
/// it scores lower.
pub open spec fn is_first_best_within(
    grid: Seq<Seq<StepView>>,
    rows: int,
    cols: int,
    upto: int,
    bi: int,
    bj: int,
) -> bool {
    &&& 0 <= bi < rows
    &&& 0 <= bj < cols
    &&& bi == rows - 1 ==> bj < upto
    &&& forall|i: int, j: int|
        0 <= i < rows && 0 <= j < cols && (i == rows - 1 ==> j < upto) ==> #[trigger] value_at(
            grid,
            i,
            j,
        ) <= value_at(grid, bi, bj)
    &&& forall|i: int, j: int|
        0 <= i < rows && 0 <= j < cols && comes_before(i, j, bi, bj) ==> #[trigger] value_at(
            grid,
            i,
            j,
        ) < value_at(grid, bi, bj)
}

/// Whether the cell in row `bi`, column `bj` is the best of a grid of `rows`
/// rows and `cols` columns, and the first such cell when the grid is read
/// row by row.
pub open spec fn is_first_best(grid: Seq<Seq<StepView>>, rows: int, cols: int, bi: int, bj: int) -> bool {
    is_first_best_within(grid, rows, cols, cols, bi, bj)
}

/// The row and column of the first best cell of the grid.
pub open spec fn first_best(grid: Seq<Seq<StepView>>, rows: int, cols: int) -> (int, int) {
    choose|p: (int, int)| is_first_best(grid, rows, cols, p.0, p.1)
}

/// A grid has one first best cell at most.
pub proof fn lemma_first_best_unique(
    grid: Seq<Seq<StepView>>,
    rows: int,
    cols: int,
    bi: int,
    bj: int,
)
    requires
        is_first_best(grid, rows, cols, bi, bj),
    ensures
        first_best(grid, rows, cols) == (bi, bj),
{
    let p = first_best(grid, rows, cols);
    assert(is_first_best(grid, rows, cols, (bi, bj).0, (bi, bj).1));
    assert(is_first_best(grid, rows, cols, p.0, p.1));
    if comes_before(p.0, p.1, bi, bj) {
        assert(value_at(grid, p.0, p.1) < value_at(grid, bi, bj));
        assert(value_at(grid, bi, bj) <= value_at(grid, p.0, p.1));
    } else if comes_before(bi, bj, p.0, p.1) {
        assert(value_at(grid, bi, bj) < value_at(grid, p.0, p.1));
        assert(value_at(grid, p.0, p.1) <= value_at(grid, bi, bj));
    }
}

/// The local alignment of `a` on top and `b` below: the grid filled by the
/// local recurrence, the pair traced from its first best cell back to the
/// first cell without a backpointer, and the score of that best cell.
pub open spec fn local_alignment(a: Seq<u8>, b: Seq<u8>, sc: ScoringView) -> AlignmentView {
    let grid = filled(Variant::Local, a, b, sc);
    let best = first_best(grid, b.len() as int + 1, a.len() as int + 1);
    let pair = traced(grid, a, b, best.0 as nat, best.1 as nat);
    AlignmentView {
        grid,
        a: pair.0,
        b: pair.1,
        a_orig: a,
        b_orig: b,
        score: grid[best.0][best.1].val,
    }
}

/// No cell of a local grid scores below zero, and a cell that points back
/// scores above zero.
pub proof fn lemma_local_floor(a: Seq<u8>, b: Seq<u8>, sc: ScoringView, i: nat, j: nat)
    ensures
        cell(Variant::Local, a, b, sc, i, j).val >= 0,
        cell(Variant::Local, a, b, sc, i, j).next is Some ==> cell(
            Variant::Local,
            a,
            b,
            sc,
            i,
            j,
        ).val > 0,
{
}

/// Whether no cell of `grid` scores below zero and every cell that points
/// back scores above zero.
pub open spec fn floored(grid: Seq<Seq<StepView>>) -> bool {
    forall|i: int, j: int|
        0 <= i < grid.len() && 0 <= j < grid[i].len() ==> {
            &&& #[trigger] value_at(grid, i, j) >= 0
            &&& grid[i][j].next is Some ==> value_at(grid, i, j) > 0
        }
}

/// The grid of a local alignment is floored.
pub proof fn lemma_local_floored(a: Seq<u8>, b: Seq<u8>, sc: ScoringView)
    ensures
        floored(local_alignment(a, b, sc).grid),
{
    let grid = filled(Variant::Local, a, b, sc);
    assert forall|i: int, j: int| 0 <= i < grid.len() && 0 <= j < grid[i].len() implies {
        &&& #[trigger] value_at(grid, i, j) >= 0
        &&& grid[i][j].next is Some ==> value_at(grid, i, j) > 0
    } by {
        lemma_local_floor(a, b, sc, i as nat, j as nat);
    }
}

/// A local alignment is sound.
pub proof fn lemma_local_sound(a: Seq<u8>, b: Seq<u8>, sc: ScoringView)
    ensures
        sound(local_alignment(a, b, sc), a, b),
{
    let v = local_alignment(a, b, sc);
    let best = first_best(v.grid, b.len() as int + 1, a.len() as int + 1);
    lemma_traced_rows_agree(v.grid, a, b, best.0 as nat, best.1 as nat);
    lemma_filled_shape(Variant::Local, a, b, sc);
    assert forall|i: int, j: int| 0 <= i <= b.len() && 0 <= j <= a.len() implies #[trigger] in_place(
        v.grid,
        i,
        j,
    ) by {
        lemma_filled_in_place(Variant::Local, a, b, sc, i as nat, j as nat);
    }
}

/// The row and column of the best cell of `grid`. Of cells with the same
/// score the one in the lowest row wins, and in that row the one in the
/// lowest column.
pub fn best_cell(grid: &Vec<Vec<Step>>, rows: usize, cols: usize) -> (r: (usize, usize))
    requires
        rows > 0,
        cols > 0,
        has_shape(grid_view(grid@), rows as nat, cols as nat),
    ensures
        is_first_best(grid_view(grid@), rows as int, cols as int, r.0 as int, r.1 as int),
{
    let ghost g = grid_view(grid@);
    assert(g[0].len() == cols);
    let mut best: Step = grid[0][0];
    let mut bi: usize = 0;
    let mut bj: usize = 0;
    let mut i: usize = 0;
    while i < rows
        invariant
            i <= rows,
            rows > 0,
            cols > 0,
            g == grid_view(grid@),
            has_shape(g, rows as nat, cols as nat),
            best@.val == value_at(g, bi as int, bj as int),
            i == 0 ==> bi == 0 && bj == 0,
            i > 0 ==> is_first_best_within(g, i as int, cols as int, cols as int, bi as int, bj as int),
        decreases rows - i,
    {
        assert(g[i as int].len() == cols);
        let mut j: usize = 0;
        while j < cols
            invariant
                j <= cols,
                i < rows,
                cols > 0,
                g == grid_view(grid@),
                has_shape(g, rows as nat, cols as nat),
                g[i as int].len() == cols,
                best@.val == value_at(g, bi as int, bj as int),
                i == 0 && j == 0 ==> bi == 0 && bj == 0,
                i > 0 && j == 0 ==> is_first_best_within(
                    g,
                    i as int,
                    cols as int,
                    cols as int,
                    bi as int,
                    bj as int,
                ),
                j > 0 ==> is_first_best_within(
                    g,
                    i + 1,
                    cols as int,
                    j as int,
                    bi as int,
                    bj as int,
                ),
            decreases cols - j,
        {
            let here: Step = grid[i][j];
            assert(here@.val == value_at(g, i as int, j as int));
            if here > best {
                best = here;
                bi = i;
                bj = j;
            }
            j = j + 1;
        }
        i = i + 1;
    }
    (bi, bj)
}

/// Local alignment of the best-scoring subregion of two sequences.
pub struct SmithWaterman {
    a: Vec<u8>,
    b: Vec<u8>,
    scoring: Scoring,
}

impl SmithWaterman {
    #[verifier::type_invariant]
    spec fn inv(self) -> bool {
        self.a@.len() < usize::MAX && self.b@.len() < usize::MAX
    }

    /// An aligner for `a` on top and `b` below under `scoring`. The grid has
    /// one column more than `a` has symbols and one row more than `b` has,
    /// and both counts have to fit the machine.
    pub fn new(a: Vec<u8>, b: Vec<u8>, scoring: Scoring) -> (r: SmithWaterman)
        requires
            a.len() < usize::MAX,
            b.len() < usize::MAX,
        ensures
            r.top() == a@,
            r.bottom() == b@,
            r.scoring() == scoring@,
    {
        SmithWaterman { a, b, scoring }
    }
}

impl PWAlign for SmithWaterman {
    closed spec fn top(&self) -> Seq<u8> {
        self.a@
    }

    closed spec fn bottom(&self) -> Seq<u8> {
        self.b@
    }

    closed spec fn scoring(&self) -> ScoringView {
        self.scoring@
    }

    open spec fn alignment(&self) -> AlignmentView {
        local_alignment(self.top(), self.bottom(), self.scoring())
    }

    fn align(&mut self) -> (r: Result<PWAlignment, AlignError>)
        ensures
            r matches Ok(al) ==> floored(al@.grid) && al@.score >= 0,
    {
        proof {
            use_type_invariant(&*self);
            self.scoring.lemma_well_formed();
        }
        if self.a.len() == 0 || self.b.len() == 0 {
            return Err(AlignError::EmptyInput);
        }
        proof {
            lemma_scorable_covers(self.scoring@, self.a@, self.b@);
        }
        let grid = match fill_grid(Variant::Local, &self.a, &self.b, &self.scoring) {
            Ok(grid) => grid,
            Err(e) => {
                return Err(e);
            },
        };
        proof {
            lemma_filled_shape(Variant::Local, self.a@, self.b@, self.scoring@);
        }
        let best = best_cell(&grid, self.b.len() + 1, self.a.len() + 1);
        proof {
            lemma_first_best_unique(
                grid_view(grid@),
                self.b.len() + 1,
                self.a.len() + 1,
                best.0 as int,
                best.1 as int,
            );
        }
        let pair = traceback(&grid, &self.a, &self.b, best.0, best.1);
        let score = grid[best.0][best.1].val();
        let al = PWAlignment::new(grid, pair.0, pair.1, self.a.clone(), self.b.clone(), score);
        proof {
            lemma_local_sound(self.a@, self.b@, self.scoring@);
            lemma_local_floored(self.a@, self.b@, self.scoring@);
            lemma_local_floor(self.a@, self.b@, self.scoring@, best.0 as nat, best.1 as nat);
            lemma_filled_in_place(
                Variant::Local,
                self.a@,
                self.b@,
                self.scoring@,
                best.0 as nat,
                best.1 as nat,
            );
        }
        Ok(al)
    }
}

/// Two runs of the local aligner on the same sequences under the same
/// scoring configuration end alike: both fail for the same reason, or both
/// return the same aligned rows, the same grid and the same score.
pub proof fn lemma_local_runs_agree(
    first: SmithWaterman,
    r1: Result<PWAlignment, AlignError>,
    second: SmithWaterman,
    r2: Result<PWAlignment, AlignError>,
)
    requires
        first.top() == second.top(),
        first.bottom() == second.bottom(),
        first.scoring() == second.scoring(),
        is_outcome(first.top(), first.bottom(), first.scoring(), first.alignment(), r1),
        is_outcome(second.top(), second.bottom(), second.scoring(), second.alignment(), r2),
    ensures
        match (r1, r2) {
            (Ok(p), Ok(q)) => p@ == q@,
            (Err(e), Err(f)) => e == f,
            _ => false,
        },
{
}

} // verus!
