use crate::alignment::grid_view;
use crate::error::AlignError;
use crate::scoring::{Scoring, ScoringView};
use crate::step::{Step, StepView};
use vstd::prelude::*;

verus! {

/// Which recurrence fills the grid.
#[derive(Clone, Copy, Debug, PartialEq, Eq, Structural)]
pub enum Variant {
    /// End to end: the boundary accumulates gap costs and every cell takes
    /// the best of its three candidates.
    Global,
    /// Best subregion: the boundary is zero, no cell is below zero, and a
    /// cell points back only if its score is above zero.
    Local,
}

/// Whether the cell was derived from the cell above it: a step down the
/// grid, which sets a symbol of the bottom sequence against a gap.
pub open spec fn came_down(s: StepView) -> bool {
    s.i > 0 && s.next == Some(((s.i - 1) as nat, s.j))
}

/// Whether the cell was derived from the cell left of it: a step along the
/// row, which sets a symbol of the top sequence against a gap.
pub open spec fn came_across(s: StepView) -> bool {
    s.j > 0 && s.next == Some((s.i, (s.j - 1) as nat))
}

/// The penalty for a step down from `pred`: it extends a gap if `pred` was
/// itself reached by a step down, and opens one otherwise.
pub open spec fn down_cost(sc: ScoringView, pred: StepView) -> int {
    if came_down(pred) {
        sc.gap_extension
    } else {
        sc.gap_opening
    }
}

/// The penalty for a step across from `pred`: it extends a gap if `pred`
/// was itself reached by a step across, and opens one otherwise.
pub open spec fn across_cost(sc: ScoringView, pred: StepView) -> int {
    if came_across(pred) {
        sc.gap_extension
    } else {
        sc.gap_opening
    }
}

/// The cell at row `i`, column `j` without a backpointer.
pub open spec fn unlinked(i: nat, j: nat, val: int) -> StepView {
    StepView { val, i, j, next: None }
}

/// The best of the three candidates for an inner cell. Of equal candidates
/// the diagonal one is taken before the vertical one, and the vertical one
/// before the horizontal one.
pub open spec fn best_of(i: nat, j: nat, diagonal: int, vertical: int, horizontal: int) -> StepView {
    if diagonal >= vertical && diagonal >= horizontal {
        StepView { val: diagonal, i, j, next: Some(((i - 1) as nat, (j - 1) as nat)) }
    } else if vertical >= horizontal {
        StepView { val: vertical, i, j, next: Some(((i - 1) as nat, j)) }
    } else {
        StepView { val: horizontal, i, j, next: Some((i, (j - 1) as nat)) }
    }
}

/// An inner cell from its three neighbours and the substitution score of its
/// two symbols: the best of the diagonal candidate (the score added to the
/// cell up and left), the vertical one and the horizontal one (a gap penalty
/// taken off the cell above or the cell to the left). In a local grid a best
/// candidate that is not above zero gives way to a zero cell without a
/// backpointer.
pub open spec fn inner_cell(
    variant: Variant,
    sc: ScoringView,
    i: nat,
    j: nat,
    score: int,
    corner: StepView,
    above: StepView,
    left: StepView,
) -> StepView {
    let best = best_of(
        i,
        j,
        corner.val + score,
        above.val - down_cost(sc, above),
        left.val - across_cost(sc, left),
    );
    if variant == Variant::Local && best.val <= 0 {
        unlinked(i, j, 0)
    } else {
        best
    }
}

/// The score of an inner cell is the highest of its three candidates, and
/// in a local grid the higher of that and zero.
pub proof fn lemma_inner_cell_is_best(
    variant: Variant,
    sc: ScoringView,
    i: nat,
    j: nat,
    score: int,
    corner: StepView,
    above: StepView,
    left: StepView,
)
    ensures
        ({
            let diagonal = corner.val + score;
            let vertical = above.val - down_cost(sc, above);
            let horizontal = left.val - across_cost(sc, left);
            let val = inner_cell(variant, sc, i, j, score, corner, above, left).val;
            &&& val >= diagonal && val >= vertical && val >= horizontal
            &&& variant == Variant::Local ==> val >= 0
            &&& val == diagonal || val == vertical || val == horizontal || (variant
                == Variant::Local && val == 0)
        }),
{
}

/// The cell at row `i`, column `j` of the grid for `a` on top and `b` below.
///
/// Row `i` stands for the first `i` symbols of `b`, column `j` for the first
/// `j` symbols of `a`. The origin scores zero. A global boundary cell is
/// derived from its one neighbour by a gap step; a local one is zero. An
/// inner cell follows from its three neighbours and the substitution score
/// of `a[j - 1]` against `b[i - 1]`.
pub open spec fn cell(
    variant: Variant,
    a: Seq<u8>,
    b: Seq<u8>,
    sc: ScoringView,
    i: nat,
    j: nat,
) -> StepView
    decreases i + j,
{
    if i == 0 && j == 0 {
        unlinked(0, 0, 0)
    } else if variant == Variant::Local && (i == 0 || j == 0) {
        unlinked(i, j, 0)
    } else if i == 0 {
        let left = cell(variant, a, b, sc, i, (j - 1) as nat);
        StepView { val: left.val - across_cost(sc, left), i, j, next: Some((i, (j - 1) as nat)) }
    } else if j == 0 {
        let above = cell(variant, a, b, sc, (i - 1) as nat, j);
        StepView { val: above.val - down_cost(sc, above), i, j, next: Some(((i - 1) as nat, j)) }
    } else {
        inner_cell(
            variant,
            sc,
            i,
            j,
            sc.replacement[(a[j - 1], b[i - 1])],
            cell(variant, a, b, sc, (i - 1) as nat, (j - 1) as nat),
            cell(variant, a, b, sc, (i - 1) as nat, j),
            cell(variant, a, b, sc, i, (j - 1) as nat),
        )
    }
}

/// The whole grid: one row more than `b` has symbols, one column more than
/// `a` has.
pub open spec fn filled(variant: Variant, a: Seq<u8>, b: Seq<u8>, sc: ScoringView) -> Seq<
    Seq<StepView>,
> {
    Seq::new(
        b.len() + 1,
        |i: int| Seq::new(a.len() + 1, |j: int| cell(variant, a, b, sc, i as nat, j as nat)),
    )
}

/// Whether the matrix scores every pair of a symbol among the first `cols`
/// of `a` and a symbol among the first `rows` of `b`.
pub open spec fn scorable_within(sc: ScoringView, a: Seq<u8>, b: Seq<u8>, rows: nat, cols: nat) -> bool {
    forall|r: int, c: int|
        0 <= r < rows && 0 <= c < cols ==> sc.replacement.dom().contains(
            (#[trigger] a[c], #[trigger] b[r]),
        )
}

/// Whether the matrix scores every pair of a symbol of `a` and a symbol of
/// `b`.
pub open spec fn scorable(sc: ScoringView, a: Seq<u8>, b: Seq<u8>) -> bool {
    scorable_within(sc, a, b, b.len(), a.len())
}

/// The most that the score of the cell at row `i`, column `j` can be away
/// from zero.
pub open spec fn reach(i: nat, j: nat) -> int {
    (i + j) as int * 0x8000_0000
}

/// Two sequences that are not empty can be scored pair by pair exactly if
/// the matrix lists every symbol of both.
pub proof fn lemma_scorable_covers(sc: ScoringView, a: Seq<u8>, b: Seq<u8>)
    requires
        sc.well_formed(),
        a.len() > 0,
        b.len() > 0,
    ensures
        scorable(sc, a, b) <==> sc.covers(a) && sc.covers(b),
{
    if scorable(sc, a, b) {
        assert forall|k: int| 0 <= k < a.len() implies sc.knows(#[trigger] a[k]) by {
            assert(sc.replacement.dom().contains((a[k], b[0])));
        }
        assert forall|k: int| 0 <= k < b.len() implies sc.knows(#[trigger] b[k]) by {
            assert(sc.replacement.dom().contains((a[0], b[k])));
        }
    }
    if sc.covers(a) && sc.covers(b) {
        assert forall|r: int, c: int| 0 <= r < b.len() && 0 <= c < a.len() implies sc.replacement.dom().contains(
            (#[trigger] a[c], #[trigger] b[r]),
        ) by {
            assert(sc.knows(a[c]) && sc.knows(b[r]));
        }
    }
}

/// Each step from cell to cell changes the score by less than the range of
/// a penalty or substitution score, so a cell is never further from zero
/// than that range times the number of steps to it.
pub proof fn lemma_cell_within_reach(
    variant: Variant,
    a: Seq<u8>,
    b: Seq<u8>,
    sc: ScoringView,
    i: nat,
    j: nat,
)
    requires
        sc.well_formed(),
        i <= b.len(),
        j <= a.len(),
        scorable_within(sc, a, b, i, j),
    ensures
        -reach(i, j) <= cell(variant, a, b, sc, i, j).val <= reach(i, j),
        cell(variant, a, b, sc, i, j).i == i,
        cell(variant, a, b, sc, i, j).j == j,
    decreases i + j,
{
    if i == 0 && j == 0 {
    } else if variant == Variant::Local && (i == 0 || j == 0) {
    } else if i == 0 {
        lemma_cell_within_reach(variant, a, b, sc, i, (j - 1) as nat);
    } else if j == 0 {
        lemma_cell_within_reach(variant, a, b, sc, (i - 1) as nat, j);
    } else {
        lemma_cell_within_reach(variant, a, b, sc, (i - 1) as nat, (j - 1) as nat);
        lemma_cell_within_reach(variant, a, b, sc, (i - 1) as nat, j);
        lemma_cell_within_reach(variant, a, b, sc, i, (j - 1) as nat);
        assert(sc.replacement.dom().contains((a[j - 1], b[i - 1])));
    }
}

/// The penalty for a step down from `pred`.
pub fn step_down_cost(scoring: &Scoring, pred: &Step) -> (r: i32)
    ensures
        r == down_cost(scoring@, pred@),
{
    let extends = match pred.next() {
        Some((pi, pj)) => pred.i() > 0 && pi == pred.i() - 1 && pj == pred.j(),
        None => false,
    };
    if extends {
        scoring.gap_extension()
    } else {
        scoring.gap_opening()
    }
}

/// The penalty for a step across from `pred`.
pub fn step_across_cost(scoring: &Scoring, pred: &Step) -> (r: i32)
    ensures
        r == across_cost(scoring@, pred@),
{
    let extends = match pred.next() {
        Some((pi, pj)) => pred.j() > 0 && pi == pred.i() && pj == pred.j() - 1,
        None => false,
    };
    if extends {
        scoring.gap_extension()
    } else {
        scoring.gap_opening()
    }
}

/// The best of the three candidates for the inner cell at row `i`, column
/// `j`.
pub fn best_step(i: usize, j: usize, diagonal: i128, vertical: i128, horizontal: i128) -> (s: Step)
    requires
        i > 0,
        j > 0,
    ensures
        s@ == best_of(i as nat, j as nat, diagonal as int, vertical as int, horizontal as int),
{
    if diagonal >= vertical && diagonal >= horizontal {
        Step::from(i, j, diagonal).linked_to(i - 1, j - 1)
    } else if vertical >= horizontal {
        Step::from(i, j, vertical).linked_to(i - 1, j)
    } else {
        Step::from(i, j, horizontal).linked_to(i, j - 1)
    }
}

/// Whether the first `upto` cells of `row` are those of grid row `i`.
pub open spec fn row_filled(
    row: Seq<Step>,
    variant: Variant,
    a: Seq<u8>,
    b: Seq<u8>,
    sc: ScoringView,
    i: nat,
    upto: nat,
) -> bool {
    forall|c: int| 0 <= c < upto ==> (#[trigger] row[c])@ == cell(variant, a, b, sc, i, c as nat)
}

/// Whether the first `upto` rows of `grid` are complete rows of the grid.
pub open spec fn rows_filled(
    grid: Seq<Vec<Step>>,
    variant: Variant,
    a: Seq<u8>,
    b: Seq<u8>,
    sc: ScoringView,
    upto: nat,
) -> bool {
    forall|r: int|
        0 <= r < upto ==> (#[trigger] grid[r])@.len() == a.len() + 1 && row_filled(
            grid[r]@,
            variant,
            a,
            b,
            sc,
            r as nat,
            a.len() + 1,
        )
}

/// The inner cell at row `i`, column `j` from its three neighbours and the
/// substitution score of its two symbols.
pub fn inner_step(
    variant: Variant,
    scoring: &Scoring,
    i: usize,
    j: usize,
    score: i32,
    corner: &Step,
    above: &Step,
    left: &Step,
) -> (s: Step)
    requires
        i > 0,
        j > 0,
        -reach(i as nat, j as nat) <= corner@.val <= reach(i as nat, j as nat),
        -reach(i as nat, j as nat) <= above@.val <= reach(i as nat, j as nat),
        -reach(i as nat, j as nat) <= left@.val <= reach(i as nat, j as nat),
    ensures
        s@ == inner_cell(variant, scoring@, i as nat, j as nat, score as int, corner@, above@, left@),
{
    let diagonal: i128 = corner.val() + score as i128;
    let vertical: i128 = above.val() - step_down_cost(scoring, above) as i128;
    let horizontal: i128 = left.val() - step_across_cost(scoring, left) as i128;
    let best = best_step(i, j, diagonal, vertical, horizontal);
    match variant {
        Variant::Global => best,
        Variant::Local => if best.val() <= 0 {
            Step::from(i, j, 0)
        } else {
            best
        },
    }
}

/// Fills the grid for `a` on top and `b` below, row by row and in each row
/// from left to right. It fails with `UnknownSymbol` if the matrix has no
/// score for a pair of symbols that an inner cell needs.
pub fn fill_grid(variant: Variant, a: &Vec<u8>, b: &Vec<u8>, scoring: &Scoring) -> (r: Result<
    Vec<Vec<Step>>,
    AlignError,
>)
    requires
        a.len() < usize::MAX,
        b.len() < usize::MAX,
    ensures
        r is Ok <==> scorable(scoring@, a@, b@),
        r matches Ok(grid) ==> grid_view(grid@) == filled(variant, a@, b@, scoring@),
        r matches Err(e) ==> e == AlignError::UnknownSymbol,
{
    let m: usize = b.len();
    let n: usize = a.len();
    let ghost sc = scoring@;
    proof {
        scoring.lemma_well_formed();
    }
    let mut grid: Vec<Vec<Step>> = Vec::new();
    let mut i: usize = 0;
    while i <= m
        invariant
            i <= m + 1,
            m == b.len(),
            n == a.len(),
            m < usize::MAX,
            n < usize::MAX,
            sc == scoring@,
            sc.well_formed(),
            grid.len() == i,
            rows_filled(grid@, variant, a@, b@, sc, i as nat),
            i > 0 ==> scorable_within(sc, a@, b@, (i - 1) as nat, n as nat),
        decreases m + 1 - i,
    {
        let mut row: Vec<Step> = Vec::new();
        let mut j: usize = 0;
        while j <= n
            invariant
                j <= n + 1,
                i <= m,
                m == b.len(),
                n == a.len(),
                m < usize::MAX,
                n < usize::MAX,
                sc == scoring@,
                sc.well_formed(),
                grid.len() == i,
                rows_filled(grid@, variant, a@, b@, sc, i as nat),
                i > 0 ==> scorable_within(sc, a@, b@, (i - 1) as nat, n as nat),
                row.len() == j,
                row_filled(row@, variant, a@, b@, sc, i as nat, j as nat),
                i > 0 && j > 0 ==> forall|c: int|
                    0 <= c < j - 1 ==> sc.replacement.dom().contains(
                        (#[trigger] a@[c], b@[i - 1]),
                    ),
            decreases n + 1 - j,
        {
            let step = if i == 0 && j == 0 {
                Step::from(0, 0, 0)
            } else if i == 0 || j == 0 {
                match variant {
                    Variant::Local => Step::from(i, j, 0),
                    Variant::Global => if i == 0 {
                        let left: Step = row[j - 1];
                        proof {
                            lemma_cell_within_reach(variant, a@, b@, sc, 0, (j - 1) as nat);
                        }
                        let cost = step_across_cost(scoring, &left);
                        Step::from(i, j, left.val() - cost as i128).linked_to(i, j - 1)
                    } else {
                        let above: Step = grid[i - 1][j];
                        proof {
                            assert(row_filled(
                                grid@[i - 1]@,
                                variant,
                                a@,
                                b@,
                                sc,
                                (i - 1) as nat,
                                (n + 1) as nat,
                            ));
                            lemma_cell_within_reach(variant, a@, b@, sc, (i - 1) as nat, 0);
                        }
                        let cost = step_down_cost(scoring, &above);
                        Step::from(i, j, above.val() - cost as i128).linked_to(i - 1, j)
                    },
                }
            } else {
                let score = match scoring.replacement().get(a[j - 1], b[i - 1]) {
                    Some(score) => score,
                    None => {
                        return Err(AlignError::UnknownSymbol);
                    },
                };
                let corner: Step = grid[i - 1][j - 1];
                let above: Step = grid[i - 1][j];
                let left: Step = row[j - 1];
                proof {
                    assert(row_filled(
                        grid@[i - 1]@,
                        variant,
                        a@,
                        b@,
                        sc,
                        (i - 1) as nat,
                        (n + 1) as nat,
                    ));
                    assert forall|r: int, c: int| 0 <= r < i && 0 <= c < j implies sc.replacement.dom().contains(
                        (#[trigger] a@[c], #[trigger] b@[r]),
                    ) by {
                        if r < i - 1 {
                        } else if c < j - 1 {
                        } else {
                        }
                    }
                    lemma_cell_within_reach(variant, a@, b@, sc, (i - 1) as nat, (j - 1) as nat);
                    lemma_cell_within_reach(variant, a@, b@, sc, (i - 1) as nat, j as nat);
                    lemma_cell_within_reach(variant, a@, b@, sc, i as nat, (j - 1) as nat);
                }
                inner_step(variant, scoring, i, j, score, &corner, &above, &left)
            };
            row.push(step);
            j = j + 1;
        }
        proof {
            if i > 0 {
                assert forall|r: int, c: int| 0 <= r < i && 0 <= c < n implies sc.replacement.dom().contains(
                    (#[trigger] a@[c], #[trigger] b@[r]),
                ) by {
                    if r < i - 1 {
                    } else {
                    }
                }
            }
        }
        grid.push(row);
        i = i + 1;
    }
    proof {
        let v = grid_view(grid@);
        let f = filled(variant, a@, b@, sc);
        assert(v.len() == f.len());
        assert forall|r: int| 0 <= r < v.len() implies v[r] =~= f[r] by {
            assert(row_filled(grid@[r]@, variant, a@, b@, sc, r as nat, (n + 1) as nat));
        }
        assert(v =~= f);
    }
    Ok(grid)
}

} // verus!
