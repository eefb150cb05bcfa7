use crate::align::{
    in_place, is_outcome, lemma_filled_in_place, lemma_filled_shape, sound, PWAlign,
};
use crate::alignment::{
    distance_of, lemma_self_pair_identical, lemma_symbol_is_compared, AlignmentView, PWAlignment,
};
use crate::error::AlignError;
use crate::grid::{cell, fill_grid, filled, lemma_scorable_covers, Variant};
use crate::scoring::{Scoring, ScoringView};
use crate::step::StepView;
use crate::text::GAP;
use crate::traceback::{lemma_traced_rows_agree, traceback, traced};
use vstd::prelude::*;

verus! {

/// The global alignment of `a` on top and `b` below: the grid filled by the
/// global recurrence, the pair traced from its last cell, and the score of
/// that cell.
pub open spec fn global_alignment(a: Seq<u8>, b: Seq<u8>, sc: ScoringView) -> AlignmentView {
    let grid = filled(Variant::Global, a, b, sc);
    let pair = traced(grid, a, b, b.len(), a.len());
    AlignmentView {
        grid,
        a: pair.0,
        b: pair.1,
        a_orig: a,
        b_orig: b,
        score: grid[b.len() as int][a.len() as int].val,
    }
}

/// A global alignment is sound.
pub proof fn lemma_global_sound(a: Seq<u8>, b: Seq<u8>, sc: ScoringView)
    ensures
        sound(global_alignment(a, b, sc), a, b),
{
    let v = global_alignment(a, b, sc);
    lemma_traced_rows_agree(v.grid, a, b, b.len(), a.len());
    lemma_filled_shape(Variant::Global, a, b, sc);
    assert forall|i: int, j: int| 0 <= i <= b.len() && 0 <= j <= a.len() implies #[trigger] in_place(
        v.grid,
        i,
        j,
    ) by {
        lemma_filled_in_place(Variant::Global, a, b, sc, i as nat, j as nat);
    }
}

/// Global alignment of two sequences end to end.
pub struct NeedlemanWunsch {
    a: Vec<u8>,
    b: Vec<u8>,
    scoring: Scoring,
}

impl NeedlemanWunsch {
    #[verifier::type_invariant]
    spec fn inv(self) -> bool {
        self.a@.len() < usize::MAX && self.b@.len() < usize::MAX
    }

    /// An aligner for `a` on top and `b` below under `scoring`. The grid has
    /// one column more than `a` has symbols and one row more than `b` has,
    /// and both counts have to fit the machine.
    pub fn new(a: Vec<u8>, b: Vec<u8>, scoring: Scoring) -> (r: NeedlemanWunsch)
        requires
            a.len() < usize::MAX,
            b.len() < usize::MAX,
        ensures
            r.top() == a@,
            r.bottom() == b@,
            r.scoring() == scoring@,
    {
        NeedlemanWunsch { a, b, scoring }
    }
}

impl PWAlign for NeedlemanWunsch {
    closed spec fn top(&self) -> Seq<u8> {
        self.a@
    }

    closed spec fn bottom(&self) -> Seq<u8> {
        self.b@
    }

    closed spec fn scoring(&self) -> ScoringView {
        self.scoring@
    }

    open spec fn alignment(&self) -> AlignmentView {
        global_alignment(self.top(), self.bottom(), self.scoring())
    }

    fn align(&mut self) -> (r: Result<PWAlignment, AlignError>) {
        proof {
            use_type_invariant(&*self);
            self.scoring.lemma_well_formed();
        }
        if self.a.len() == 0 || self.b.len() == 0 {
            return Err(AlignError::EmptyInput);
        }
        proof {
            lemma_scorable_covers(self.scoring@, self.a@, self.b@);
        }
        let grid = match fill_grid(Variant::Global, &self.a, &self.b, &self.scoring) {
            Ok(grid) => grid,
            Err(e) => {
                return Err(e);
            },
        };
        proof {
            lemma_filled_shape(Variant::Global, self.a@, self.b@, self.scoring@);
        }
        let pair = traceback(&grid, &self.a, &self.b, self.b.len(), self.a.len());
        let score = grid[self.b.len()][self.a.len()].val();
        let al = PWAlignment::new(grid, pair.0, pair.1, self.a.clone(), self.b.clone(), score);
        proof {
            lemma_global_sound(self.a@, self.b@, self.scoring@);
        }
        Ok(al)
    }
}

/// The substitution score of the symbol at place `p` of `a` on top against
/// the symbol at place `q` of `a` below.
pub open spec fn pair_score(sc: ScoringView, a: Seq<u8>, p: int, q: int) -> int {
    sc.replacement[(a[p], a[q])]
}

/// The sum of the scores of the first `k` symbols of `a`, each against
/// itself.
pub open spec fn self_score(sc: ScoringView, a: Seq<u8>, k: nat) -> int
    decreases k,
{
    if k == 0 {
        0
    } else {
        self_score(sc, a, (k - 1) as nat) + pair_score(sc, a, k - 1, k - 1)
    }
}

/// Whether, for the symbols of `a`, nothing pays better than an identity:
/// neither penalty is negative, no symbol scores below zero against itself,
/// and no two symbols score more against each other than either of them
/// against itself.
pub open spec fn favours_identity(sc: ScoringView, a: Seq<u8>) -> bool {
    &&& sc.gap_opening >= 0
    &&& sc.gap_extension >= 0
    &&& forall|p: int, q: int|
        0 <= p < a.len() && 0 <= q < a.len() ==> {
            &&& #[trigger] pair_score(sc, a, p, q) <= pair_score(sc, a, p, p)
            &&& pair_score(sc, a, p, q) <= pair_score(sc, a, q, q)
            &&& pair_score(sc, a, p, p) >= 0
        }
}

/// The smaller of two numbers.
pub open spec fn lesser(i: nat, j: nat) -> nat {
    if i <= j {
        i
    } else {
        j
    }
}

/// Where identities pay best, no cell of the grid of a sequence against
/// itself scores more than the identities of the shorter of its two
/// prefixes.
pub proof fn lemma_self_cell_bound(a: Seq<u8>, sc: ScoringView, i: nat, j: nat)
    requires
        favours_identity(sc, a),
        i <= a.len(),
        j <= a.len(),
    ensures
        cell(Variant::Global, a, a, sc, i, j).val <= self_score(sc, a, lesser(i, j)),
    decreases i + j,
{
    if i == 0 && j == 0 {
    } else if i == 0 {
        lemma_self_cell_bound(a, sc, i, (j - 1) as nat);
    } else if j == 0 {
        lemma_self_cell_bound(a, sc, (i - 1) as nat, j);
    } else {
        lemma_self_cell_bound(a, sc, (i - 1) as nat, (j - 1) as nat);
        lemma_self_cell_bound(a, sc, (i - 1) as nat, j);
        lemma_self_cell_bound(a, sc, i, (j - 1) as nat);
        assert(pair_score(sc, a, j - 1, i - 1) <= pair_score(sc, a, j - 1, j - 1));
        assert(pair_score(sc, a, j - 1, i - 1) <= pair_score(sc, a, i - 1, i - 1));
        assert(pair_score(sc, a, i - 1, i - 1) >= 0);
        assert(pair_score(sc, a, j - 1, j - 1) >= 0);
    }
}

/// Where identities pay best, the cells on the diagonal of the grid of a
/// sequence against itself hold the identities of the prefix and point
/// back along the diagonal.
pub proof fn lemma_self_diagonal(a: Seq<u8>, sc: ScoringView, i: nat)
    requires
        favours_identity(sc, a),
        i <= a.len(),
    ensures
        cell(Variant::Global, a, a, sc, i, i).val == self_score(sc, a, i),
        i > 0 ==> cell(Variant::Global, a, a, sc, i, i).next == Some(
            ((i - 1) as nat, (i - 1) as nat),
        ),
    decreases i,
{
    if i > 0 {
        lemma_self_diagonal(a, sc, (i - 1) as nat);
        lemma_self_cell_bound(a, sc, (i - 1) as nat, i);
        lemma_self_cell_bound(a, sc, i, (i - 1) as nat);
        assert(pair_score(sc, a, i - 1, i - 1) >= 0);
    }
}

/// Where identities pay best, the pair traced from a diagonal cell of the
/// grid of a sequence against itself is the prefix over itself.
pub proof fn lemma_self_traced(a: Seq<u8>, sc: ScoringView, i: nat)
    requires
        favours_identity(sc, a),
        i <= a.len(),
    ensures
        traced(filled(Variant::Global, a, a, sc), a, a, i, i) == (a.take(i as int), a.take(i as int)),
    decreases i,
{
    let grid = filled(Variant::Global, a, a, sc);
    lemma_filled_in_place(Variant::Global, a, a, sc, i, i);
    lemma_self_diagonal(a, sc, i);
    if i > 0 {
        lemma_self_traced(a, sc, (i - 1) as nat);
        assert(a.take(i as int) =~= a.take(i - 1).push(a[i - 1]));
    } else {
        assert(a.take(0) =~= Seq::<u8>::empty());
    }
}

/// Where identities pay best, the global alignment of a sequence with
/// itself sets every symbol over itself without a gap, scores the sum of the
/// scores of its symbols against themselves, and has the distance zero,
/// which is defined as soon as one symbol is not the gap byte.
pub proof fn lemma_self_alignment(a: Seq<u8>, sc: ScoringView)
    requires
        favours_identity(sc, a),
    ensures
        global_alignment(a, a, sc).a == a,
        global_alignment(a, a, sc).b == a,
        global_alignment(a, a, sc).score == self_score(sc, a, a.len()),
        distance_of(a, a) matches Ok(d) ==> d.numerator == 0,
        (exists|k: int| 0 <= k < a.len() && a[k] != GAP) ==> distance_of(a, a) is Ok,
{
    lemma_self_traced(a, sc, a.len());
    lemma_self_diagonal(a, sc, a.len());
    lemma_filled_in_place(Variant::Global, a, a, sc, a.len(), a.len());
    assert(a.take(a.len() as int) =~= a);
    lemma_self_pair_identical(a, a.len());
    if exists|k: int| 0 <= k < a.len() && a[k] != GAP {
        let k = choose|k: int| 0 <= k < a.len() && a[k] != GAP;
        lemma_symbol_is_compared(a, a, a.len(), k);
    }
}

/// Along the boundary of a global grid the gap cost accumulates: the cell
/// `k` steps from the origin, in the first row or the first column, holds
/// the cost of a gap of `k` positions, taken off zero, and points back at
/// the cell before it.
pub proof fn lemma_global_boundary(a: Seq<u8>, b: Seq<u8>, sc: ScoringView, k: nat)
    ensures
        cell(Variant::Global, a, b, sc, 0, k) == (StepView {
            val: -sc.gap_cost(k),
            i: 0,
            j: k,
            next: if k == 0 {
                None
            } else {
                Some((0nat, (k - 1) as nat))
            },
        }),
        cell(Variant::Global, a, b, sc, k, 0) == (StepView {
            val: -sc.gap_cost(k),
            i: k,
            j: 0,
            next: if k == 0 {
                None
            } else {
                Some(((k - 1) as nat, 0nat))
            },
        }),
    decreases k,
{
    if k > 0 {
        lemma_global_boundary(a, b, sc, (k - 1) as nat);
        if k > 1 {
            let e = sc.gap_extension;
            assert((k - 1) * e == (k - 2) * e + e) by (nonlinear_arith);
        }
    }
}

/// Two runs of the global aligner on the same sequences under the same
/// scoring configuration end alike: both fail for the same reason, or both
/// return the same aligned rows, the same grid and the same score.
pub proof fn lemma_global_runs_agree(
    first: NeedlemanWunsch,
    r1: Result<PWAlignment, AlignError>,
    second: NeedlemanWunsch,
    r2: Result<PWAlignment, AlignError>,
)
    requires
        first.top() == second.top(),
        first.bottom() == second.bottom(),
        first.scoring() == second.scoring(),
        is_outcome(first.top(), first.bottom(), first.scoring(), first.alignment(), r1),
        is_outcome(second.top(), second.bottom(), second.scoring(), second.alignment(), r2),
    ensures
        match (r1, r2) {
            (Ok(p), Ok(q)) => p@ == q@,
            (Err(e), Err(f)) => e == f,
            _ => false,
        },
{
}

} // verus!
