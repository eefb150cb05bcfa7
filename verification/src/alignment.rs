use crate::error::AlignError;
use crate::step::{Step, StepView};
use crate::text::{
    decimal, padded, push_blanks, push_padded_decimal, BAR, GAP, NEWLINE, SPACE,
};
use vstd::prelude::*;

verus! {

/// Mathematical model of an alignment result.
pub struct AlignmentView {
    /// The grid, row by row.
    pub grid: Seq<Seq<StepView>>,
    /// The top aligned row.
    pub a: Seq<u8>,
    /// The bottom aligned row.
    pub b: Seq<u8>,
    /// The top sequence as it was given.
    pub a_orig: Seq<u8>,
    /// The bottom sequence as it was given.
    pub b_orig: Seq<u8>,
    /// The score of the alignment.
    pub score: int,
}

/// Model of a grid held as vectors of cells.
pub open spec fn grid_view(grid: Seq<Vec<Step>>) -> Seq<Seq<StepView>> {
    Seq::new(grid.len(), |r: int| Seq::new(grid[r]@.len(), |c: int| grid[r]@[c]@))
}

/// Whether column `k` of the aligned pair takes part in the comparison: it
/// does unless both rows hold a gap there.
pub open spec fn is_compared(a: Seq<u8>, b: Seq<u8>, k: int) -> bool {
    !(a[k] == GAP && b[k] == GAP)
}

/// The number of compared columns among the first `k`.
pub open spec fn compared(a: Seq<u8>, b: Seq<u8>, k: nat) -> nat
    decreases k,
{
    if k == 0 {
        0
    } else {
        compared(a, b, (k - 1) as nat) + if is_compared(a, b, k - 1) {
            1nat
        } else {
            0nat
        }
    }
}

/// The number of compared columns among the first `k` whose two symbols are
/// equal.
pub open spec fn identical(a: Seq<u8>, b: Seq<u8>, k: nat) -> nat
    decreases k,
{
    if k == 0 {
        0
    } else {
        identical(a, b, (k - 1) as nat) + if is_compared(a, b, k - 1) && a[k - 1] == b[k - 1] {
            1nat
        } else {
            0nat
        }
    }
}

/// Residues compared: two for each compared column.
pub open spec fn residues(a: Seq<u8>, b: Seq<u8>) -> nat {
    2 * compared(a, b, a.len())
}

/// Identities found: two for each compared column that holds the same symbol
/// twice.
pub open spec fn identities(a: Seq<u8>, b: Seq<u8>) -> nat {
    2 * identical(a, b, a.len())
}

/// A genetic distance as an exact fraction: the share of differing sites
/// among the sites compared.
#[derive(Clone, Copy, Debug, PartialEq, Eq, Structural)]
pub struct Distance {
    /// Residues compared less identities found.
    pub numerator: u128,
    /// Residues compared; never zero in a distance that `distance` returns.
    pub denominator: u128,
}

/// The distance of an aligned pair, or the reason why it has none.
pub open spec fn distance_of(a: Seq<u8>, b: Seq<u8>) -> Result<Distance, AlignError> {
    if a.len() != b.len() {
        Err(AlignError::InconsistentAlignment)
    } else if residues(a, b) == 0 {
        Err(AlignError::EmptyComparison)
    } else {
        Ok(
            Distance {
                numerator: (residues(a, b) - identities(a, b)) as u128,
                denominator: residues(a, b) as u128,
            },
        )
    }
}

/// The compact rendering: the two aligned rows, one per line.
pub open spec fn rendered(v: AlignmentView) -> Seq<u8> {
    v.a + seq![NEWLINE] + v.b
}

/// The header cell for one symbol of the top sequence.
pub open spec fn header_cell(c: u8) -> Seq<u8> {
    seq![SPACE, c, SPACE, SPACE, BAR]
}

/// The header cells of the first `k` symbols of `top`.
pub open spec fn header_cells(top: Seq<u8>, k: nat) -> Seq<u8>
    decreases k,
{
    if k == 0 {
        Seq::empty()
    } else {
        header_cells(top, (k - 1) as nat) + header_cell(top[k - 1])
    }
}

/// What stands left of the top sequence in the header row: an empty label
/// column and an empty cell above the boundary column.
pub open spec fn corner() -> Seq<u8> {
    seq![SPACE, SPACE, SPACE, BAR, SPACE, SPACE, SPACE, SPACE, BAR]
}

/// The header row: the corner, one cell for each symbol of the top sequence,
/// and the end of the line.
pub open spec fn header_row(top: Seq<u8>) -> Seq<u8> {
    corner() + header_cells(top, top.len()) + seq![NEWLINE]
}

/// The cell for one score: a blank, the score padded to three bytes, a bar.
pub open spec fn score_cell(val: int) -> Seq<u8> {
    seq![SPACE] + padded(decimal(val), 3) + seq![BAR]
}

/// The cells of the first `k` scores of a grid row.
pub open spec fn score_cells(row: Seq<StepView>, k: nat) -> Seq<u8>
    decreases k,
{
    if k == 0 {
        Seq::empty()
    } else {
        score_cells(row, (k - 1) as nat) + score_cell(row[k - 1].val)
    }
}

/// The label column of grid row `i`: empty for the boundary row, else the
/// symbol of the bottom sequence that the row belongs to.
pub open spec fn row_label(bottom: Seq<u8>, i: int) -> Seq<u8> {
    if i == 0 {
        seq![SPACE, SPACE, SPACE, BAR]
    } else {
        seq![bottom[i - 1], SPACE, SPACE, BAR]
    }
}

/// The line for grid row `i`.
pub open spec fn grid_line(v: AlignmentView, i: int) -> Seq<u8> {
    row_label(v.b_orig, i) + score_cells(v.grid[i], v.grid[i].len()) + seq![NEWLINE]
}

/// The lines of the first `k` grid rows.
pub open spec fn grid_lines(v: AlignmentView, k: nat) -> Seq<u8>
    decreases k,
{
    if k == 0 {
        Seq::empty()
    } else {
        grid_lines(v, (k - 1) as nat) + grid_line(v, k - 1)
    }
}

/// The diagnostic rendering: the aligned pair, the header row, and one line
/// for each row of the grid from the boundary row down.
pub open spec fn rendered_grid(v: AlignmentView) -> Seq<u8> {
    rendered(v) + seq![NEWLINE] + header_row(v.a_orig) + grid_lines(v, v.b_orig.len() + 1)
}

/// The result of one alignment run: the two aligned rows, the two sequences
/// as they were given, the grid that was filled, and the score.
pub struct PWAlignment {
    grid: Vec<Vec<Step>>,
    a: Vec<u8>,
    b: Vec<u8>,
    a_orig: Vec<u8>,
    b_orig: Vec<u8>,
    score: i128,
}

impl View for PWAlignment {
    type V = AlignmentView;

    closed spec fn view(&self) -> AlignmentView {
        AlignmentView {
            grid: grid_view(self.grid@),
            a: self.a@,
            b: self.b@,
            a_orig: self.a_orig@,
            b_orig: self.b_orig@,
            score: self.score as int,
        }
    }
}

impl PWAlignment {
    /// Puts an alignment result together from its parts.
    pub fn new(
        grid: Vec<Vec<Step>>,
        a: Vec<u8>,
        b: Vec<u8>,
        a_orig: Vec<u8>,
        b_orig: Vec<u8>,
        score: i128,
    ) -> (r: PWAlignment)
        ensures
            r@ == (AlignmentView {
                grid: grid_view(grid@),
                a: a@,
                b: b@,
                a_orig: a_orig@,
                b_orig: b_orig@,
                score: score as int,
            }),
    {
        PWAlignment { grid, a, b, a_orig, b_orig, score }
    }

    /// The top aligned row.
    pub fn a(&self) -> (r: &Vec<u8>)
        ensures
            r@ == self@.a,
    {
        &self.a
    }

    /// The bottom aligned row.
    pub fn b(&self) -> (r: &Vec<u8>)
        ensures
            r@ == self@.b,
    {
        &self.b
    }

    /// The top sequence as it was given.
    pub fn a_orig(&self) -> (r: &Vec<u8>)
        ensures
            r@ == self@.a_orig,
    {
        &self.a_orig
    }

    /// The bottom sequence as it was given.
    pub fn b_orig(&self) -> (r: &Vec<u8>)
        ensures
            r@ == self@.b_orig,
    {
        &self.b_orig
    }

    /// The grid, row by row.
    pub fn grid(&self) -> (r: &Vec<Vec<Step>>)
        ensures
            grid_view(r@) == self@.grid,
    {
        &self.grid
    }

    /// The score of the alignment.
    pub fn score(&self) -> (r: i128)
        ensures
            r == self@.score,
    {
        self.score
    }

    /// The genetic distance of the aligned pair: of the residues compared,
    /// the share that are no identities. A column that holds a gap in both
    /// rows is not compared; every other column counts two residues, and two
    /// identities if its two symbols are equal.
    pub fn distance(&self) -> (r: Result<Distance, AlignError>)
        ensures
            r == distance_of(self@.a, self@.b),
            r matches Ok(d) ==> 0 < d.denominator && d.numerator <= d.denominator,
    {
        if self.a.len() != self.b.len() {
            return Err(AlignError::InconsistentAlignment);
        }
        let mut residues: u128 = 0;
        let mut identities: u128 = 0;
        let mut k: usize = 0;
        while k < self.a.len()
            invariant
                k <= self.a.len(),
                self.a.len() == self.b.len(),
                residues == 2 * compared(self.a@, self.b@, k as nat),
                identities == 2 * identical(self.a@, self.b@, k as nat),
                identities <= residues <= 2 * k,
            decreases self.a.len() - k,
        {
            let c1: u8 = self.a[k];
            let c2: u8 = self.b[k];
            if !(c1 == GAP && c2 == GAP) {
                residues = residues + 2;
                if c1 == c2 {
                    identities = identities + 2;
                }
            }
            k = k + 1;
        }
        proof {
            lemma_distance_in_range(self.a@, self.b@);
        }
        if residues == 0 {
            Err(AlignError::EmptyComparison)
        } else {
            Ok(Distance { numerator: residues - identities, denominator: residues })
        }
    }

    /// The compact rendering: the two aligned rows, one per line.
    pub fn render(&self) -> (out: Vec<u8>)
        ensures
            out@ == rendered(self@),
    {
        let mut out: Vec<u8> = Vec::new();
        push_bytes(&mut out, &self.a);
        out.push(NEWLINE);
        push_bytes(&mut out, &self.b);
        assert(out@ =~= rendered(self@));
        out
    }

    /// The diagnostic rendering: the aligned pair, then the grid with the top
    /// sequence as header row and the bottom sequence as header column, each
    /// score in a column of its own.
    pub fn render_grid(&self) -> (out: Vec<u8>)
        requires
            self@.grid.len() == self@.b_orig.len() + 1,
        ensures
            out@ == rendered_grid(self@),
    {
        let mut out: Vec<u8> = self.render();
        out.push(NEWLINE);
        push_blanks(&mut out, 3);
        out.push(BAR);
        push_blanks(&mut out, 4);
        out.push(BAR);
        assert(out@ =~= rendered(self@) + seq![NEWLINE] + corner());
        let mut j: usize = 0;
        while j < self.a_orig.len()
            invariant
                j <= self.a_orig.len(),
                out@ == rendered(self@) + seq![NEWLINE] + corner() + header_cells(
                    self.a_orig@,
                    j as nat,
                ),
            decreases self.a_orig.len() - j,
        {
            out.push(SPACE);
            out.push(self.a_orig[j]);
            push_blanks(&mut out, 2);
            out.push(BAR);
            j = j + 1;
            assert(out@ =~= rendered(self@) + seq![NEWLINE] + corner() + header_cells(
                self.a_orig@,
                j as nat,
            ));
        }
        out.push(NEWLINE);
        assert(out@ =~= rendered(self@) + seq![NEWLINE] + header_row(self@.a_orig));
        let ghost head = out@;
        let mut i: usize = 0;
        while i < self.grid.len()
            invariant
                i <= self.grid.len(),
                self.grid.len() == self.b_orig.len() + 1,
                out@ == head + grid_lines(self@, i as nat),
            decreases self.grid.len() - i,
        {
            let ghost before = out@;
            if i == 0 {
                push_blanks(&mut out, 3);
            } else {
                out.push(self.b_orig[i - 1]);
                push_blanks(&mut out, 2);
            }
            out.push(BAR);
            assert(out@ =~= before + row_label(self@.b_orig, i as int));
            let row: &Vec<Step> = &self.grid[i];
            let ghost cells = self@.grid[i as int];
            let mut c: usize = 0;
            while c < row.len()
                invariant
                    c <= row.len(),
                    cells.len() == row.len(),
                    forall|x: int| 0 <= x < row.len() ==> cells[x] == #[trigger] row@[x]@,
                    out@ == before + row_label(self@.b_orig, i as int) + score_cells(
                        cells,
                        c as nat,
                    ),
                decreases row.len() - c,
            {
                let ghost so_far = out@;
                out.push(SPACE);
                push_padded_decimal(&mut out, row[c].val(), 3);
                out.push(BAR);
                assert(out@ =~= so_far + score_cell(cells[c as int].val));
                c = c + 1;
            }
            out.push(NEWLINE);
            assert(out@ =~= before + grid_line(self@, i as int));
            i = i + 1;
        }
        out
    }
}

/// Appends the bytes of `src` to `out`.
pub fn push_bytes(out: &mut Vec<u8>, src: &Vec<u8>)
    ensures
        final(out)@ == old(out)@ + src@,
{
    let mut k: usize = 0;
    while k < src.len()
        invariant
            k <= src.len(),
            out@ == old(out)@ + src@.take(k as int),
        decreases src.len() - k,
    {
        out.push(src[k]);
        k = k + 1;
        assert(out@ =~= old(out)@ + src@.take(k as int));
    }
    assert(src@.take(src.len() as int) =~= src@);
}

/// Of the first `k` columns no more are compared than there are, and no
/// more hold an identity than are compared.
pub proof fn lemma_counts_in_range(a: Seq<u8>, b: Seq<u8>, k: nat)
    ensures
        identical(a, b, k) <= compared(a, b, k) <= k,
    decreases k,
{
    if k > 0 {
        lemma_counts_in_range(a, b, (k - 1) as nat);
    }
}

/// The distance of rows that a machine can hold is a share: it lies between
/// zero and one, both included.
pub proof fn lemma_distance_in_range(a: Seq<u8>, b: Seq<u8>)
    requires
        a.len() <= usize::MAX,
    ensures
        distance_of(a, b) matches Ok(d) ==> 0 < d.denominator && d.numerator <= d.denominator,
        identities(a, b) <= residues(a, b) <= 2 * a.len(),
{
    lemma_counts_in_range(a, b, a.len());
}

/// Swapping the two rows of an aligned pair changes neither the number of
/// columns compared nor the number of identities among them.
pub proof fn lemma_counts_symmetric(a: Seq<u8>, b: Seq<u8>, k: nat)
    ensures
        compared(a, b, k) == compared(b, a, k),
        identical(a, b, k) == identical(b, a, k),
    decreases k,
{
    if k > 0 {
        lemma_counts_symmetric(a, b, (k - 1) as nat);
    }
}

/// The distance of an aligned pair does not depend on which of the two rows
/// is on top.
pub proof fn lemma_distance_symmetric(a: Seq<u8>, b: Seq<u8>)
    ensures
        distance_of(a, b) == distance_of(b, a),
{
    if a.len() == b.len() {
        lemma_counts_symmetric(a, b, a.len());
    }
}

/// An aligned pair of a row over itself holds an identity in every column
/// that is compared.
pub proof fn lemma_self_pair_identical(a: Seq<u8>, k: nat)
    ensures
        identical(a, a, k) == compared(a, a, k),
    decreases k,
{
    if k > 0 {
        lemma_self_pair_identical(a, (k - 1) as nat);
    }
}

/// A column that holds a symbol other than the gap is compared.
pub proof fn lemma_symbol_is_compared(a: Seq<u8>, b: Seq<u8>, k: nat, at: int)
    requires
        0 <= at < k,
        a[at] != GAP || b[at] != GAP,
    ensures
        compared(a, b, k) > 0,
    decreases k,
{
    if at < k - 1 {
        lemma_symbol_is_compared(a, b, (k - 1) as nat, at);
    }
}

/// An aligned pair has no distance for want of columns to compare exactly
/// if its two rows have the same length and hold nothing but gaps.
pub proof fn lemma_empty_comparison(a: Seq<u8>, b: Seq<u8>)
    ensures
        distance_of(a, b) == Err::<Distance, AlignError>(AlignError::EmptyComparison) <==> a.len()
            == b.len() && forall|k: int| 0 <= k < a.len() ==> a[k] == GAP && b[k] == GAP,
{
    if a.len() == b.len() {
        if forall|k: int| 0 <= k < a.len() ==> a[k] == GAP && b[k] == GAP {
            lemma_gaps_are_not_compared(a, b, a.len());
        } else {
            let k = choose|k: int| 0 <= k < a.len() && !(a[k] == GAP && b[k] == GAP);
            lemma_symbol_is_compared(a, b, a.len(), k);
        }
    }
}

/// Columns that hold a gap in both rows are not compared.
pub proof fn lemma_gaps_are_not_compared(a: Seq<u8>, b: Seq<u8>, k: nat)
    requires
        forall|x: int| 0 <= x < k ==> a[x] == GAP && b[x] == GAP,
    ensures
        compared(a, b, k) == 0,
    decreases k,
{
    if k > 0 {
        lemma_gaps_are_not_compared(a, b, (k - 1) as nat);
    }
}

/// The header cells of `k` symbols take five bytes each, and the second
/// byte of each is its symbol.
pub proof fn lemma_header_cells(top: Seq<u8>, k: nat, x: int)
    requires
        0 <= x < k,
    ensures
        header_cells(top, k).len() == 5 * k,
        header_cells(top, k).subrange(5 * x, 5 * x + 5) == header_cell(top[x]),
        header_cells(top, k)[5 * x + 1] == top[x],
    decreases k,
{
    lemma_header_cells_len(top, (k - 1) as nat);
    if x < k - 1 {
        lemma_header_cells(top, (k - 1) as nat, x);
    }
    assert(header_cells(top, k).subrange(5 * x, 5 * x + 5) =~= header_cell(top[x]));
}

/// The header cells of `k` symbols take five bytes each.
pub proof fn lemma_header_cells_len(top: Seq<u8>, k: nat)
    ensures
        header_cells(top, k).len() == 5 * k,
    decreases k,
{
    if k > 0 {
        lemma_header_cells_len(top, (k - 1) as nat);
    }
}

/// The header row names the symbols of the top sequence in their order:
/// after the nine bytes of the corner each symbol has a cell of five bytes
/// with the symbol as its second byte, and the end of the line follows the
/// last cell.
pub proof fn lemma_header_row(top: Seq<u8>, x: int)
    requires
        0 <= x < top.len(),
    ensures
        header_row(top).len() == 9 + 5 * top.len() + 1,
        header_row(top).subrange(9 + 5 * x, 9 + 5 * x + 5) == header_cell(top[x]),
        header_row(top)[9 + 5 * x + 1] == top[x],
        header_row(top).last() == NEWLINE,
{
    lemma_header_cells(top, top.len(), x);
    assert(header_row(top).subrange(9 + 5 * x, 9 + 5 * x + 5) =~= header_cells(
        top,
        top.len(),
    ).subrange(5 * x, 5 * x + 5));
}

/// The header column names the symbols of the bottom sequence in their
/// order: the line of the boundary row starts with an empty label, and the
/// line of each row below it starts with the symbol of the bottom sequence
/// that the row stands for, followed by two blanks and a bar.
pub proof fn lemma_header_column(v: AlignmentView, i: int)
    requires
        0 <= i <= v.b_orig.len(),
    ensures
        grid_line(v, i).subrange(0, 4) == row_label(v.b_orig, i),
        i > 0 ==> grid_line(v, i)[0] == v.b_orig[i - 1],
        i == 0 ==> grid_line(v, i)[0] == SPACE,
{
    assert(grid_line(v, i).subrange(0, 4) =~= row_label(v.b_orig, i));
}

} // verus!
