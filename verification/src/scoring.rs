use vstd::prelude::*;

verus! {

/// Model of a score table held as vectors.
pub open spec fn rows_view(rows: Seq<Vec<i32>>) -> Seq<Seq<i32>> {
    Seq::new(rows.len(), |r: int| rows[r]@)
}

/// A place at which `x` stands in `symbols`.
pub open spec fn position_of(symbols: Seq<u8>, x: u8) -> int {
    choose|k: int| 0 <= k < symbols.len() && symbols[k] == x
}

/// Whether `scores` is a square table with one row and one column for each
/// of `symbols`, none of which is listed twice.
pub open spec fn table_fits(symbols: Seq<u8>, scores: Seq<Seq<i32>>) -> bool {
    &&& symbols.no_duplicates()
    &&& scores.len() == symbols.len()
    &&& forall|r: int| 0 <= r < scores.len() ==> (#[trigger] scores[r]).len() == symbols.len()
}

/// The substitution scores that a table gives: the pair `(x, y)` has the
/// score in the row of `x` and the column of `y`, and pairs with a symbol
/// that is not listed have none.
pub open spec fn table_map(symbols: Seq<u8>, scores: Seq<Seq<i32>>) -> Map<(u8, u8), int> {
    Map::new(
        |p: (u8, u8)| symbols.contains(p.0) && symbols.contains(p.1),
        |p: (u8, u8)| scores[position_of(symbols, p.0)][position_of(symbols, p.1)] as int,
    )
}

/// In a list without repetitions each symbol stands at one place only.
pub proof fn lemma_position_unique(symbols: Seq<u8>, k: int)
    requires
        symbols.no_duplicates(),
        0 <= k < symbols.len(),
    ensures
        position_of(symbols, symbols[k]) == k,
{
}

/// A substitution matrix: a score for every ordered pair of the symbols it
/// lists. It need not be symmetric.
#[derive(Debug)]
pub struct Matrix {
    symbols: Vec<u8>,
    scores: Vec<Vec<i32>>,
}

impl View for Matrix {
    type V = Map<(u8, u8), int>;

    closed spec fn view(&self) -> Map<(u8, u8), int> {
        table_map(self.symbols@, rows_view(self.scores@))
    }
}

impl Matrix {
    #[verifier::type_invariant]
    spec fn inv(self) -> bool {
        table_fits(self.symbols@, rows_view(self.scores@))
    }

    /// The matrix over `symbols` whose row `r`, column `c` holds the score
    /// of `symbols[r]` on top against `symbols[c]` below; `None` if a symbol
    /// is listed twice or the table is not square over the symbols.
    pub fn new(symbols: Vec<u8>, scores: Vec<Vec<i32>>) -> (r: Option<Matrix>)
        ensures
            r is Some <==> table_fits(symbols@, rows_view(scores@)),
            r matches Some(m) ==> m@ == table_map(symbols@, rows_view(scores@)),
            r matches Some(m) ==> forall|p: int, q: int|
                0 <= p < symbols.len() && 0 <= q < symbols.len() ==> m@[(
                    #[trigger] symbols@[p],
                    #[trigger] symbols@[q],
                )] == scores@[p]@[q],
    {
        proof {
            if table_fits(symbols@, rows_view(scores@)) {
                assert forall|p: int, q: int|
                    0 <= p < symbols.len() && 0 <= q < symbols.len() implies table_map(
                    symbols@,
                    rows_view(scores@),
                )[(#[trigger] symbols@[p], #[trigger] symbols@[q])] == scores@[p]@[q] by {
                    lemma_position_unique(symbols@, p);
                    lemma_position_unique(symbols@, q);
                }
            }
        }
        let n: usize = symbols.len();
        if scores.len() != n {
            return None;
        }
        let mut r: usize = 0;
        while r < n
            invariant
                r <= n,
                n == symbols.len(),
                n == scores.len(),
                forall|q: int| 0 <= q < r ==> (#[trigger] rows_view(scores@)[q]).len() == n,
                forall|p: int, q: int|
                    0 <= p < q < r ==> #[trigger] symbols@[p] != #[trigger] symbols@[q],
            decreases n - r,
        {
            if scores[r].len() != n {
                assert(rows_view(scores@)[r as int].len() != n);
                return None;
            }
            let mut p: usize = 0;
            while p < r
                invariant
                    p <= r < n,
                    n == symbols.len(),
                    forall|q: int| 0 <= q < p ==> #[trigger] symbols@[q] != symbols@[r as int],
                decreases r - p,
            {
                if symbols[p] == symbols[r] {
                    return None;
                }
                p = p + 1;
            }
            r = r + 1;
        }
        Some(Matrix { symbols, scores })
    }

    /// Where `x` is listed, if it is.
    fn position(&self, x: u8) -> (r: Option<usize>)
        ensures
            match r {
                Some(k) => k < self.symbols@.len() && self.symbols@[k as int] == x && k
                    == position_of(self.symbols@, x),
                None => !self.symbols@.contains(x),
            },
    {
        proof {
            use_type_invariant(self);
        }
        let mut k: usize = 0;
        while k < self.symbols.len()
            invariant
                k <= self.symbols.len(),
                self.symbols@.no_duplicates(),
                forall|q: int| 0 <= q < k ==> self.symbols@[q] != x,
            decreases self.symbols.len() - k,
        {
            if self.symbols[k] == x {
                return Some(k);
            }
            k = k + 1;
        }
        None
    }

    /// Whether the matrix lists `x`.
    pub fn knows(&self, x: u8) -> (r: bool)
        ensures
            r == self@.dom().contains((x, x)),
    {
        self.position(x).is_some()
    }

    /// The score of `x` on top against `y` below, if the matrix lists both.
    pub fn get(&self, x: u8, y: u8) -> (r: Option<i32>)
        ensures
            r is Some <==> self@.dom().contains((x, y)),
            r matches Some(s) ==> self@[(x, y)] == s,
    {
        proof {
            use_type_invariant(self);
        }
        match self.position(x) {
            Some(px) => match self.position(y) {
                Some(py) => {
                    assert(rows_view(self.scores@)[px as int].len() == self.symbols@.len());
                    Some(self.scores[px][py])
                },
                None => None,
            },
            None => None,
        }
    }

    /// Every score is in the range of the machine integer that holds it.
    pub proof fn lemma_range(&self, x: u8, y: u8)
        ensures
            self@.dom().contains((x, y)) ==> i32::MIN <= self@[(x, y)] <= i32::MAX,
    {
    }

    /// A matrix scores a pair exactly if it lists both symbols of the pair.
    pub proof fn lemma_pairs(&self, x: u8, y: u8)
        ensures
            self@.dom().contains((x, y)) <==> self@.dom().contains((x, x))
                && self@.dom().contains((y, y)),
    {
    }
}

/// Mathematical model of a scoring configuration.
pub struct ScoringView {
    /// The substitution score of each ordered pair of listed symbols.
    pub replacement: Map<(u8, u8), int>,
    /// The penalty for the first position of a gap.
    pub gap_opening: int,
    /// The penalty for each further position of a gap.
    pub gap_extension: int,
}

impl ScoringView {
    /// Whether the substitution matrix lists `x`.
    pub open spec fn knows(self, x: u8) -> bool {
        self.replacement.dom().contains((x, x))
    }

    /// Whether the substitution matrix lists every symbol of `s`.
    pub open spec fn covers(self, s: Seq<u8>) -> bool {
        forall|k: int| 0 <= k < s.len() ==> self.knows(#[trigger] s[k])
    }

    /// Whether a pair is scored exactly if both of its symbols are listed,
    /// and scores and penalties are in the range of the machine integers
    /// that hold them. This is so of the model of every `Scoring`.
    pub open spec fn well_formed(self) -> bool {
        &&& forall|x: u8, y: u8|
            #[trigger] self.replacement.dom().contains((x, y)) <==> self.knows(x) && self.knows(y)
        &&& forall|x: u8, y: u8|
            self.replacement.dom().contains((x, y)) ==> i32::MIN <= #[trigger] self.replacement[(
                x,
                y,
            )] <= i32::MAX
        &&& i32::MIN <= self.gap_opening <= i32::MAX
        &&& i32::MIN <= self.gap_extension <= i32::MAX
    }

    /// The cost of a gap of `run` positions: the opening penalty for the
    /// first and the extension penalty for each of the others.
    pub open spec fn gap_cost(self, run: nat) -> int {
        if run == 0 {
            0
        } else {
            self.gap_opening + (run - 1) * self.gap_extension
        }
    }
}

/// The scoring configuration of an alignment: a substitution matrix and the
/// two penalties of the affine gap model. Penalties are costs: an alignment
/// algorithm subtracts them.
#[derive(Debug)]
pub struct Scoring {
    replacement: Matrix,
    gap_opening: i32,
    gap_extension: i32,
}

impl View for Scoring {
    type V = ScoringView;

    closed spec fn view(&self) -> ScoringView {
        ScoringView {
            replacement: self.replacement@,
            gap_opening: self.gap_opening as int,
            gap_extension: self.gap_extension as int,
        }
    }
}

impl Scoring {
    /// A scoring configuration from its three parts.
    pub fn new(replacement: Matrix, gap_opening: i32, gap_extension: i32) -> (r: Scoring)
        ensures
            r@ == (ScoringView {
                replacement: replacement@,
                gap_opening: gap_opening as int,
                gap_extension: gap_extension as int,
            }),
            r@.well_formed(),
    {
        let r = Scoring { replacement, gap_opening, gap_extension };
        proof {
            r.lemma_well_formed();
        }
        r
    }

    /// The substitution matrix.
    pub fn replacement(&self) -> (r: &Matrix)
        ensures
            r@ == self@.replacement,
    {
        &self.replacement
    }

    /// The penalty for the first position of a gap.
    pub fn gap_opening(&self) -> (r: i32)
        ensures
            r == self@.gap_opening,
    {
        self.gap_opening
    }

    /// The penalty for each further position of a gap.
    pub fn gap_extension(&self) -> (r: i32)
        ensures
            r == self@.gap_extension,
    {
        self.gap_extension
    }

    /// The cost of a gap of `run` positions.
    pub fn gap_cost(&self, run: usize) -> (r: i128)
        ensures
            r == self@.gap_cost(run as nat),
    {
        if run == 0 {
            0
        } else {
            let further: i128 = (run - 1) as i128;
            let extension: i128 = self.gap_extension as i128;
            assert(-0x8000_0000 * 0x1_0000_0000_0000_0000 <= further * extension
                <= 0x8000_0000 * 0x1_0000_0000_0000_0000) by (nonlinear_arith)
                requires
                    0 <= further < 0x1_0000_0000_0000_0000,
                    -0x8000_0000 <= extension < 0x8000_0000,
            ;
            self.gap_opening as i128 + further * extension
        }
    }

    /// The model of a scoring configuration is well formed.
    pub proof fn lemma_well_formed(&self)
        ensures
            self@.well_formed(),
    {
        let m = self@.replacement;
        assert forall|x: u8, y: u8| #[trigger]
            m.dom().contains((x, y)) <==> m.dom().contains((x, x)) && m.dom().contains(
                (y, y),
            ) by {
            self.replacement.lemma_pairs(x, y);
        }
        assert forall|x: u8, y: u8| m.dom().contains((x, y)) implies i32::MIN <= #[trigger] m[(
            x,
            y,
        )] <= i32::MAX by {
            self.replacement.lemma_range(x, y);
        }
    }
}

} // verus!
