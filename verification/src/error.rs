use vstd::prelude::*;

verus! {

/// Why an alignment request, or a distance computed from its result, failed.
#[derive(Clone, Copy, Debug, PartialEq, Eq, Structural)]
pub enum AlignError {
    /// A residue of one of the sequences has no row or column in the
    /// substitution matrix.
    UnknownSymbol,
    /// At least one of the two sequences has no residues.
    EmptyInput,
    /// No column of the aligned pair is left to compare once the columns that
    /// hold a gap in both rows are set aside.
    EmptyComparison,
    /// The two aligned rows differ in length.
    InconsistentAlignment,
}

} // verus!
