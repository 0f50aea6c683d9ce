use vstd::prelude::*;

verus! {

/// The ways in which an engine operation can fail.
#[derive(Clone, Copy, Debug, PartialEq, Eq, Structural)]
pub enum AlignError {
    /// A sequence or a collection that must hold at least one element was empty.
    EmptyInput,
    /// A scoring configuration was malformed or not recognised.
    InvalidScoring,
    /// An alignment mode name was not recognised.
    InvalidMode,
    /// A band width of zero was asked for.
    InvalidBandwidth,
    /// A CIGAR string did not follow the run-length grammar.
    MalformedCigar,
    /// A CIGAR parsed, but its operations do not form a valid alignment.
    InconsistentCigar,
    /// The lengths a CIGAR consumes disagree with the sequences supplied.
    LengthMismatch,
    /// The sequences of one alignment hold more residues than `MAX_ALIGN_LEN`, past which
    /// scores could leave the range of `i64`.
    TooLong,
}

} // verus!
