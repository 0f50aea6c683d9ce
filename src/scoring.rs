use vstd::prelude::*;

use crate::error::AlignError;
use crate::text::text_eq;

verus! {

/// Largest number of residues, query and target together, that one alignment may span.
/// It keeps every dynamic-programming value well inside the range of `i64`.
pub const MAX_ALIGN_LEN: usize = 268435456;

/// Number of residues in the amino-acid alphabet of the substitution matrices:
/// `ARNDCQEGHILKMFPSTWYVBZX*`, in that order.
pub const ALPHABET_SIZE: usize = 24;

/// Number of entries in the lower triangle (diagonal included) of a substitution matrix.
pub const TRIANGLE_SIZE: usize = 300;

/// Position of a residue in the alphabet `ARNDCQEGHILKMFPSTWYVBZX*`.
/// Lower-case letters count as their upper-case forms; any other byte counts as `X`.
pub open spec fn residue_index(b: u8) -> nat {
    let c: u8 = if 97 <= b && b <= 122 { (b - 32) as u8 } else { b };
    if c == 65 { 0 }
    else if c == 82 { 1 }
    else if c == 78 { 2 }
    else if c == 68 { 3 }
    else if c == 67 { 4 }
    else if c == 81 { 5 }
    else if c == 69 { 6 }
    else if c == 71 { 7 }
    else if c == 72 { 8 }
    else if c == 73 { 9 }
    else if c == 76 { 10 }
    else if c == 75 { 11 }
    else if c == 77 { 12 }
    else if c == 70 { 13 }
    else if c == 80 { 14 }
    else if c == 83 { 15 }
    else if c == 84 { 16 }
    else if c == 87 { 17 }
    else if c == 89 { 18 }
    else if c == 86 { 19 }
    else if c == 66 { 20 }
    else if c == 90 { 21 }
    else if c == 42 { 23 }
    else { 22 }
}

/// The entries of a table as mathematical integers.
pub open spec fn widen(s: Seq<i32>) -> Seq<int> {
    s.map_values(|v: i32| v as int)
}

/// Index into the lower triangle of the entry for residues `a` and `b`; the same for `(a, b)`
/// and `(b, a)`, which makes every substitution matrix symmetric.
pub open spec fn triangle_index(a: nat, b: nat) -> nat {
    if a >= b { a * (a + 1) / 2 + b } else { b * (b + 1) / 2 + a }
}

fn residue_index_of(b: u8) -> (r: usize)
    ensures
        r == residue_index(b),
        r < ALPHABET_SIZE,
{
    let c: u8 = if 97 <= b && b <= 122 { b - 32 } else { b };
    if c == 65 { 0 }
    else if c == 82 { 1 }
    else if c == 78 { 2 }
    else if c == 68 { 3 }
    else if c == 67 { 4 }
    else if c == 81 { 5 }
    else if c == 69 { 6 }
    else if c == 71 { 7 }
    else if c == 72 { 8 }
    else if c == 73 { 9 }
    else if c == 76 { 10 }
    else if c == 75 { 11 }
    else if c == 77 { 12 }
    else if c == 70 { 13 }
    else if c == 80 { 14 }
    else if c == 83 { 15 }
    else if c == 84 { 16 }
    else if c == 87 { 17 }
    else if c == 89 { 18 }
    else if c == 86 { 19 }
    else if c == 66 { 20 }
    else if c == 90 { 21 }
    else if c == 42 { 23 }
    else { 22 }
}

fn triangle_index_of(a: usize, b: usize) -> (r: usize)
    requires
        a < ALPHABET_SIZE,
        b < ALPHABET_SIZE,
    ensures
        r == triangle_index(a as nat, b as nat),
        r < TRIANGLE_SIZE,
{
    let (hi, lo) = if a >= b { (a, b) } else { (b, a) };
    assert(hi * (hi + 1) / 2 + lo < 300) by (nonlinear_arith)
        requires hi < 24, lo <= hi;
    hi * (hi + 1) / 2 + lo
}

/// Simple nucleotide scoring: one score for identical residues, one for different ones,
/// and affine gap costs.
#[derive(Clone, Copy, Debug, PartialEq, Eq, Structural)]
pub struct ScoringMatrix {
    pub match_score: i32,
    pub mismatch_score: i32,
    /// Added once for each gap, on top of the extension cost of its first residue.
    pub gap_open: i32,
    /// Added for every residue of a gap.
    pub gap_extend: i32,
}

impl ScoringMatrix {
    /// Gap costs are scores added to an alignment: a positive one would reward gaps.
    pub open spec fn is_valid(self) -> bool {
        self.gap_open <= 0 && self.gap_extend <= 0
    }

    /// Builds a scheme from its four scores; rewarding gaps is refused.
    pub fn new(match_score: i32, mismatch_score: i32, gap_open: i32, gap_extend: i32) -> (r:
        Result<ScoringMatrix, AlignError>)
        ensures
            gap_open <= 0 && gap_extend <= 0 ==> r == Ok::<ScoringMatrix, AlignError>(
                (ScoringMatrix { match_score, mismatch_score, gap_open, gap_extend }),
            ),
            !(gap_open <= 0 && gap_extend <= 0) ==> r == Err::<ScoringMatrix, AlignError>(
                AlignError::InvalidScoring,
            ),
    {
        if gap_open <= 0 && gap_extend <= 0 {
            Ok(ScoringMatrix { match_score, mismatch_score, gap_open, gap_extend })
        } else {
            Err(AlignError::InvalidScoring)
        }
    }

    /// The default nucleotide scheme: match +2, mismatch -1, gap open -5, gap extend -2.
    pub fn dna_default() -> (r: ScoringMatrix)
        ensures
            r.match_score == 2 && r.mismatch_score == -1 && r.gap_open == -5 && r.gap_extend == -2,
    {
        ScoringMatrix { match_score: 2, mismatch_score: -1, gap_open: -5, gap_extend: -2 }
    }
}

/// A symmetric amino-acid substitution matrix over the alphabet `ARNDCQEGHILKMFPSTWYVBZX*`,
/// held as its lower triangle, row by row, plus affine gap costs.
#[derive(Clone, Debug)]
pub struct SubstitutionMatrix {
    pub lower_triangle: Vec<i32>,
    pub gap_open: i32,
    pub gap_extend: i32,
}

impl SubstitutionMatrix {
    pub open spec fn is_valid(&self) -> bool {
        &&& self.lower_triangle@.len() == TRIANGLE_SIZE
        &&& self.gap_open <= 0
        &&& self.gap_extend <= 0
    }

    /// Score of aligning residue `a` with residue `b`.
    pub open spec fn spec_score(&self, a: u8, b: u8) -> int {
        self.lower_triangle@[triangle_index(residue_index(a), residue_index(b)) as int] as int
    }

    /// Builds a matrix from its lower triangle (row `i` holds the scores of residue `i`
    /// against residues `0..=i`); a triangle of the wrong size or a gap reward is refused.
    pub fn from_lower_triangle(lower_triangle: Vec<i32>, gap_open: i32, gap_extend: i32) -> (r:
        Result<SubstitutionMatrix, AlignError>)
        ensures
            lower_triangle@.len() == TRIANGLE_SIZE && gap_open <= 0 && gap_extend <= 0 ==> r is Ok
                && r->Ok_0.lower_triangle@ == lower_triangle@ && r->Ok_0.gap_open == gap_open
                && r->Ok_0.gap_extend == gap_extend,
            !(lower_triangle@.len() == TRIANGLE_SIZE && gap_open <= 0 && gap_extend <= 0) ==> r
                == Err::<SubstitutionMatrix, AlignError>(AlignError::InvalidScoring),
    {
        if lower_triangle.len() == TRIANGLE_SIZE && gap_open <= 0 && gap_extend <= 0 {
            Ok(SubstitutionMatrix { lower_triangle, gap_open, gap_extend })
        } else {
            Err(AlignError::InvalidScoring)
        }
    }

    /// Score of aligning residue `a` with residue `b`.
    pub fn score(&self, a: u8, b: u8) -> (r: i32)
        requires
            self.is_valid(),
        ensures
            r == self.spec_score(a, b),
    {
        let i = residue_index_of(a);
        let j = residue_index_of(b);
        self.lower_triangle[triangle_index_of(i, j)]
    }

    /// BLOSUM62, with gap open -11 and gap extend -1.
    pub fn blosum62() -> (r: SubstitutionMatrix)
        ensures
            r.is_valid(),
            widen(r.lower_triangle@) == blosum62_table(),
            r.gap_open == -11,
            r.gap_extend == -1,
    {
        let lower_triangle: Vec<i32> = vec![
            4, -1, 5, -2, 0, 6, -2, -2, 1, 6, 0, -3, -3, -3, 9,
            -1, 1, 0, 0, -3, 5, -1, 0, 0, 2, -4, 2, 5, 0, -2,
            0, -1, -3, -2, -2, 6, -2, 0, 1, -1, -3, 0, 0, -2, 8,
            -1, -3, -3, -3, -1, -3, -3, -4, -3, 4, -1, -2, -3, -4, -1,
            -2, -3, -4, -3, 2, 4, -1, 2, 0, -1, -3, 1, 1, -2, -1,
            -3, -2, 5, -1, -1, -2, -3, -1, 0, -2, -3, -2, 1, 2, -1,
            5, -2, -3, -3, -3, -2, -3, -3, -3, -1, 0, 0, -3, 0, 6,
            -1, -2, -2, -1, -3, -1, -1, -2, -2, -3, -3, -1, -2, -4, 7,
            1, -1, 1, 0, -1, 0, 0, 0, -1, -2, -2, 0, -1, -2, -1,
            4, 0, -1, 0, -1, -1, -1, -1, -2, -2, -1, -1, -1, -1, -2,
            -1, 1, 5, -3, -3, -4, -4, -2, -2, -3, -2, -2, -3, -2, -3,
            -1, 1, -4, -3, -2, 11, -2, -2, -2, -3, -2, -1, -2, -3, 2,
            -1, -1, -2, -1, 3, -3, -2, -2, 2, 7, 0, -3, -3, -3, -1,
            -2, -2, -3, -3, 3, 1, -2, 1, -1, -2, -2, 0, -3, -1, 4,
            -2, -1, 3, 4, -3, 0, 1, -1, 0, -3, -4, 0, -3, -3, -2,
            0, -1, -4, -3, -3, 4, -1, 0, 0, 1, -3, 3, 4, -2, 0,
            -3, -3, 1, -1, -3, -1, 0, -1, -3, -2, -2, 1, 4, 0, -1,
            -1, -1, -2, -1, -1, -1, -1, -1, -1, -1, -1, -1, -2, 0, 0,
            -2, -1, -1, -1, -1, -1, -4, -4, -4, -4, -4, -4, -4, -4, -4,
            -4, -4, -4, -4, -4, -4, -4, -4, -4, -4, -4, -4, -4, -4, 1,
        ];
        assert(widen(lower_triangle@) =~= blosum62_table());
        SubstitutionMatrix { lower_triangle, gap_open: -11, gap_extend: -1 }
    }

    /// BLOSUM45, with gap open -15 and gap extend -2.
    pub fn blosum45() -> (r: SubstitutionMatrix)
        ensures
            r.is_valid(),
            widen(r.lower_triangle@) == blosum45_table(),
            r.gap_open == -15,
            r.gap_extend == -2,
    {
        let lower_triangle: Vec<i32> = vec![
            5, -2, 7, -1, 0, 6, -2, -1, 2, 7, -1, -3, -2, -3, 12,
            -1, 1, 0, 0, -3, 6, -1, 0, 0, 2, -3, 2, 6, 0, -2,
            0, -1, -3, -2, -2, 7, -2, 0, 1, 0, -3, 1, 0, -2, 10,
            -1, -3, -2, -4, -3, -2, -3, -4, -3, 5, -1, -2, -3, -3, -2,
            -2, -2, -3, -2, 2, 5, -1, 3, 0, 0, -3, 1, 1, -2, -1,
            -3, -3, 5, -1, -1, -2, -3, -2, 0, -2, -2, 0, 2, 2, -1,
            6, -2, -2, -2, -4, -2, -4, -3, -3, -2, 0, 1, -3, 0, 8,
            -1, -2, -2, -1, -4, -1, 0, -2, -2, -2, -3, -1, -2, -3, 9,
            1, -1, 1, 0, -1, 0, 0, 0, -1, -2, -3, -1, -2, -2, -1,
            4, 0, -1, 0, -1, -1, -1, -1, -2, -2, -1, -1, -1, -1, -1,
            -1, 2, 5, -2, -2, -4, -4, -5, -2, -3, -2, -3, -2, -2, -2,
            -2, 1, -3, -4, -3, 15, -2, -1, -2, -2, -3, -1, -2, -3, 2,
            0, 0, -1, 0, 3, -3, -2, -1, 3, 8, 0, -2, -3, -3, -1,
            -3, -3, -3, -3, 3, 1, -2, 1, 0, -3, -1, 0, -3, -1, 5,
            -1, -1, 4, 5, -2, 0, 1, -1, 0, -3, -3, 0, -2, -3, -2,
            0, 0, -4, -2, -3, 4, -1, 0, 0, 1, -3, 4, 4, -2, 0,
            -3, -2, 1, -1, -3, -1, 0, -1, -2, -2, -3, 2, 4, 0, -1,
            -1, -1, -2, -1, -1, -1, -1, -1, -1, -1, -1, -1, -1, 0, 0,
            -2, -1, -1, -1, -1, -1, -5, -5, -5, -5, -5, -5, -5, -5, -5,
            -5, -5, -5, -5, -5, -5, -5, -5, -5, -5, -5, -5, -5, -5, 1,
        ];
        assert(widen(lower_triangle@) =~= blosum45_table());
        SubstitutionMatrix { lower_triangle, gap_open: -15, gap_extend: -2 }
    }

    /// BLOSUM80, with gap open -10 and gap extend -1.
    pub fn blosum80() -> (r: SubstitutionMatrix)
        ensures
            r.is_valid(),
            widen(r.lower_triangle@) == blosum80_table(),
            r.gap_open == -10,
            r.gap_extend == -1,
    {
        let lower_triangle: Vec<i32> = vec![
            5, -2, 6, -2, -1, 6, -2, -2, 1, 6, -1, -4, -3, -4, 9,
            -1, 1, 0, -1, -4, 6, -1, -1, -1, 1, -5, 2, 6, 0, -3,
            -1, -2, -4, -2, -3, 6, -2, 0, 0, -2, -4, 1, 0, -3, 8,
            -2, -3, -4, -4, -2, -3, -4, -5, -4, 5, -2, -3, -4, -5, -2,
            -3, -4, -4, -3, 1, 4, -1, 2, 0, -1, -4, 1, 1, -2, -1,
            -3, -3, 5, -1, -2, -3, -4, -2, 0, -2, -4, -2, 1, 2, -2,
            6, -3, -4, -4, -4, -3, -4, -4, -4, -2, -1, 0, -4, 0, 6,
            -1, -2, -3, -2, -4, -2, -2, -3, -3, -4, -3, -1, -3, -4, 8,
            1, -1, 0, -1, -2, 0, 0, -1, -1, -3, -3, -1, -2, -3, -1,
            5, 0, -1, 0, -1, -1, -1, -1, -2, -2, -1, -2, -1, -1, -2,
            -2, 1, 5, -3, -4, -4, -6, -3, -3, -4, -4, -3, -3, -2, -4,
            -2, 0, -5, -4, -4, 11, -2, -3, -3, -4, -3, -2, -3, -4, 2,
            -2, -2, -3, -2, 3, -4, -2, -2, 2, 7, 0, -3, -4, -4, -1,
            -3, -3, -4, -4, 3, 1, -3, 1, -1, -3, -2, 0, -3, -2, 4,
            -2, -1, 5, 5, -4, 0, 1, -1, -1, -4, -4, -1, -3, -4, -2,
            0, -1, -5, -3, -4, 5, -1, 0, 0, 1, -4, 3, 5, -3, 0,
            -4, -3, 1, -2, -4, -2, 0, -1, -4, -3, -3, 0, 5, -1, -1,
            -1, -1, -1, -1, -1, -1, -1, -1, -1, -1, -1, -1, -1, -1, -1,
            -1, -1, -1, -1, -1, -1, -6, -6, -6, -6, -6, -6, -6, -6, -6,
            -6, -6, -6, -6, -6, -6, -6, -6, -6, -6, -6, -6, -6, -6, 1,
        ];
        assert(widen(lower_triangle@) =~= blosum80_table());
        SubstitutionMatrix { lower_triangle, gap_open: -10, gap_extend: -1 }
    }

    /// PAM250, with gap open -14 and gap extend -2.
    pub fn pam250() -> (r: SubstitutionMatrix)
        ensures
            r.is_valid(),
            widen(r.lower_triangle@) == pam250_table(),
            r.gap_open == -14,
            r.gap_extend == -2,
    {
        let lower_triangle: Vec<i32> = vec![
            2, -2, 6, 0, 0, 2, 0, -1, 2, 4, -2, -4, -4, -5, 12,
            0, 1, 1, 2, -5, 4, 0, -1, 1, 3, -5, 2, 4, 1, -3,
            0, 1, -3, -1, 0, 5, -1, 2, 2, 1, -3, 3, 1, -2, 6,
            -1, -2, -2, -2, -2, -2, -2, -3, -2, 5, -2, -3, -3, -4, -6,
            -2, -3, -4, -2, 2, 6, -1, 3, 1, 0, -5, 1, 0, -2, 0,
            -2, -3, 5, -1, 0, -2, -3, -5, -1, -2, -3, -2, 2, 4, 0,
            6, -3, -4, -3, -6, -4, -5, -5, -5, -2, 1, 2, -5, 0, 9,
            1, 0, 0, -1, -3, 0, -1, 0, 0, -2, -3, -1, -2, -5, 6,
            1, 0, 1, 0, 0, -1, 0, 1, -1, -1, -3, 0, -2, -3, 1,
            2, 1, -1, 0, 0, -2, -1, 0, 0, -1, 0, -2, 0, -1, -3,
            0, 1, 3, -6, 2, -4, -7, -8, -5, -7, -7, -3, -5, -2, -3,
            -4, 0, -6, -2, -5, 17, -3, -4, -2, -4, 0, -4, -4, -5, 0,
            -1, -1, -4, -2, 7, -5, -3, -3, 0, 10, 0, -2, -2, -2, -2,
            -2, -2, -1, -2, 4, 2, -2, 2, -1, -1, -1, 0, -6, -2, 4,
            0, -1, 2, 3, -4, 1, 3, 0, 1, -2, -3, 1, -2, -4, -1,
            0, 0, -5, -3, -2, 3, 0, 0, 1, 3, -5, 3, 3, 0, 2,
            -2, -3, 0, -2, -5, 0, 0, -1, -6, -4, -2, 2, 3, 0, -1,
            0, -1, -3, -1, -1, -1, -1, -1, -1, -1, -1, -2, -1, 0, 0,
            -4, -2, -1, -1, -1, -1, -8, -8, -8, -8, -8, -8, -8, -8, -8,
            -8, -8, -8, -8, -8, -8, -8, -8, -8, -8, -8, -8, -8, -8, 1,
        ];
        assert(widen(lower_triangle@) =~= pam250_table());
        SubstitutionMatrix { lower_triangle, gap_open: -14, gap_extend: -2 }
    }
}

/// Lower triangle of BLOSUM62, row by row over the alphabet `ARNDCQEGHILKMFPSTWYVBZX*`.
pub open spec fn blosum62_table() -> Seq<int> {
    seq![
        4, -1, 5, -2, 0, 6, -2, -2, 1, 6, 0, -3, -3, -3, 9,
        -1, 1, 0, 0, -3, 5, -1, 0, 0, 2, -4, 2, 5, 0, -2,
        0, -1, -3, -2, -2, 6, -2, 0, 1, -1, -3, 0, 0, -2, 8,
        -1, -3, -3, -3, -1, -3, -3, -4, -3, 4, -1, -2, -3, -4, -1,
        -2, -3, -4, -3, 2, 4, -1, 2, 0, -1, -3, 1, 1, -2, -1,
        -3, -2, 5, -1, -1, -2, -3, -1, 0, -2, -3, -2, 1, 2, -1,
        5, -2, -3, -3, -3, -2, -3, -3, -3, -1, 0, 0, -3, 0, 6,
        -1, -2, -2, -1, -3, -1, -1, -2, -2, -3, -3, -1, -2, -4, 7,
        1, -1, 1, 0, -1, 0, 0, 0, -1, -2, -2, 0, -1, -2, -1,
        4, 0, -1, 0, -1, -1, -1, -1, -2, -2, -1, -1, -1, -1, -2,
        -1, 1, 5, -3, -3, -4, -4, -2, -2, -3, -2, -2, -3, -2, -3,
        -1, 1, -4, -3, -2, 11, -2, -2, -2, -3, -2, -1, -2, -3, 2,
        -1, -1, -2, -1, 3, -3, -2, -2, 2, 7, 0, -3, -3, -3, -1,
        -2, -2, -3, -3, 3, 1, -2, 1, -1, -2, -2, 0, -3, -1, 4,
        -2, -1, 3, 4, -3, 0, 1, -1, 0, -3, -4, 0, -3, -3, -2,
        0, -1, -4, -3, -3, 4, -1, 0, 0, 1, -3, 3, 4, -2, 0,
        -3, -3, 1, -1, -3, -1, 0, -1, -3, -2, -2, 1, 4, 0, -1,
        -1, -1, -2, -1, -1, -1, -1, -1, -1, -1, -1, -1, -2, 0, 0,
        -2, -1, -1, -1, -1, -1, -4, -4, -4, -4, -4, -4, -4, -4, -4,
        -4, -4, -4, -4, -4, -4, -4, -4, -4, -4, -4, -4, -4, -4, 1,
    ]
}

/// Lower triangle of BLOSUM45, row by row over the alphabet `ARNDCQEGHILKMFPSTWYVBZX*`.
pub open spec fn blosum45_table() -> Seq<int> {
    seq![
        5, -2, 7, -1, 0, 6, -2, -1, 2, 7, -1, -3, -2, -3, 12,
        -1, 1, 0, 0, -3, 6, -1, 0, 0, 2, -3, 2, 6, 0, -2,
        0, -1, -3, -2, -2, 7, -2, 0, 1, 0, -3, 1, 0, -2, 10,
        -1, -3, -2, -4, -3, -2, -3, -4, -3, 5, -1, -2, -3, -3, -2,
        -2, -2, -3, -2, 2, 5, -1, 3, 0, 0, -3, 1, 1, -2, -1,
        -3, -3, 5, -1, -1, -2, -3, -2, 0, -2, -2, 0, 2, 2, -1,
        6, -2, -2, -2, -4, -2, -4, -3, -3, -2, 0, 1, -3, 0, 8,
        -1, -2, -2, -1, -4, -1, 0, -2, -2, -2, -3, -1, -2, -3, 9,
        1, -1, 1, 0, -1, 0, 0, 0, -1, -2, -3, -1, -2, -2, -1,
        4, 0, -1, 0, -1, -1, -1, -1, -2, -2, -1, -1, -1, -1, -1,
        -1, 2, 5, -2, -2, -4, -4, -5, -2, -3, -2, -3, -2, -2, -2,
        -2, 1, -3, -4, -3, 15, -2, -1, -2, -2, -3, -1, -2, -3, 2,
        0, 0, -1, 0, 3, -3, -2, -1, 3, 8, 0, -2, -3, -3, -1,
        -3, -3, -3, -3, 3, 1, -2, 1, 0, -3, -1, 0, -3, -1, 5,
        -1, -1, 4, 5, -2, 0, 1, -1, 0, -3, -3, 0, -2, -3, -2,
        0, 0, -4, -2, -3, 4, -1, 0, 0, 1, -3, 4, 4, -2, 0,
        -3, -2, 1, -1, -3, -1, 0, -1, -2, -2, -3, 2, 4, 0, -1,
        -1, -1, -2, -1, -1, -1, -1, -1, -1, -1, -1, -1, -1, 0, 0,
        -2, -1, -1, -1, -1, -1, -5, -5, -5, -5, -5, -5, -5, -5, -5,
        -5, -5, -5, -5, -5, -5, -5, -5, -5, -5, -5, -5, -5, -5, 1,
    ]
}

/// Lower triangle of BLOSUM80, row by row over the alphabet `ARNDCQEGHILKMFPSTWYVBZX*`.
pub open spec fn blosum80_table() -> Seq<int> {
    seq![
        5, -2, 6, -2, -1, 6, -2, -2, 1, 6, -1, -4, -3, -4, 9,
        -1, 1, 0, -1, -4, 6, -1, -1, -1, 1, -5, 2, 6, 0, -3,
        -1, -2, -4, -2, -3, 6, -2, 0, 0, -2, -4, 1, 0, -3, 8,
        -2, -3, -4, -4, -2, -3, -4, -5, -4, 5, -2, -3, -4, -5, -2,
        -3, -4, -4, -3, 1, 4, -1, 2, 0, -1, -4, 1, 1, -2, -1,
        -3, -3, 5, -1, -2, -3, -4, -2, 0, -2, -4, -2, 1, 2, -2,
        6, -3, -4, -4, -4, -3, -4, -4, -4, -2, -1, 0, -4, 0, 6,
        -1, -2, -3, -2, -4, -2, -2, -3, -3, -4, -3, -1, -3, -4, 8,
        1, -1, 0, -1, -2, 0, 0, -1, -1, -3, -3, -1, -2, -3, -1,
        5, 0, -1, 0, -1, -1, -1, -1, -2, -2, -1, -2, -1, -1, -2,
        -2, 1, 5, -3, -4, -4, -6, -3, -3, -4, -4, -3, -3, -2, -4,
        -2, 0, -5, -4, -4, 11, -2, -3, -3, -4, -3, -2, -3, -4, 2,
        -2, -2, -3, -2, 3, -4, -2, -2, 2, 7, 0, -3, -4, -4, -1,
        -3, -3, -4, -4, 3, 1, -3, 1, -1, -3, -2, 0, -3, -2, 4,
        -2, -1, 5, 5, -4, 0, 1, -1, -1, -4, -4, -1, -3, -4, -2,
        0, -1, -5, -3, -4, 5, -1, 0, 0, 1, -4, 3, 5, -3, 0,
        -4, -3, 1, -2, -4, -2, 0, -1, -4, -3, -3, 0, 5, -1, -1,
        -1, -1, -1, -1, -1, -1, -1, -1, -1, -1, -1, -1, -1, -1, -1,
        -1, -1, -1, -1, -1, -1, -6, -6, -6, -6, -6, -6, -6, -6, -6,
        -6, -6, -6, -6, -6, -6, -6, -6, -6, -6, -6, -6, -6, -6, 1,
    ]
}

/// Lower triangle of PAM250, row by row over the alphabet `ARNDCQEGHILKMFPSTWYVBZX*`.
pub open spec fn pam250_table() -> Seq<int> {
    seq![
        2, -2, 6, 0, 0, 2, 0, -1, 2, 4, -2, -4, -4, -5, 12,
        0, 1, 1, 2, -5, 4, 0, -1, 1, 3, -5, 2, 4, 1, -3,
        0, 1, -3, -1, 0, 5, -1, 2, 2, 1, -3, 3, 1, -2, 6,
        -1, -2, -2, -2, -2, -2, -2, -3, -2, 5, -2, -3, -3, -4, -6,
        -2, -3, -4, -2, 2, 6, -1, 3, 1, 0, -5, 1, 0, -2, 0,
        -2, -3, 5, -1, 0, -2, -3, -5, -1, -2, -3, -2, 2, 4, 0,
        6, -3, -4, -3, -6, -4, -5, -5, -5, -2, 1, 2, -5, 0, 9,
        1, 0, 0, -1, -3, 0, -1, 0, 0, -2, -3, -1, -2, -5, 6,
        1, 0, 1, 0, 0, -1, 0, 1, -1, -1, -3, 0, -2, -3, 1,
        2, 1, -1, 0, 0, -2, -1, 0, 0, -1, 0, -2, 0, -1, -3,
        0, 1, 3, -6, 2, -4, -7, -8, -5, -7, -7, -3, -5, -2, -3,
        -4, 0, -6, -2, -5, 17, -3, -4, -2, -4, 0, -4, -4, -5, 0,
        -1, -1, -4, -2, 7, -5, -3, -3, 0, 10, 0, -2, -2, -2, -2,
        -2, -2, -1, -2, 4, 2, -2, 2, -1, -1, -1, 0, -6, -2, 4,
        0, -1, 2, 3, -4, 1, 3, 0, 1, -2, -3, 1, -2, -4, -1,
        0, 0, -5, -3, -2, 3, 0, 0, 1, 3, -5, 3, 3, 0, 2,
        -2, -3, 0, -2, -5, 0, 0, -1, -6, -4, -2, 2, 3, 0, -1,
        0, -1, -3, -1, -1, -1, -1, -1, -1, -1, -1, -2, -1, 0, 0,
        -4, -2, -1, -1, -1, -1, -8, -8, -8, -8, -8, -8, -8, -8, -8,
        -8, -8, -8, -8, -8, -8, -8, -8, -8, -8, -8, -8, -8, -8, 1,
    ]
}

/// How residue pairs and gaps are scored.
#[derive(Clone, Debug)]
pub enum ScoringScheme {
    Simple(ScoringMatrix),
    Substitution(SubstitutionMatrix),
}

impl ScoringScheme {
    pub open spec fn is_valid(&self) -> bool {
        match self {
            ScoringScheme::Simple(m) => m.is_valid(),
            ScoringScheme::Substitution(m) => m.is_valid(),
        }
    }

    /// Score of a column that aligns residue `a` with residue `b`.
    pub open spec fn pair_score(&self, a: u8, b: u8) -> int {
        match self {
            ScoringScheme::Simple(m) => if a == b {
                m.match_score as int
            } else {
                m.mismatch_score as int
            },
            ScoringScheme::Substitution(m) => m.spec_score(a, b),
        }
    }

    pub open spec fn open_cost(&self) -> int {
        match self {
            ScoringScheme::Simple(m) => m.gap_open as int,
            ScoringScheme::Substitution(m) => m.gap_open as int,
        }
    }

    pub open spec fn extend_cost(&self) -> int {
        match self {
            ScoringScheme::Simple(m) => m.gap_extend as int,
            ScoringScheme::Substitution(m) => m.gap_extend as int,
        }
    }

    pub fn score(&self, a: u8, b: u8) -> (r: i32)
        requires
            self.is_valid(),
        ensures
            r == self.pair_score(a, b),
    {
        match self {
            ScoringScheme::Simple(m) => if a == b {
                m.match_score
            } else {
                m.mismatch_score
            },
            ScoringScheme::Substitution(m) => m.score(a, b),
        }
    }

    pub fn gap_open(&self) -> (r: i32)
        ensures
            r == self.open_cost(),
    {
        match self {
            ScoringScheme::Simple(m) => m.gap_open,
            ScoringScheme::Substitution(m) => m.gap_open,
        }
    }

    pub fn gap_extend(&self) -> (r: i32)
        ensures
            r == self.extend_cost(),
    {
        match self {
            ScoringScheme::Simple(m) => m.gap_extend,
            ScoringScheme::Substitution(m) => m.gap_extend,
        }
    }

    /// Every substitution score is symmetric in its two residues.
    pub proof fn lemma_pair_score_symmetric(&self, a: u8, b: u8)
        ensures
            self.pair_score(a, b) == self.pair_score(b, a),
    {
    }
}

/// Resolves a substitution matrix by name: `blosum62`, `blosum45`, `blosum80` or `pam250`.
pub fn parse_substitution_matrix(name: &str) -> (r: Result<SubstitutionMatrix, AlignError>)
    ensures
        name@ == "blosum62"@ ==> r is Ok && widen(r->Ok_0.lower_triangle@) == blosum62_table()
            && r->Ok_0.gap_open == -11 && r->Ok_0.gap_extend == -1,
        name@ == "blosum45"@ ==> r is Ok && widen(r->Ok_0.lower_triangle@) == blosum45_table()
            && r->Ok_0.gap_open == -15 && r->Ok_0.gap_extend == -2,
        name@ == "blosum80"@ ==> r is Ok && widen(r->Ok_0.lower_triangle@) == blosum80_table()
            && r->Ok_0.gap_open == -10 && r->Ok_0.gap_extend == -1,
        name@ == "pam250"@ ==> r is Ok && widen(r->Ok_0.lower_triangle@) == pam250_table()
            && r->Ok_0.gap_open == -14 && r->Ok_0.gap_extend == -2,
        !(name@ == "blosum62"@ || name@ == "blosum45"@ || name@ == "blosum80"@ || name@
            == "pam250"@) ==> r == Err::<SubstitutionMatrix, AlignError>(AlignError::InvalidScoring),
        r is Ok ==> r->Ok_0.is_valid(),
{
    proof {
        reveal_strlit("blosum62");
        reveal_strlit("blosum45");
        reveal_strlit("blosum80");
        reveal_strlit("pam250");
        assert("blosum45"@[6] != "blosum62"@[6]);
        assert("blosum80"@[6] != "blosum62"@[6]);
        assert("blosum80"@[6] != "blosum45"@[6]);
        assert("pam250"@.len() != "blosum62"@.len());
    }
    if text_eq(name, "blosum62") {
        Ok(SubstitutionMatrix::blosum62())
    } else if text_eq(name, "blosum45") {
        Ok(SubstitutionMatrix::blosum45())
    } else if text_eq(name, "blosum80") {
        Ok(SubstitutionMatrix::blosum80())
    } else if text_eq(name, "pam250") {
        Ok(SubstitutionMatrix::pam250())
    } else {
        Err(AlignError::InvalidScoring)
    }
}

} // verus!
