use vstd::prelude::*;

use crate::banded;
use crate::cigar::{
    self, alignment_ops, cigar_of, class_len, collapsed, expanded, md_events, md_text, merged,
    recoded, render, reversed_ops, split_ops, total_len, OpClass,
};
use crate::error::AlignError;
use crate::msa::{self, msa_error, msa_rows, MsaResult};
use crate::pairwise::{
    self, align_batch, dp, is_best_end, pair_error, parse_alignment_mode, AlignmentMode,
    AlignmentResult, Track, GAP,
};
use crate::poa::{self, is_consensus_of, poa_build, residues, PoaScoring};
use crate::scoring::{
    blosum45_table, blosum62_table, blosum80_table, pam250_table, parse_substitution_matrix, widen,
    ScoringMatrix, ScoringScheme, SubstitutionMatrix, MAX_ALIGN_LEN,
};
use crate::text::text_eq;

verus! {

/// The default nucleotide scheme.
pub open spec fn dna_scheme() -> ScoringScheme {
    ScoringScheme::Simple(
        ScoringMatrix {
            match_score: 2,
            mismatch_score: -1i32,
            gap_open: -5i32,
            gap_extend: -2i32,
        },
    )
}

fn dna_scoring() -> (r: ScoringScheme)
    ensures
        r == dna_scheme(),
{
    ScoringScheme::Simple(ScoringMatrix::dna_default())
}

/// The mode a name selects: `local`, `global` or `semiglobal`.
pub open spec fn mode_named(mode: Seq<char>) -> Option<AlignmentMode> {
    if mode == "local"@ {
        Some(AlignmentMode::Local)
    } else if mode == "global"@ {
        Some(AlignmentMode::Global)
    } else if mode == "semiglobal"@ {
        Some(AlignmentMode::SemiGlobal)
    } else {
        None
    }
}

fn mode_of(mode: &str) -> (r: Result<AlignmentMode, AlignError>)
    ensures
        match mode_named(mode@) {
            Some(m) => r == Ok::<AlignmentMode, AlignError>(m),
            None => r == Err::<AlignmentMode, AlignError>(AlignError::InvalidMode),
        },
{
    proof {
        reveal_strlit("local");
        reveal_strlit("global");
        reveal_strlit("semiglobal");
        assert("local"@.len() != "global"@.len());
        assert("local"@.len() != "semiglobal"@.len());
        assert("global"@.len() != "semiglobal"@.len());
    }
    parse_alignment_mode(mode)
}

/// Aligns two nucleotide sequences with the default scheme (match +2, mismatch -1, gap open
/// -5, gap extend -2) in the named mode.
pub fn align_dna(query: &[u8], target: &[u8], mode: &str) -> (r: Result<
    AlignmentResult,
    AlignError,
>)
    ensures
        match mode_named(mode@) {
            None => r == Err::<AlignmentResult, AlignError>(AlignError::InvalidMode),
            Some(m) => match pair_error(query@, target@, dna_scheme()) {
                Some(e) => r == Err::<AlignmentResult, AlignError>(e),
                None => r is Ok && r->Ok_0.is_alignment_of(m, dna_scheme(), query@, target@),
            },
        },
{
    let m = mode_of(mode)?;
    let scoring = dna_scoring();
    pairwise::align(query, target, m, &scoring)
}

/// Aligns two nucleotide sequences with a scheme of the caller's four scores.
pub fn align_dna_custom(
    query: &[u8],
    target: &[u8],
    mode: &str,
    match_score: i32,
    mismatch_score: i32,
    gap_open: i32,
    gap_extend: i32,
) -> (r: Result<AlignmentResult, AlignError>)
    ensures
        ({
            let sc = ScoringScheme::Simple(
                ScoringMatrix { match_score, mismatch_score, gap_open, gap_extend },
            );
            match mode_named(mode@) {
                None => r == Err::<AlignmentResult, AlignError>(AlignError::InvalidMode),
                Some(m) => if gap_open > 0 || gap_extend > 0 {
                    r == Err::<AlignmentResult, AlignError>(AlignError::InvalidScoring)
                } else {
                    match pair_error(query@, target@, sc) {
                        Some(e) => r == Err::<AlignmentResult, AlignError>(e),
                        None => r is Ok && r->Ok_0.is_alignment_of(m, sc, query@, target@),
                    }
                },
            }
        }),
{
    let m = mode_of(mode)?;
    let matrix = ScoringMatrix::new(match_score, mismatch_score, gap_open, gap_extend)?;
    let scoring = ScoringScheme::Simple(matrix);
    pairwise::align(query, target, m, &scoring)
}

/// The substitution scheme a matrix name selects, if any.
pub open spec fn protein_scheme(name: Seq<char>) -> Option<(Seq<int>, i32, i32)> {
    if name == "blosum62"@ {
        Some((blosum62_table(), -11i32, -1i32))
    } else if name == "blosum45"@ {
        Some((blosum45_table(), -15i32, -2i32))
    } else if name == "blosum80"@ {
        Some((blosum80_table(), -10i32, -1i32))
    } else if name == "pam250"@ {
        Some((pam250_table(), -14i32, -2i32))
    } else {
        None
    }
}

/// Aligns two protein sequences with a named substitution matrix.
pub fn align_protein(query: &[u8], target: &[u8], mode: &str, matrix: &str) -> (r: Result<
    AlignmentResult,
    AlignError,
>)
    ensures
        mode_named(mode@) is None ==> r == Err::<AlignmentResult, AlignError>(
            AlignError::InvalidMode,
        ),
        mode_named(mode@) is Some && protein_scheme(matrix@) is None ==> r == Err::<
            AlignmentResult,
            AlignError,
        >(AlignError::InvalidScoring),
        mode_named(mode@) is Some && protein_scheme(matrix@) is Some && (query@.len() == 0
            || target@.len() == 0) ==> r == Err::<AlignmentResult, AlignError>(
            AlignError::EmptyInput,
        ),
        mode_named(mode@) is Some && protein_scheme(matrix@) is Some && query@.len() > 0
            && target@.len() > 0 && query@.len() + target@.len() > MAX_ALIGN_LEN ==> r == Err::<
            AlignmentResult,
            AlignError,
        >(AlignError::TooLong),
        mode_named(mode@) is Some && protein_scheme(matrix@) is Some && query@.len() > 0
            && target@.len() > 0 && query@.len() + target@.len() <= MAX_ALIGN_LEN ==> r is Ok
            && exists|sub: SubstitutionMatrix|
            widen(sub.lower_triangle@) == protein_scheme(matrix@)->Some_0.0 && sub.gap_open
                == protein_scheme(matrix@)->Some_0.1 && sub.gap_extend == protein_scheme(
                matrix@,
            )->Some_0.2 && sub.is_valid() && r->Ok_0.is_alignment_of(
                mode_named(mode@)->Some_0,
                ScoringScheme::Substitution(sub),
                query@,
                target@,
            ),
{
    let m = mode_of(mode)?;
    let sub = parse_substitution_matrix(matrix)?;
    let scoring = ScoringScheme::Substitution(sub);
    pairwise::align(query, target, m, &scoring)
}

/// Aligns every pair with the default nucleotide scheme; the first failing pair stops the
/// batch with its error.
pub fn align_batch_dna(pairs: &[(Vec<u8>, Vec<u8>)], mode: &str) -> (r: Result<
    Vec<AlignmentResult>,
    AlignError,
>)
    ensures
        mode_named(mode@) is None ==> r == Err::<Vec<AlignmentResult>, AlignError>(
            AlignError::InvalidMode,
        ),
        mode_named(mode@) is Some ==> (r is Ok <==> forall|x: int|
            0 <= x < pairs@.len() ==> pair_error((#[trigger] pairs@[x]).0@, pairs@[x].1@, dna_scheme())
                is None),
        mode_named(mode@) is Some && r is Ok ==> r->Ok_0@.len() == pairs@.len() && forall|x: int|
            0 <= x < pairs@.len() ==> (#[trigger] r->Ok_0@[x]).is_alignment_of(
                mode_named(mode@)->Some_0,
                dna_scheme(),
                pairs@[x].0@,
                pairs@[x].1@,
            ),
        mode_named(mode@) is Some && r is Err ==> exists|x: int|
            0 <= x < pairs@.len() && pair_error((#[trigger] pairs@[x]).0@, pairs@[x].1@, dna_scheme())
                == Some(r->Err_0) && forall|y: int|
                0 <= y < x ==> pair_error((#[trigger] pairs@[y]).0@, pairs@[y].1@, dna_scheme()) is None,
{
    let m = mode_of(mode)?;
    let scoring = dna_scoring();
    align_batch(pairs, m, &scoring)
}

/// The scheme an alignment kind names: `dna` (the default nucleotide scheme) or `protein`
/// (BLOSUM62).
pub open spec fn kind_named(kind: Seq<char>) -> bool {
    kind == "dna"@ || kind == "protein"@
}

/// Progressive multiple alignment with the scheme of an alignment kind: `dna` selects the
/// default nucleotide scheme, `protein` BLOSUM62 with gap open -11 and gap extend -1.
pub fn progressive_msa(sequences: &[Vec<u8>], mode: &str) -> (r: Result<MsaResult, AlignError>)
    ensures
        !kind_named(mode@) ==> r == Err::<MsaResult, AlignError>(AlignError::InvalidScoring),
        kind_named(mode@) ==> match msa_error(sequences@, dna_scheme()) {
            Some(e) => r == Err::<MsaResult, AlignError>(e),
            None => r is Ok,
        },
        mode@ == "dna"@ && r is Ok ==> {
            let m = r->Ok_0;
            &&& m.aligned@.len() == sequences@.len()
            &&& forall|x: int| 0 <= x < m.aligned@.len() ==> (#[trigger] m.aligned@[x])@.len() == m.n_columns
            &&& forall|x: int|
                0 <= x < m.aligned@.len() ==> (#[trigger] m.aligned@[x])@ == msa_rows(
                    sequences@,
                    dna_scheme(),
                    sequences@.len(),
                )[x]
        },
        mode@ == "protein"@ && r is Ok ==> exists|sub: SubstitutionMatrix|
            widen(sub.lower_triangle@) == blosum62_table() && sub.gap_open == -11 && sub.gap_extend
                == -1 && sub.is_valid() && {
                let m = r->Ok_0;
                &&& m.aligned@.len() == sequences@.len()
                &&& forall|x: int| 0 <= x < m.aligned@.len() ==> (#[trigger] m.aligned@[x])@.len() == m.n_columns
                &&& forall|x: int|
                    0 <= x < m.aligned@.len() ==> (#[trigger] m.aligned@[x])@ == msa_rows(
                        sequences@,
                        ScoringScheme::Substitution(sub),
                        sequences@.len(),
                    )[x]
            },
        r is Ok ==> {
            let m = r->Ok_0;
            (forall|x: int| 0 <= x < sequences@.len() ==> pairwise::gap_free((#[trigger] sequences@[x])@))
                ==> forall|x: int|
                0 <= x < m.aligned@.len() ==> pairwise::degap((#[trigger] m.aligned@[x])@) == sequences@[x]@
        },
{
    proof {
        reveal_strlit("dna");
        reveal_strlit("protein");
        assert("dna"@.len() != "protein"@.len());
    }
    if text_eq(mode, "dna") {
        let scoring = dna_scoring();
        msa::progressive_msa(sequences, &scoring)
    } else if text_eq(mode, "protein") {
        let scoring = ScoringScheme::Substitution(SubstitutionMatrix::blosum62());
        let r = msa::progressive_msa(sequences, &scoring);
        proof {
            if let ScoringScheme::Substitution(sub) = scoring {
                assert(widen(sub.lower_triangle@) == blosum62_table());
                assert(sub.is_valid());
            }
        }
        r
    } else {
        Err(AlignError::InvalidScoring)
    }
}

/// Banded nucleotide alignment with the default scheme.
pub fn banded_align_dna(query: &[u8], target: &[u8], mode: &str, bandwidth: usize) -> (r: Result<
    AlignmentResult,
    AlignError,
>)
    ensures
        match mode_named(mode@) {
            None => r == Err::<AlignmentResult, AlignError>(AlignError::InvalidMode),
            Some(m) => match banded::banded_error(query@, target@, m, dna_scheme(), bandwidth as nat) {
                Some(e) => r == Err::<AlignmentResult, AlignError>(e),
                None => r is Ok && r->Ok_0.is_banded_alignment_of(
                    m,
                    dna_scheme(),
                    bandwidth as nat,
                    query@,
                    target@,
                ),
            },
        },
{
    let m = mode_of(mode)?;
    let scoring = dna_scoring();
    banded::banded_align(query, target, m, &scoring, bandwidth)
}

/// Score of the banded nucleotide alignment with the default scheme.
pub fn banded_score_only(query: &[u8], target: &[u8], mode: &str, bandwidth: usize) -> (r: Result<
    i64,
    AlignError,
>)
    ensures
        match mode_named(mode@) {
            None => r == Err::<i64, AlignError>(AlignError::InvalidMode),
            Some(m) => match banded::banded_error(query@, target@, m, dna_scheme(), bandwidth as nat) {
                Some(e) => r == Err::<i64, AlignError>(e),
                None => r is Ok && exists|i: nat, j: nat|
                    is_best_end(m, dna_scheme(), bandwidth as nat, query@, target@, i, j) && r->Ok_0
                        == dp(m, dna_scheme(), bandwidth as nat, query@, target@, i, j, Track::Best),
            },
        },
{
    let m = mode_of(mode)?;
    let scoring = dna_scoring();
    banded::banded_score_only(query, target, &scoring, bandwidth, m)
}


/// Consensus of a partial-order alignment of the sequences, in order.
pub fn poa_consensus(sequences: &[Vec<u8>]) -> (r: Result<Vec<u8>, AlignError>)
    ensures
        sequences@.len() == 0 || (exists|x: int|
            1 <= x < sequences@.len() && (#[trigger] sequences@[x])@.len() == 0) ==> r == Err::<
            Vec<u8>,
            AlignError,
        >(AlignError::EmptyInput),
        !(sequences@.len() == 0 || (exists|x: int|
            1 <= x < sequences@.len() && (#[trigger] sequences@[x])@.len() == 0)) && residues(
            sequences@,
        ) > MAX_ALIGN_LEN ==> r == Err::<Vec<u8>, AlignError>(AlignError::TooLong),
        !(sequences@.len() == 0 || (exists|x: int|
            1 <= x < sequences@.len() && (#[trigger] sequences@[x])@.len() == 0)) && residues(
            sequences@,
        ) <= MAX_ALIGN_LEN ==> r is Ok && is_consensus_of(
            poa_build(
                sequences@,
                PoaScoring { match_score: 2, mismatch_score: -1i32, gap_score: -2i32 },
                sequences@.len(),
            ),
            r->Ok_0@,
        ),
{
    let scoring = PoaScoring { match_score: 2, mismatch_score: -1, gap_score: -2 };
    poa::poa_consensus(sequences, &scoring)
}

/// Whether a CIGAR string parses and is consistent; a malformed one is an error.
pub fn validate_cigar(cigar: &str) -> (r: Result<bool, AlignError>)
    ensures
        match cigar_of(cigar@) {
            None => r == Err::<bool, AlignError>(AlignError::MalformedCigar),
            Some(ops) => if cigar::is_consistent(ops) {
                r == Ok::<bool, AlignError>(true)
            } else {
                r == Err::<bool, AlignError>(AlignError::InconsistentCigar)
            },
        },
{
    let ops = cigar::parse_cigar(cigar)?;
    cigar::validate_cigar(ops.as_slice())?;
    Ok(true)
}

/// The statistics of a CIGAR string. Identity is given as a fraction.
#[derive(Clone, Debug)]
pub struct CigarStats {
    pub cigar_string: String,
    pub reference_consumed: usize,
    pub query_consumed: usize,
    pub alignment_columns: usize,
    pub identity_numerator: usize,
    pub identity_denominator: usize,
    pub gap_count: usize,
    pub gap_bases: usize,
    pub soft_clipped: usize,
    pub hard_clipped: usize,
}

/// Parses a CIGAR string and reports its statistics.
pub fn cigar_stats(cigar: &str) -> (r: Result<CigarStats, AlignError>)
    ensures
        match cigar_of(cigar@) {
            None => r is Err && r->Err_0 == AlignError::MalformedCigar,
            Some(ops) => r is Ok && {
                let st = r->Ok_0;
                &&& st.cigar_string@ == render(ops)
                &&& st.reference_consumed == class_len(ops, OpClass::Reference)
                &&& st.query_consumed == class_len(ops, OpClass::Query)
                &&& st.alignment_columns == total_len(ops)
                &&& st.identity_numerator == class_len(ops, OpClass::Identical)
                &&& st.identity_denominator == class_len(ops, OpClass::Compared)
                &&& st.gap_count == cigar::class_runs(ops, OpClass::Indel)
                &&& st.gap_bases == class_len(ops, OpClass::Indel)
                &&& st.soft_clipped == class_len(ops, OpClass::Soft)
                &&& st.hard_clipped == class_len(ops, OpClass::Hard)
            },
        },
{
    let ops = cigar::parse_cigar(cigar)?;
    let o = ops.as_slice();
    let (soft, hard) = cigar::clipped_bases(o);
    let (num, den) = cigar::identity(o);
    Ok(
        CigarStats {
            cigar_string: cigar::cigar_string(o),
            reference_consumed: cigar::reference_consumed(o),
            query_consumed: cigar::query_consumed(o),
            alignment_columns: cigar::alignment_columns(o),
            identity_numerator: num,
            identity_denominator: den,
            gap_count: cigar::gap_count(o),
            gap_bases: cigar::gap_bases(o),
            soft_clipped: soft,
            hard_clipped: hard,
        },
    )
}

/// Rebuilds the aligned rows that a CIGAR string describes over a query and a reference.
pub fn cigar_to_alignment(cigar: &str, query: &[u8], target: &[u8]) -> (r: Result<
    (Vec<u8>, Vec<u8>),
    AlignError,
>)
    ensures
        match cigar_of(cigar@) {
            None => r == Err::<(Vec<u8>, Vec<u8>), AlignError>(AlignError::MalformedCigar),
            Some(ops) => if class_len(ops, OpClass::Query) == query@.len() && class_len(
                ops,
                OpClass::Reference,
            ) == target@.len() {
                r is Ok && (r->Ok_0.0@, r->Ok_0.1@) == expanded(ops, query@, target@)
            } else {
                r == Err::<(Vec<u8>, Vec<u8>), AlignError>(AlignError::LengthMismatch)
            },
        },
{
    let ops = cigar::parse_cigar(cigar)?;
    cigar::cigar_to_alignment(ops.as_slice(), query, target)
}

/// The CIGAR string of two aligned rows.
pub fn alignment_to_cigar(query: &[u8], target: &[u8]) -> (r: Result<String, AlignError>)
    ensures
        query@.len() != target@.len() ==> r == Err::<String, AlignError>(
            AlignError::LengthMismatch,
        ),
        query@.len() == target@.len() && (exists|x: int|
            0 <= x < query@.len() && query@[x] == GAP && target@[x] == GAP) ==> r == Err::<
            String,
            AlignError,
        >(AlignError::InconsistentCigar),
        query@.len() == target@.len() && (forall|x: int|
            0 <= x < query@.len() ==> !(query@[x] == GAP && target@[x] == GAP)) ==> r is Ok
            && r->Ok_0@ == render(alignment_ops(query@, target@)),
{
    let ops = cigar::alignment_to_cigar(query, target)?;
    Ok(cigar::cigar_string(ops.as_slice()))
}

/// Merges neighbouring runs of one code.
pub fn merge_cigar(cigar: &str) -> (r: Result<String, AlignError>)
    ensures
        match cigar_of(cigar@) {
            None => r == Err::<String, AlignError>(AlignError::MalformedCigar),
            Some(ops) => r is Ok && r->Ok_0@ == render(merged(ops)),
        },
{
    let ops = cigar::parse_cigar(cigar)?;
    Ok(cigar::cigar_string(cigar::merge_adjacent(ops.as_slice()).as_slice()))
}

/// Reverses the order of the runs.
pub fn reverse_cigar(cigar: &str) -> (r: Result<String, AlignError>)
    ensures
        match cigar_of(cigar@) {
            None => r == Err::<String, AlignError>(AlignError::MalformedCigar),
            Some(ops) => r is Ok && r->Ok_0@ == render(reversed_ops(ops)),
        },
{
    let ops = cigar::parse_cigar(cigar)?;
    Ok(cigar::cigar_string(cigar::reverse_cigar(ops.as_slice()).as_slice()))
}

/// Folds `=` and `X` into `M` and merges neighbouring runs.
pub fn collapse_cigar(cigar: &str) -> (r: Result<String, AlignError>)
    ensures
        match cigar_of(cigar@) {
            None => r == Err::<String, AlignError>(AlignError::MalformedCigar),
            Some(ops) => r is Ok && r->Ok_0@ == render(collapsed(ops)),
        },
{
    let ops = cigar::parse_cigar(cigar)?;
    Ok(cigar::cigar_string(cigar::collapse_matches(ops.as_slice()).as_slice()))
}

/// Rewrites hard clips as soft clips.
pub fn hard_clip_to_soft(cigar: &str) -> (r: Result<String, AlignError>)
    ensures
        match cigar_of(cigar@) {
            None => r == Err::<String, AlignError>(AlignError::MalformedCigar),
            Some(ops) => r is Ok && r->Ok_0@ == render(recoded(ops, true)),
        },
{
    let ops = cigar::parse_cigar(cigar)?;
    Ok(cigar::cigar_string(cigar::hard_clip_to_soft(ops.as_slice()).as_slice()))
}

/// Splits a CIGAR string at a reference position.
pub fn split_cigar(cigar: &str, ref_pos: usize) -> (r: Result<(String, String), AlignError>)
    ensures
        match cigar_of(cigar@) {
            None => r == Err::<(String, String), AlignError>(AlignError::MalformedCigar),
            Some(ops) => r is Ok && r->Ok_0.0@ == render(split_ops(ops, ref_pos as nat).0)
                && r->Ok_0.1@ == render(split_ops(ops, ref_pos as nat).1),
        },
{
    let ops = cigar::parse_cigar(cigar)?;
    let (left, right) = cigar::split_at_reference(ops.as_slice(), ref_pos);
    Ok((cigar::cigar_string(left.as_slice()), cigar::cigar_string(right.as_slice())))
}

/// The MD tag of a CIGAR string over the query and the reference.
pub fn generate_md_tag(cigar: &str, query: &[u8], reference: &[u8]) -> (r: Result<
    String,
    AlignError,
>)
    ensures
        match cigar_of(cigar@) {
            None => r == Err::<String, AlignError>(AlignError::MalformedCigar),
            Some(ops) => if class_len(ops, OpClass::Query) == query@.len() && class_len(
                ops,
                OpClass::Reference,
            ) == reference@.len() {
                r is Ok && r->Ok_0@ == md_text(md_events(ops, query@, reference@), 0, 0, false)
            } else {
                r == Err::<String, AlignError>(AlignError::LengthMismatch)
            },
        },
{
    let ops = cigar::parse_cigar(cigar)?;
    cigar::generate_md_tag(ops.as_slice(), query, reference)
}

} // verus!
