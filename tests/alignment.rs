use cyanea_native::api::{align_batch_dna, align_dna, align_dna_custom, align_protein};
use cyanea_native::pairwise::{align, AlignmentMode, GAP};
use cyanea_native::scoring::{parse_substitution_matrix, ScoringMatrix, ScoringScheme, SubstitutionMatrix};
use cyanea_native::AlignError;

fn degap(s: &[u8]) -> Vec<u8> {
    s.iter().copied().filter(|&b| b != GAP).collect()
}

#[test]
fn global_identical_dna() {
    let r = align_dna(b"ACGT", b"ACGT", "global").unwrap();
    assert_eq!(r.score, 4 * 2);
    assert_eq!(r.aligned_query, b"ACGT".to_vec());
    assert_eq!(r.aligned_target, b"ACGT".to_vec());
    let identity = r.matches() as f64 / r.length() as f64;
    assert_eq!(identity, 1.0);
    assert_eq!(r.cigar_string(), "4M");
}

#[test]
fn global_one_deletion() {
    let r = align_dna(b"ACGT", b"AGT", "global").unwrap();
    assert_eq!(r.length(), 4);
    assert_eq!(r.gaps(), 1);
    assert_eq!(r.aligned_query, b"ACGT".to_vec());
    assert_eq!(r.aligned_target, b"A-GT".to_vec());
    // three matches (+6) and a one-residue gap (-5 - 2)
    assert_eq!(r.score, -1);
    assert_eq!(r.cigar_string(), "1M1I2M");
}

#[test]
fn global_score_is_symmetric() {
    let pairs: [(&[u8], &[u8]); 3] =
        [(b"ACGTTGCA", b"AGTTGA"), (b"GATTACA", b"GCATGCT"), (b"AAAA", b"TTTTTT")];
    for (q, t) in pairs {
        let a = align_dna(q, t, "global").unwrap();
        let b = align_dna(t, q, "global").unwrap();
        assert_eq!(a.score, b.score);
    }
    let a = align_protein(b"HEAGAWGHEE", b"PAWHEAE", "global", "blosum62").unwrap();
    let b = align_protein(b"PAWHEAE", b"HEAGAWGHEE", "global", "blosum62").unwrap();
    assert_eq!(a.score, b.score);
}

#[test]
fn rows_reproduce_inputs() {
    for mode in ["global", "local", "semiglobal"] {
        let q = b"TTGACGTACGA";
        let t = b"GACCGTAC";
        let r = align_dna(q, t, mode).unwrap();
        assert_eq!(r.aligned_query.len(), r.aligned_target.len());
        assert_eq!(degap(&r.aligned_query), q[r.query_start..r.query_end].to_vec());
        assert_eq!(degap(&r.aligned_target), t[r.target_start..r.target_end].to_vec());
        for (a, b) in r.aligned_query.iter().zip(r.aligned_target.iter()) {
            assert!(!(*a == GAP && *b == GAP));
        }
    }
}

#[test]
fn local_finds_embedded_match() {
    let r = align_dna(b"TTACGTT", b"GGACGGG", "local").unwrap();
    assert_eq!(r.score, 6);
    assert_eq!(r.aligned_query, b"ACG".to_vec());
    assert_eq!((r.query_start, r.query_end), (2, 5));
    assert_eq!((r.target_start, r.target_end), (2, 5));
}

#[test]
fn local_score_never_negative() {
    let r = align_dna(b"AAAA", b"TTTT", "local").unwrap();
    assert_eq!(r.score, 0);
    assert_eq!(r.length(), 0);
    let r = align_dna(b"ACGTACGT", b"TTACGTAA", "local").unwrap();
    assert!(r.score >= 0);
    assert!(r.score >= 2 * 4);
}

#[test]
fn semiglobal_ends_are_free() {
    let r = align_dna(b"ACGT", b"TTACGTTT", "semiglobal").unwrap();
    assert_eq!(r.score, 8);
    assert_eq!(r.aligned_query, b"ACGT".to_vec());
    assert_eq!((r.target_start, r.target_end), (2, 6));
}

#[test]
fn errors_are_reported() {
    assert_eq!(align_dna(b"", b"ACGT", "global").unwrap_err(), AlignError::EmptyInput);
    assert_eq!(align_dna(b"ACGT", b"", "local").unwrap_err(), AlignError::EmptyInput);
    assert_eq!(align_dna(b"ACGT", b"ACGT", "fuzzy").unwrap_err(), AlignError::InvalidMode);
    assert_eq!(
        align_dna_custom(b"AC", b"AC", "global", 1, -1, 2, -1).unwrap_err(),
        AlignError::InvalidScoring
    );
    assert_eq!(
        align_protein(b"HEA", b"HEA", "global", "blosum99").unwrap_err(),
        AlignError::InvalidScoring
    );
    let bad = ScoringScheme::Simple(ScoringMatrix {
        match_score: 1,
        mismatch_score: -1,
        gap_open: 0,
        gap_extend: 3,
    });
    assert_eq!(align(b"A", b"A", AlignmentMode::Global, &bad).unwrap_err(), AlignError::InvalidScoring);
}

#[test]
fn custom_scores_are_used() {
    let r = align_dna_custom(b"ACGT", b"ACGT", "global", 5, -4, -10, -1).unwrap();
    assert_eq!(r.score, 20);
    let r = align_dna_custom(b"ACGT", b"AGT", "global", 1, -1, 0, -1).unwrap();
    assert_eq!(r.score, 2);
}

#[test]
fn protein_matrices_resolve() {
    for name in ["blosum62", "blosum45", "blosum80", "pam250"] {
        let m = parse_substitution_matrix(name).unwrap();
        assert_eq!(m.lower_triangle.len(), 300);
    }
    let m = SubstitutionMatrix::blosum62();
    assert_eq!(m.score(b'W', b'W'), 11);
    assert_eq!(m.score(b'A', b'R'), -1);
    assert_eq!(m.score(b'R', b'A'), -1);
    assert_eq!(m.score(b'c', b'C'), 9);
    assert_eq!(SubstitutionMatrix::pam250().score(b'W', b'W'), 17);
    let r = align_protein(b"HEAGAWGHEE", b"HEAGAWGHEE", "global", "blosum62").unwrap();
    assert_eq!(r.score, 8 + 5 + 4 + 6 + 4 + 11 + 6 + 8 + 5 + 5);
}

#[test]
fn batch_fails_fast() {
    let pairs = vec![(b"ACGT".to_vec(), b"ACGT".to_vec()), (b"AC".to_vec(), b"AGC".to_vec())];
    let rs = align_batch_dna(&pairs, "global").unwrap();
    assert_eq!(rs.len(), 2);
    assert_eq!(rs[0].score, 8);
    let pairs = vec![(b"ACGT".to_vec(), b"ACGT".to_vec()), (b"".to_vec(), b"AGC".to_vec())];
    assert_eq!(align_batch_dna(&pairs, "global").unwrap_err(), AlignError::EmptyInput);
    assert_eq!(align_batch_dna(&[], "global").unwrap().len(), 0);
}

#[test]
fn batch_reports_first_failing_pair() {
    let pairs = vec![
        (b"ACGT".to_vec(), b"ACGT".to_vec()),
        (b"AC".to_vec(), b"".to_vec()),
        (b"".to_vec(), b"".to_vec()),
    ];
    assert_eq!(align_batch_dna(&pairs, "local").unwrap_err(), AlignError::EmptyInput);
    assert_eq!(align_batch_dna(&pairs, "sideways").unwrap_err(), AlignError::InvalidMode);
}
