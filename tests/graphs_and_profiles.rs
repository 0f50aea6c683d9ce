use cyanea_native::api::{banded_align_dna, banded_score_only, poa_consensus, progressive_msa};
use cyanea_native::api::align_dna;
use cyanea_native::pairwise::GAP;
use cyanea_native::poa::{PoaGraph, PoaScoring};
use cyanea_native::AlignError;

fn degap(s: &[u8]) -> Vec<u8> {
    s.iter().copied().filter(|&b| b != GAP).collect()
}

#[test]
fn poa_two_identical_sequences() {
    let scoring = PoaScoring { match_score: 2, mismatch_score: -1, gap_score: -2 };
    let mut g = PoaGraph::from_sequence(b"AC");
    assert_eq!(g.node_count(), 2);
    assert_eq!(g.edge_weight(0, 1), Some(1));
    g.add_sequence(b"AC", &scoring).unwrap();
    assert_eq!(g.node_count(), 2);
    assert_eq!(g.edge_weight(0, 1), Some(2));
    assert_eq!(g.counts, vec![2, 2]);
    assert_eq!(g.consensus(), b"AC".to_vec());
}

#[test]
fn poa_grows_and_keeps_majority() {
    let scoring = PoaScoring { match_score: 2, mismatch_score: -1, gap_score: -2 };
    let mut g = PoaGraph::from_sequence(b"ACGT");
    g.add_sequence(b"ACGGT", &scoring).unwrap();
    g.add_sequence(b"ACGT", &scoring).unwrap();
    assert_eq!(g.total, 13);
    assert!(g.node_count() >= 5);
    for e in &g.edges {
        assert!(e.from < e.to);
    }
    assert_eq!(g.consensus(), b"ACGT".to_vec());
    assert_eq!(g.add_sequence(b"", &scoring).unwrap_err(), AlignError::EmptyInput);
}

#[test]
fn poa_consensus_of_sequences() {
    let seqs = vec![b"GATTACA".to_vec(), b"GATTACA".to_vec(), b"GATACA".to_vec()];
    assert_eq!(poa_consensus(&seqs).unwrap(), b"GATTACA".to_vec());
    assert_eq!(poa_consensus(&[]).unwrap_err(), AlignError::EmptyInput);
    let seqs = vec![b"GATTACA".to_vec(), b"".to_vec()];
    assert_eq!(poa_consensus(&seqs).unwrap_err(), AlignError::EmptyInput);
}

#[test]
fn progressive_alignment_rows() {
    let seqs = vec![b"ACGT".to_vec(), b"AGT".to_vec(), b"ACGGT".to_vec()];
    let m = progressive_msa(&seqs, "dna").unwrap();
    assert_eq!(m.n_sequences(), 3);
    for (row, seq) in m.aligned.iter().zip(seqs.iter()) {
        assert_eq!(row.len(), m.n_columns);
        assert_eq!(&degap(row), seq);
    }
}

#[test]
fn progressive_alignment_depends_on_order() {
    let a = vec![b"ACGT".to_vec(), b"ACGGT".to_vec(), b"AGGT".to_vec()];
    let b = vec![b"AGGT".to_vec(), b"ACGGT".to_vec(), b"ACGT".to_vec()];
    let ma = progressive_msa(&a, "dna").unwrap();
    let mb = progressive_msa(&b, "dna").unwrap();
    for (m, seqs) in [(&ma, &a), (&mb, &b)] {
        for (row, seq) in m.aligned.iter().zip(seqs.iter()) {
            assert_eq!(row.len(), m.n_columns);
            assert_eq!(&degap(row), seq);
        }
    }
    assert_eq!(ma.aligned[0], b"AC-GT".to_vec());
}

#[test]
fn progressive_alignment_errors() {
    assert_eq!(progressive_msa(&[], "dna").unwrap_err(), AlignError::EmptyInput);
    let seqs = vec![b"ACGT".to_vec(), b"".to_vec()];
    assert_eq!(progressive_msa(&seqs, "dna").unwrap_err(), AlignError::EmptyInput);
    let seqs = vec![b"ACGT".to_vec()];
    assert_eq!(progressive_msa(&seqs, "rna").unwrap_err(), AlignError::InvalidScoring);
    let m = progressive_msa(&[b"HEAGAWGHEE".to_vec(), b"PAWHEAE".to_vec()], "protein").unwrap();
    assert_eq!(m.aligned[0].len(), m.aligned[1].len());
}

#[test]
fn banded_matches_full_when_band_is_wide() {
    let q = b"ACGTTGCAACGT";
    let t = b"ACGTGCAACGGT";
    for mode in ["global", "local", "semiglobal"] {
        let full = align_dna(q, t, mode).unwrap();
        let banded = banded_align_dna(q, t, mode, 12).unwrap();
        assert_eq!(full.score, banded.score);
        assert_eq!(full.aligned_query, banded.aligned_query);
        assert_eq!(banded_score_only(q, t, mode, 12).unwrap(), full.score);
    }
}

#[test]
fn banded_narrow_band() {
    let r = banded_align_dna(b"ACGT", b"ACGT", "global", 1).unwrap();
    assert_eq!(r.score, 8);
    let r = banded_align_dna(b"ACGTACGT", b"ACGACGT", "global", 1).unwrap();
    assert_eq!(r.aligned_query.len(), r.aligned_target.len());
    assert_eq!(banded_score_only(b"ACGTACGT", b"ACGACGT", "global", 1).unwrap(), r.score);
}

#[test]
fn banded_errors() {
    assert_eq!(banded_align_dna(b"ACGT", b"ACGT", "global", 0).unwrap_err(), AlignError::InvalidBandwidth);
    assert_eq!(banded_align_dna(b"ACGTACGT", b"AC", "global", 2).unwrap_err(), AlignError::InvalidBandwidth);
    assert_eq!(banded_score_only(b"", b"AC", "local", 2).unwrap_err(), AlignError::EmptyInput);
    assert_eq!(banded_score_only(b"AC", b"AC", "wide", 2).unwrap_err(), AlignError::InvalidMode);
    assert!(banded_align_dna(b"ACGTACGT", b"AC", "local", 2).is_ok());
}

#[test]
fn conservation_counts() {
    let seqs = vec![b"ACGT".to_vec(), b"ACGT".to_vec(), b"ACCT".to_vec()];
    let m = progressive_msa(&seqs, "dna").unwrap();
    assert_eq!(m.n_columns, 4);
    assert_eq!(m.majority_counts(), vec![3, 3, 2, 3]);
}

#[test]
fn identical_rows_need_no_gaps() {
    let seqs = vec![b"ACGT".to_vec(), b"ACGT".to_vec()];
    let m = progressive_msa(&seqs, "dna").unwrap();
    assert_eq!(m.aligned, seqs);
    assert_eq!(m.n_columns, 4);
    assert_eq!(m.majority_counts(), vec![2, 2, 2, 2]);
}

#[test]
fn poa_repeats_give_the_sequence() {
    for n in 1..5 {
        let seqs = vec![b"GATTACA".to_vec(); n];
        assert_eq!(poa_consensus(&seqs).unwrap(), b"GATTACA".to_vec());
    }
    assert_eq!(poa_consensus(&[b"AC".to_vec(), b"AC".to_vec()]).unwrap(), b"AC".to_vec());
}
