use cyanea_native::api::{
    alignment_to_cigar, cigar_stats, cigar_to_alignment, collapse_cigar, hard_clip_to_soft,
    merge_cigar, reverse_cigar, split_cigar, validate_cigar,
};
use cyanea_native::api::{align_dna, generate_md_tag};
use cyanea_native::cigar::{
    alignment_to_cigar_extended, cigar_string, parse_cigar, query_consumed, reference_consumed, CigarCode, CigarOp,
};
use cyanea_native::AlignError;

#[test]
fn parse_simple_cigar() {
    let ops = parse_cigar("3M1I2M").unwrap();
    assert_eq!(
        ops,
        vec![
            CigarOp { code: CigarCode::Match, len: 3 },
            CigarOp { code: CigarCode::Insertion, len: 1 },
            CigarOp { code: CigarCode::Match, len: 2 },
        ]
    );
    assert_eq!(ops[0].code(), 'M');
    assert_eq!(ops[1].len(), 1);
    assert_eq!(reference_consumed(&ops), 5);
    assert_eq!(query_consumed(&ops), 6);
}

#[test]
fn malformed_cigars() {
    for s in ["3Q", "0M", "M", "12", "3M4", "3M-1I", "99999999999999999999999M", "3Mé"] {
        assert_eq!(parse_cigar(s).unwrap_err(), AlignError::MalformedCigar, "{}", s);
    }
    assert_eq!(parse_cigar("").unwrap(), vec![]);
}

#[test]
fn parse_render_round_trip() {
    for s in ["3M1I2M", "007M", "5S10M2D3=1X4H", "1P1N"] {
        let ops = parse_cigar(s).unwrap();
        let text = cigar_string(&ops);
        assert_eq!(parse_cigar(&text).unwrap(), ops);
    }
    assert_eq!(cigar_string(&parse_cigar("007M").unwrap()), "7M");
}

#[test]
fn merge_is_idempotent() {
    let once = merge_cigar("2M3M1I1I4M").unwrap();
    assert_eq!(once, "5M2I4M");
    assert_eq!(merge_cigar(&once).unwrap(), once);
}

#[test]
fn reverse_twice_is_identity() {
    let r = reverse_cigar("5S3M1D2M").unwrap();
    assert_eq!(r, "2M1D3M5S");
    assert_eq!(reverse_cigar(&r).unwrap(), "5S3M1D2M");
}

#[test]
fn split_spanning_run() {
    assert_eq!(split_cigar("4M", 2).unwrap(), ("2M".to_string(), "2M".to_string()));
    assert_eq!(split_cigar("2M1I3M", 2).unwrap(), ("2M".to_string(), "1I3M".to_string()));
    assert_eq!(split_cigar("3M2D3M", 4).unwrap(), ("3M1D".to_string(), "1D3M".to_string()));
    assert_eq!(split_cigar("4M", 9).unwrap(), ("4M".to_string(), "".to_string()));
}

#[test]
fn validation() {
    assert_eq!(validate_cigar("5H3S10M2S").unwrap(), true);
    assert_eq!(validate_cigar("5M2S5M").unwrap_err(), AlignError::InconsistentCigar);
    assert_eq!(validate_cigar("").unwrap_err(), AlignError::InconsistentCigar);
    assert_eq!(validate_cigar("5X?").unwrap_err(), AlignError::MalformedCigar);
}

#[test]
fn statistics() {
    let st = cigar_stats("2S3=1X2I1D4H").unwrap();
    assert_eq!(st.cigar_string, "2S3=1X2I1D4H");
    assert_eq!(st.reference_consumed, 5);
    assert_eq!(st.query_consumed, 8);
    assert_eq!(st.alignment_columns, 13);
    assert_eq!((st.identity_numerator, st.identity_denominator), (3, 7));
    assert_eq!(st.gap_count, 2);
    assert_eq!(st.gap_bases, 3);
    assert_eq!((st.soft_clipped, st.hard_clipped), (2, 4));
}

#[test]
fn transformations() {
    assert_eq!(collapse_cigar("3=1X2=1I").unwrap(), "6M1I");
    assert_eq!(hard_clip_to_soft("5H10M2H").unwrap(), "5S10M2S");
}

#[test]
fn alignment_and_cigar_convert() {
    assert_eq!(alignment_to_cigar(b"AC-GT", b"ACTG-").unwrap(), "2M1D1M1I");
    assert_eq!(alignment_to_cigar(b"AC", b"A").unwrap_err(), AlignError::LengthMismatch);
    assert_eq!(alignment_to_cigar(b"A-", b"A-").unwrap_err(), AlignError::InconsistentCigar);
    let (q, t) = cigar_to_alignment("2M1I1M", b"ACGT", b"ACT").unwrap();
    assert_eq!(q, b"ACGT".to_vec());
    assert_eq!(t, b"AC-T".to_vec());
    let (q, t) = cigar_to_alignment("1S2M1D", b"GAC", b"ACT").unwrap();
    assert_eq!(q, b"AC-".to_vec());
    assert_eq!(t, b"ACT".to_vec());
    assert_eq!(cigar_to_alignment("3M", b"AC", b"ACG").unwrap_err(), AlignError::LengthMismatch);
}

#[test]
fn cigar_of_result_spans_coordinates() {
    for mode in ["global", "local", "semiglobal"] {
        let r = align_dna(b"GGACGTTACG", b"ACGTACGTA", mode).unwrap();
        let text = collapse_cigar(&alignment_to_cigar(&r.aligned_query, &r.aligned_target).unwrap())
            .unwrap();
        let ops = parse_cigar(&text).unwrap();
        assert_eq!(query_consumed(&ops), r.query_end - r.query_start);
        assert_eq!(reference_consumed(&ops), r.target_end - r.target_start);
    }
}

#[test]
fn md_tags() {
    assert_eq!(generate_md_tag("4M", b"ACGT", b"ACGT").unwrap(), "4");
    assert_eq!(generate_md_tag("4M", b"ACTT", b"ACGT").unwrap(), "2G1");
    assert_eq!(generate_md_tag("2M2D2M", b"ACGT", b"ACTTGT").unwrap(), "2^TT2");
    assert_eq!(generate_md_tag("1M1D1M", b"AC", b"AGT").unwrap(), "1^G0T0");
    assert_eq!(generate_md_tag("1S2M1I1M", b"TACGT", b"ACT").unwrap(), "3");
    assert_eq!(generate_md_tag("3M", b"AC", b"ACG").unwrap_err(), AlignError::LengthMismatch);
}

#[test]
fn extended_vocabulary() {
    let ops = alignment_to_cigar_extended(b"ACGTT-", b"ACCTTA").unwrap();
    assert_eq!(cigar_string(&ops), "2=1X2=1D");
    assert_eq!(collapse_cigar(&cigar_string(&ops)).unwrap(), "5M1D");
}
