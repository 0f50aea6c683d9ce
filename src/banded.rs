use vstd::prelude::*;

use crate::error::AlignError;
use crate::pairwise::{
    align_in_band, band_lo, band_reaches_end, best_so_far, cell_le, compute_cell, dp,
    in_band, is_best_end, is_candidate, is_end_candidate, lemma_dp_bounds, lemma_next_row,
    row_holds, row_lo, row_width, AlignmentMode, AlignmentResult, Track, STEP_BOUND,
};
use crate::scoring::{ScoringScheme, MAX_ALIGN_LEN};

verus! {

/// The error a banded alignment gives, if any: empty input first, then too many residues,
/// then an invalid scheme,
/// then a band of width zero, or (in global mode) one that does not reach the last cell.
pub open spec fn banded_error(
    q: Seq<u8>,
    t: Seq<u8>,
    mode: AlignmentMode,
    sc: ScoringScheme,
    w: nat,
) -> Option<AlignError> {
    if q.len() == 0 || t.len() == 0 {
        Some(AlignError::EmptyInput)
    } else if q.len() + t.len() > MAX_ALIGN_LEN {
        Some(AlignError::TooLong)
    } else if !sc.is_valid() {
        Some(AlignError::InvalidScoring)
    } else if w == 0 || !band_reaches_end(mode, w, q.len(), t.len()) {
        Some(AlignError::InvalidBandwidth)
    } else {
        None
    }
}

fn check_band(
    query: &[u8],
    target: &[u8],
    mode: AlignmentMode,
    scoring: &ScoringScheme,
    bandwidth: usize,
) -> (r: Option<AlignError>)
    ensures
        r == banded_error(query@, target@, mode, *scoring, bandwidth as nat),
{
    let n = query.len();
    let m = target.len();
    if n == 0 || m == 0 {
        return Some(AlignError::EmptyInput);
    }
    if n > MAX_ALIGN_LEN || m > MAX_ALIGN_LEN - n {
        return Some(AlignError::TooLong);
    }
    if !scoring.check() {
        return Some(AlignError::InvalidScoring);
    }
    if bandwidth == 0 {
        return Some(AlignError::InvalidBandwidth);
    }
    let reaches = match mode {
        AlignmentMode::Global => (n <= m || n - m <= bandwidth) && (m <= n || m - n <= bandwidth),
        _ => true,
    };
    if !reaches {
        return Some(AlignError::InvalidBandwidth);
    }
    None
}

/// Aligns within a diagonal band of `2 * bandwidth + 1` cells per row: cells farther than
/// `bandwidth` from the main diagonal are unreachable, so where the optimal alignment leaves
/// the band the result is the best alignment inside it. The band is never widened.
pub fn banded_align(
    query: &[u8],
    target: &[u8],
    mode: AlignmentMode,
    scoring: &ScoringScheme,
    bandwidth: usize,
) -> (r: Result<AlignmentResult, AlignError>)
    ensures
        match banded_error(query@, target@, mode, *scoring, bandwidth as nat) {
            Some(e) => r == Err::<AlignmentResult, AlignError>(e),
            None => r is Ok && r->Ok_0.is_banded_alignment_of(
                mode,
                *scoring,
                bandwidth as nat,
                query@,
                target@,
            ),
        },
{
    match check_band(query, target, mode, scoring, bandwidth) {
        Some(e) => Err(e),
        None => Ok(align_in_band(query, target, mode, scoring, bandwidth)),
    }
}

/// The score of the banded alignment alone, without its traceback.
pub fn banded_score_only(
    query: &[u8],
    target: &[u8],
    scoring: &ScoringScheme,
    bandwidth: usize,
    mode: AlignmentMode,
) -> (r: Result<i64, AlignError>)
    ensures
        match banded_error(query@, target@, mode, *scoring, bandwidth as nat) {
            Some(e) => r == Err::<i64, AlignError>(e),
            None => r is Ok && exists|i: nat, j: nat|
                is_best_end(mode, *scoring, bandwidth as nat, query@, target@, i, j) && r->Ok_0
                    == dp(mode, *scoring, bandwidth as nat, query@, target@, i, j, Track::Best),
        },
{
    match check_band(query, target, mode, scoring, bandwidth) {
        Some(e) => Err(e),
        None => Ok(score_in_band(query, target, mode, scoring, bandwidth)),
    }
}

/// The recurrence over the band, row by row, keeping only the previous row and the best
/// candidate end cell seen so far: memory in the band width, not in the sequence lengths.
fn score_in_band(
    query: &[u8],
    target: &[u8],
    mode: AlignmentMode,
    sc: &ScoringScheme,
    band: usize,
) -> (r: i64)
    requires
        query@.len() + target@.len() <= MAX_ALIGN_LEN,
        sc.is_valid(),
        band_reaches_end(mode, band as nat, query@.len(), target@.len()),
    ensures
        exists|i: nat, j: nat|
            is_best_end(mode, *sc, band as nat, query@, target@, i, j) && r == dp(
                mode,
                *sc,
                band as nat,
                query@,
                target@,
                i,
                j,
                Track::Best,
            ),
{
    let ghost q = query@;
    let ghost t = target@;
    let n = query.len();
    let m = target.len();
    let open = sc.gap_open() as i64;
    let ext = sc.gap_extend() as i64;
    let mut prev_best: Vec<i64> = Vec::new();
    let mut prev_ins: Vec<i64> = Vec::new();
    let mut bi: usize = 0;
    let mut bj: usize = 0;
    let mut bv: i64 = 0;
    let mut found = false;
    let mut i: usize = 0;
    while i <= n
        invariant
            sc.is_valid(),
            q == query@,
            t == target@,
            n == q.len(),
            m == t.len(),
            n + m <= MAX_ALIGN_LEN,
            open == sc.open_cost(),
            ext == sc.extend_cost(),
            i <= n + 1,
            i >= 1 ==> row_holds(
                prev_best@,
                row_width(band as nat, m as nat, (i - 1) as nat) as int,
                (i - 1) as nat,
                mode,
                *sc,
                band as nat,
                q,
                t,
                Track::Best,
            ),
            i >= 1 ==> row_holds(
                prev_ins@,
                row_width(band as nat, m as nat, (i - 1) as nat) as int,
                (i - 1) as nat,
                mode,
                *sc,
                band as nat,
                q,
                t,
                Track::Insertion,
            ),
            bi <= n,
            bj <= m,
            found ==> bi < i,
            found ==> is_end_candidate(mode, n as nat, m as nat, bi as nat, bj as nat),
            found ==> in_band(band as nat, bi as nat, bj as nat),
            found ==> bv == dp(mode, *sc, band as nat, q, t, bi as nat, bj as nat, Track::Best),
            best_so_far(mode, *sc, band as nat, q, t, found, bi as nat, bj as nat, i as nat, 0),
        decreases n + 1 - i,
    {
        let lo = band_lo(band, i);
        let hi = if band < m && i < m - band { i + band } else { m };
        let mut row_best: Vec<i64> = Vec::new();
        let mut row_ins: Vec<i64> = Vec::new();
        let mut row_del: Vec<i64> = Vec::new();
        let mut j: usize = lo;
        assert forall|x: nat, y: nat|
            (x < i || (x == i && y < lo)) && #[trigger] is_end_candidate(mode, q.len(), t.len(), x, y)
                && in_band(band as nat, x, y) implies x < i by {}
        while j <= hi
            invariant
                sc.is_valid(),
                q == query@,
                t == target@,
                n == q.len(),
                m == t.len(),
                n + m <= MAX_ALIGN_LEN,
                open == sc.open_cost(),
                ext == sc.extend_cost(),
                i <= n,
                hi <= m,
                lo == row_lo(band as nat, i as nat),
                hi == (if i + band < m { i + band } else { m as int }),
                lo <= j <= hi + 1 || (lo > hi && j == lo),
                i >= 1 ==> row_holds(
                    prev_best@,
                    row_width(band as nat, m as nat, (i - 1) as nat) as int,
                    (i - 1) as nat,
                    mode,
                    *sc,
                    band as nat,
                    q,
                    t,
                    Track::Best,
                ),
                i >= 1 ==> row_holds(
                    prev_ins@,
                    row_width(band as nat, m as nat, (i - 1) as nat) as int,
                    (i - 1) as nat,
                    mode,
                    *sc,
                    band as nat,
                    q,
                    t,
                    Track::Insertion,
                ),
                row_holds(row_best@, j - lo, i as nat, mode, *sc, band as nat, q, t, Track::Best),
                row_holds(row_ins@, j - lo, i as nat, mode, *sc, band as nat, q, t, Track::Insertion),
                row_holds(row_del@, j - lo, i as nat, mode, *sc, band as nat, q, t, Track::Deletion),
                bi <= n,
                bj <= m,
                found ==> is_end_candidate(mode, n as nat, m as nat, bi as nat, bj as nat),
                found ==> in_band(band as nat, bi as nat, bj as nat),
                found ==> (bi < i || (bi == i && bj < j)),
                found ==> bv == dp(mode, *sc, band as nat, q, t, bi as nat, bj as nat, Track::Best),
                best_so_far(mode, *sc, band as nat, q, t, found, bi as nat, bj as nat, i as nat, j as nat),
            decreases hi + 1 - j,
        {
            assert(in_band(band as nat, i as nat, j as nat));
            let (here, ins, del) = compute_cell(
                mode,
                sc,
                band,
                query,
                target,
                &prev_best,
                &prev_ins,
                &row_best,
                &row_del,
                i,
                j,
                lo,
                open,
                ext,
            );
            row_best.push(here);
            row_ins.push(ins);
            row_del.push(del);
            if is_candidate(mode, n, m, i, j) {
                if !found || here > bv {
                    bi = i;
                    bj = j;
                    bv = here;
                    found = true;
                }
            }
            j = j + 1;
        }
        proof {
            if lo > hi {
                assert forall|x: nat, y: nat|
                    (x < i + 1 || (x == i + 1 && y < 0)) && #[trigger] is_end_candidate(mode, q.len(), t.len(), x, y)
                        && in_band(band as nat, x, y) implies x < i by {}
            } else {
                lemma_next_row(mode, *sc, band as nat, q, t, found, bi as nat, bj as nat, i as nat, j as nat);
            }
            assert(row_best@.len() == row_width(band as nat, m as nat, i as nat));
        }
        prev_best = row_best;
        prev_ins = row_ins;
        i = i + 1;
    }
    proof {
        let (ci, cj) = match mode {
            AlignmentMode::Global => (n as nat, m as nat),
            AlignmentMode::Local => (0nat, 0nat),
            AlignmentMode::SemiGlobal => if n <= m { (n as nat, n as nat) } else { (m as nat, m as nat) },
        };
        assert(is_end_candidate(mode, n as nat, m as nat, ci, cj) && in_band(band as nat, ci, cj));
        assert(found);
        lemma_dp_bounds(mode, *sc, band as nat, q, t, bi as nat, bj as nat);
        assert((bi + bj) * STEP_BOUND <= MAX_ALIGN_LEN * STEP_BOUND) by (nonlinear_arith)
            requires
                bi + bj <= MAX_ALIGN_LEN,
        ;
        assert forall|x: nat, y: nat|
            #![trigger dp(mode, *sc, band as nat, q, t, x, y, Track::Best)]
            is_end_candidate(mode, n as nat, m as nat, x, y) implies {
            &&& dp(mode, *sc, band as nat, q, t, x, y, Track::Best) <= dp(mode, *sc, band as nat, q, t, bi as nat, bj as nat, Track::Best)
            &&& (dp(mode, *sc, band as nat, q, t, x, y, Track::Best) == dp(mode, *sc, band as nat, q, t, bi as nat, bj as nat, Track::Best)
                ==> cell_le(bi as nat, bj as nat, x, y))
        } by {
            if !in_band(band as nat, x, y) {
                lemma_dp_bounds(mode, *sc, band as nat, q, t, x, y);
            }
        }
        assert(is_best_end(mode, *sc, band as nat, q, t, bi as nat, bj as nat));
    }
    bv
}

} // verus!
