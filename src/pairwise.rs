use vstd::prelude::*;

use crate::error::AlignError;
use crate::scoring::{ScoringScheme, MAX_ALIGN_LEN};
use crate::text::text_eq;

verus! {

/// The byte that stands for a gap in an aligned sequence (`-`).
pub const GAP: u8 = 45;

/// Score of a state that no alignment reaches.
pub const NEG_INF: i64 = -2305843009213693952;

/// Bound on what one alignment column can add to or take from a score.
pub const STEP_BOUND: i64 = 4294967296;

/// Which ends of the two sequences an alignment must reach.
#[derive(Clone, Copy, Debug, PartialEq, Eq, Structural)]
pub enum AlignmentMode {
    /// Best-scoring pair of substrings; scores never fall below zero.
    Local,
    /// Both sequences end to end.
    Global,
    /// Leading and trailing residues of either sequence are left unaligned at no cost:
    /// the alignment starts on the first row or column of the matrix and ends on the last.
    SemiGlobal,
}

/// The states of the affine-gap recurrence at one cell.
#[derive(Clone, Copy, Debug, PartialEq, Eq, Structural)]
pub enum Track {
    /// Best of all ways to reach the cell.
    Best,
    /// Ending with a query residue aligned to a target residue.
    Pair,
    /// Ending with a query residue aligned to a gap.
    Insertion,
    /// Ending with a gap aligned to a target residue.
    Deletion,
}

pub open spec fn track_rank(k: Track) -> nat {
    match k {
        Track::Best => 1,
        _ => 0,
    }
}

pub open spec fn max_int(a: int, b: int) -> int {
    if a >= b { a } else { b }
}

/// Cell `(i, j)` lies within `w` diagonals of the main diagonal.
pub open spec fn in_band(w: nat, i: nat, j: nat) -> bool {
    i <= j + w && j <= i + w
}

/// Score of starting an alignment at cell `(i, j)` (`i` query residues and `j` target
/// residues before it), or `NEG_INF` where the mode lets no alignment start there.
pub open spec fn start_score(mode: AlignmentMode, i: nat, j: nat) -> int {
    match mode {
        AlignmentMode::Global => if i == 0 && j == 0 { 0 } else { NEG_INF as int },
        AlignmentMode::SemiGlobal => if i == 0 || j == 0 { 0 } else { NEG_INF as int },
        AlignmentMode::Local => 0,
    }
}

/// The affine-gap (Gotoh) recurrence, restricted to the band of half-width `w` around the
/// main diagonal: the best score of an alignment of a prefix of `q` of length `i` with a
/// prefix of `t` of length `j` that stays in the band, in state `k`; cells outside the band
/// are unreachable. A gap of length `g` scores `open + g * extend`. A band at least
/// `|q| + |t|` wide leaves the full matrix.
pub open spec fn dp(
    mode: AlignmentMode,
    sc: ScoringScheme,
    w: nat,
    q: Seq<u8>,
    t: Seq<u8>,
    i: nat,
    j: nat,
    k: Track,
) -> int
    decreases i + j, track_rank(k),
{
    if !in_band(w, i, j) {
        NEG_INF as int
    } else {
    match k {
        Track::Pair => if i >= 1 && j >= 1 {
            dp(mode, sc, w, q, t, (i - 1) as nat, (j - 1) as nat, Track::Best) + sc.pair_score(
                q[i - 1],
                t[j - 1],
            )
        } else {
            NEG_INF as int
        },
        Track::Insertion => if i >= 1 {
            max_int(
                dp(mode, sc, w, q, t, (i - 1) as nat, j, Track::Best) + sc.open_cost()
                    + sc.extend_cost(),
                dp(mode, sc, w, q, t, (i - 1) as nat, j, Track::Insertion) + sc.extend_cost(),
            )
        } else {
            NEG_INF as int
        },
        Track::Deletion => if j >= 1 {
            max_int(
                dp(mode, sc, w, q, t, i, (j - 1) as nat, Track::Best) + sc.open_cost()
                    + sc.extend_cost(),
                dp(mode, sc, w, q, t, i, (j - 1) as nat, Track::Deletion) + sc.extend_cost(),
            )
        } else {
            NEG_INF as int
        },
        Track::Best => max_int(
            max_int(start_score(mode, i, j), dp(mode, sc, w, q, t, i, j, Track::Pair)),
            max_int(
                dp(mode, sc, w, q, t, i, j, Track::Insertion),
                dp(mode, sc, w, q, t, i, j, Track::Deletion),
            ),
        ),
    }
}
}

/// Whether an alignment may end at cell `(i, j)` of an `n` by `m` problem.
pub open spec fn is_end_candidate(mode: AlignmentMode, n: nat, m: nat, i: nat, j: nat) -> bool {
    &&& i <= n
    &&& j <= m
    &&& match mode {
        AlignmentMode::Global => i == n && j == m,
        AlignmentMode::SemiGlobal => i == n || j == m,
        AlignmentMode::Local => true,
    }
}

/// `(a, b)` comes before `(c, d)` in row-major order (or is the same cell).
pub open spec fn cell_le(a: nat, b: nat, c: nat, d: nat) -> bool {
    a < c || (a == c && b <= d)
}

/// The cell where the optimal alignment ends: the best-scoring candidate, and among
/// equally good ones the first in row-major order (smallest row, then smallest column).
pub open spec fn is_best_end(
    mode: AlignmentMode,
    sc: ScoringScheme,
    w: nat,
    q: Seq<u8>,
    t: Seq<u8>,
    i: nat,
    j: nat,
) -> bool {
    &&& is_end_candidate(mode, q.len(), t.len(), i, j)
    &&& forall|a: nat, b: nat|
        #![trigger dp(mode, sc, w, q, t, a, b, Track::Best)]
        is_end_candidate(mode, q.len(), t.len(), a, b) ==> {
            &&& dp(mode, sc, w, q, t, a, b, Track::Best) <= dp(mode, sc, w, q, t, i, j, Track::Best)
            &&& (dp(mode, sc, w, q, t, a, b, Track::Best) == dp(mode, sc, w, q, t, i, j, Track::Best)
                ==> cell_le(i, j, a, b))
        }
}

/// The traceback: from cell `(i, j)` in state `k`, the aligned query, the aligned target,
/// and the cell where the alignment starts. Ties prefer a pair column, then an insertion,
/// then a deletion; a gap prefers to have been opened over having been extended.
pub open spec fn trace(
    mode: AlignmentMode,
    sc: ScoringScheme,
    w: nat,
    q: Seq<u8>,
    t: Seq<u8>,
    i: nat,
    j: nat,
    k: Track,
) -> (Seq<u8>, Seq<u8>, nat, nat)
    decreases i + j, track_rank(k),
{
    let best = dp(mode, sc, w, q, t, i, j, Track::Best);
    match k {
        Track::Best => if best == start_score(mode, i, j) {
            (Seq::empty(), Seq::empty(), i, j)
        } else if i >= 1 && j >= 1 && dp(mode, sc, w, q, t, i, j, Track::Pair) == best {
            let r = trace(mode, sc, w, q, t, (i - 1) as nat, (j - 1) as nat, Track::Best);
            (r.0.push(q[i - 1]), r.1.push(t[j - 1]), r.2, r.3)
        } else if i >= 1 && dp(mode, sc, w, q, t, i, j, Track::Insertion) == best {
            trace(mode, sc, w, q, t, i, j, Track::Insertion)
        } else if j >= 1 {
            trace(mode, sc, w, q, t, i, j, Track::Deletion)
        } else {
            (Seq::empty(), Seq::empty(), i, j)
        },
        Track::Insertion => if i >= 1 {
            let opened = dp(mode, sc, w, q, t, i, j, Track::Insertion) == dp(
                mode,
                sc,
                w,
                q,
                t,
                (i - 1) as nat,
                j,
                Track::Best,
            ) + sc.open_cost() + sc.extend_cost();
            let r = trace(
                mode,
                sc,
                w,
                q,
                t,
                (i - 1) as nat,
                j,
                if opened { Track::Best } else { Track::Insertion },
            );
            (r.0.push(q[i - 1]), r.1.push(GAP), r.2, r.3)
        } else {
            (Seq::empty(), Seq::empty(), i, j)
        },
        Track::Deletion => if j >= 1 {
            let opened = dp(mode, sc, w, q, t, i, j, Track::Deletion) == dp(
                mode,
                sc,
                w,
                q,
                t,
                i,
                (j - 1) as nat,
                Track::Best,
            ) + sc.open_cost() + sc.extend_cost();
            let r = trace(
                mode,
                sc,
                w,
                q,
                t,
                i,
                (j - 1) as nat,
                if opened { Track::Best } else { Track::Deletion },
            );
            (r.0.push(GAP), r.1.push(t[j - 1]), r.2, r.3)
        } else {
            (Seq::empty(), Seq::empty(), i, j)
        },
        Track::Pair => (Seq::empty(), Seq::empty(), i, j),
    }
}

/// Bounds on every value of the recurrence: none lies below `NEG_INF - STEP_BOUND`, none
/// above `(i + j) * STEP_BOUND`, and within the band the best value of a cell is at least
/// `-(i + j) * STEP_BOUND`.
pub proof fn lemma_dp_bounds(
    mode: AlignmentMode,
    sc: ScoringScheme,
    w: nat,
    q: Seq<u8>,
    t: Seq<u8>,
    i: nat,
    j: nat,
)
    requires
        sc.is_valid(),
        i <= q.len(),
        j <= t.len(),
        q.len() + t.len() <= MAX_ALIGN_LEN,
    ensures
        forall|k: Track|
            #![trigger dp(mode, sc, w, q, t, i, j, k)]
            NEG_INF - STEP_BOUND <= dp(mode, sc, w, q, t, i, j, k) <= (i + j) * STEP_BOUND,
        in_band(w, i, j) ==> dp(mode, sc, w, q, t, i, j, Track::Best) >= -(i + j) * STEP_BOUND,
        in_band(w, i, j) && i >= 1 && j >= 1 ==> dp(mode, sc, w, q, t, i, j, Track::Pair) >= -(i
            + j) * STEP_BOUND,
        i >= 1 && in_band(w, i, j) && in_band(w, (i - 1) as nat, j) ==> dp(mode, sc, w, q, t, i, j, Track::Insertion)
            >= -(i + j) * STEP_BOUND,
        j >= 1 && in_band(w, i, j) && in_band(w, i, (j - 1) as nat) ==> dp(mode, sc, w, q, t, i, j, Track::Deletion)
            >= -(i + j) * STEP_BOUND,
        i == 0 ==> dp(mode, sc, w, q, t, i, j, Track::Insertion) == NEG_INF,
        j == 0 ==> dp(mode, sc, w, q, t, i, j, Track::Deletion) == NEG_INF,
        !in_band(w, i, j) ==> forall|k: Track| #[trigger] dp(mode, sc, w, q, t, i, j, k) == NEG_INF,
    decreases i + j,
{
    let bound = STEP_BOUND as int;
    let top = (i + j) * bound;
    if i >= 1 {
        lemma_dp_bounds(mode, sc, w, q, t, (i - 1) as nat, j);
        assert(((i - 1) + j) * bound == top - bound) by (nonlinear_arith)
            requires
                top == (i + j) * bound,
        ;
    }
    if j >= 1 {
        lemma_dp_bounds(mode, sc, w, q, t, i, (j - 1) as nat);
        assert((i + (j - 1)) * bound == top - bound) by (nonlinear_arith)
            requires
                top == (i + j) * bound,
        ;
    }
    if i >= 1 && j >= 1 {
        lemma_dp_bounds(mode, sc, w, q, t, (i - 1) as nat, (j - 1) as nat);
        lemma_pair_score_bounded(sc, q[i - 1], t[j - 1]);
        assert(((i - 1) + (j - 1)) * bound == top - 2 * bound) by (nonlinear_arith)
            requires
                top == (i + j) * bound,
        ;
    }
    lemma_pair_score_bounded(sc, 0, 0);
    assert(0 <= top <= MAX_ALIGN_LEN * bound) by (nonlinear_arith)
        requires
            i + j <= MAX_ALIGN_LEN,
            top == (i + j) * bound,
            bound > 0,
    ;
    if in_band(w, i, j) {
        if i >= 1 && j >= 1 {
            assert(in_band(w, (i - 1) as nat, (j - 1) as nat));
        } else if i >= 1 {
            assert(in_band(w, (i - 1) as nat, j));
        } else if j >= 1 {
            assert(in_band(w, i, (j - 1) as nat));
        }
    }
    if in_band(w, i, j) && i >= 1 {
        if in_band(w, (i - 1) as nat, j) {
            assert(dp(mode, sc, w, q, t, (i - 1) as nat, j, Track::Best) >= -(top - bound));
        } else {
            assert(dp(mode, sc, w, q, t, (i - 1) as nat, j, Track::Best) == NEG_INF);
            assert(dp(mode, sc, w, q, t, (i - 1) as nat, j, Track::Insertion) == NEG_INF);
        }
    }
    if in_band(w, i, j) && j >= 1 {
        if in_band(w, i, (j - 1) as nat) {
            assert(dp(mode, sc, w, q, t, i, (j - 1) as nat, Track::Best) >= -(top - bound));
        } else {
            assert(dp(mode, sc, w, q, t, i, (j - 1) as nat, Track::Best) == NEG_INF);
            assert(dp(mode, sc, w, q, t, i, (j - 1) as nat, Track::Deletion) == NEG_INF);
        }
    }
    let pair = dp(mode, sc, w, q, t, i, j, Track::Pair);
    let ins = dp(mode, sc, w, q, t, i, j, Track::Insertion);
    let del = dp(mode, sc, w, q, t, i, j, Track::Deletion);
    let best = dp(mode, sc, w, q, t, i, j, Track::Best);
    assert(NEG_INF - STEP_BOUND <= pair <= top);
    assert(NEG_INF - STEP_BOUND <= ins <= top);
    assert(NEG_INF - STEP_BOUND <= del <= top);
    assert(NEG_INF - STEP_BOUND <= best <= top);
}

pub(crate) proof fn lemma_pair_score_bounded(sc: ScoringScheme, a: u8, b: u8)
    requires
        sc.is_valid(),
    ensures
        -STEP_BOUND / 2 <= sc.pair_score(a, b) < STEP_BOUND / 2,
        -STEP_BOUND <= sc.open_cost() + sc.extend_cost() <= 0,
        -STEP_BOUND / 2 <= sc.extend_cost() <= 0,
{
}

/// First column of row `i` inside the band.
pub open spec fn row_lo(w: nat, i: nat) -> nat {
    if i > w { (i - w) as nat } else { 0 }
}

/// Number of columns of row `i` inside the band, for a target of length `m`.
pub open spec fn row_width(w: nat, m: nat, i: nat) -> nat {
    let hi: nat = if i + w < m { i + w } else { m };
    if row_lo(w, i) <= hi { (hi + 1 - row_lo(w, i)) as nat } else { 0 }
}

/// The first `rows` rows of `tab` hold track `k` of the recurrence on the cells of the band,
/// row `a` starting at column `row_lo(w, a)`.
pub open spec fn rows_hold(
    tab: Seq<Vec<i64>>,
    rows: int,
    mode: AlignmentMode,
    sc: ScoringScheme,
    w: nat,
    q: Seq<u8>,
    t: Seq<u8>,
    k: Track,
) -> bool {
    &&& tab.len() == rows
    &&& forall|a: int| 0 <= a < rows ==> #[trigger] tab[a]@.len() == row_width(w, t.len(), a as nat)
    &&& forall|a: int, b: int|
        0 <= a < rows && 0 <= b < row_width(w, t.len(), a as nat) ==> #[trigger] tab[a]@[b] == dp(
            mode,
            sc,
            w,
            q,
            t,
            a as nat,
            row_lo(w, a as nat) + b as nat,
            k,
        )
}

/// The first `cols` values of `row` hold track `k` of the recurrence on row `i`, from
/// column `row_lo(w, i)` on.
pub open spec fn row_holds(
    row: Seq<i64>,
    cols: int,
    i: nat,
    mode: AlignmentMode,
    sc: ScoringScheme,
    w: nat,
    q: Seq<u8>,
    t: Seq<u8>,
    k: Track,
) -> bool {
    &&& row.len() == cols
    &&& forall|b: int|
        0 <= b < cols ==> #[trigger] row[b] == dp(mode, sc, w, q, t, i, row_lo(w, i) + b as nat, k)
}

/// The three tables of the recurrence over the band: row `i` holds the cells from column
/// `row_lo(band, i)` on.
pub struct DpTables {
    pub best: Vec<Vec<i64>>,
    pub insertion: Vec<Vec<i64>>,
    pub deletion: Vec<Vec<i64>>,
    pub band: usize,
    pub cols: usize,
}

impl DpTables {
    /// The tables hold the recurrence for `q` and `t` in a band of half-width `w`.
    pub open spec fn holds(
        &self,
        mode: AlignmentMode,
        sc: ScoringScheme,
        w: nat,
        q: Seq<u8>,
        t: Seq<u8>,
    ) -> bool {
        &&& self.band == w
        &&& self.cols == t.len()
        &&& rows_hold(self.best@, (q.len() + 1) as int, mode, sc, w, q, t, Track::Best)
        &&& rows_hold(self.insertion@, (q.len() + 1) as int, mode, sc, w, q, t, Track::Insertion)
        &&& rows_hold(self.deletion@, (q.len() + 1) as int, mode, sc, w, q, t, Track::Deletion)
    }

    /// The value of track `k` (not `Pair`) at cell `(i, j)`.
    pub fn value(
        &self,
        i: usize,
        j: usize,
        k: Track,
        Ghost(mode): Ghost<AlignmentMode>,
        Ghost(sc): Ghost<ScoringScheme>,
        Ghost(q): Ghost<Seq<u8>>,
        Ghost(t): Ghost<Seq<u8>>,
    ) -> (r: i64)
        requires
            self.holds(mode, sc, self.band as nat, q, t),
            i <= q.len(),
            j <= t.len(),
            k != Track::Pair,
        ensures
            r == dp(mode, sc, self.band as nat, q, t, i as nat, j as nat, k),
    {
        band_get(
            match k {
                Track::Best => &self.best,
                Track::Insertion => &self.insertion,
                _ => &self.deletion,
            },
            self.band,
            self.cols,
            i,
            j,
            Ghost((q.len() + 1) as int),
            Ghost(mode),
            Ghost(sc),
            Ghost(q),
            Ghost(t),
            Ghost(k),
        )
    }
}

pub(crate) fn band_lo(band: usize, i: usize) -> (r: usize)
    ensures
        r == row_lo(band as nat, i as nat),
{
    if i > band { i - band } else { 0 }
}

fn band_get(
    tab: &Vec<Vec<i64>>,
    band: usize,
    m: usize,
    i: usize,
    j: usize,
    Ghost(rows): Ghost<int>,
    Ghost(mode): Ghost<AlignmentMode>,
    Ghost(sc): Ghost<ScoringScheme>,
    Ghost(q): Ghost<Seq<u8>>,
    Ghost(t): Ghost<Seq<u8>>,
    Ghost(k): Ghost<Track>,
) -> (r: i64)
    requires
        rows_hold(tab@, rows, mode, sc, band as nat, q, t, k),
        m == t.len(),
        i < rows,
        j <= t.len(),
    ensures
        r == dp(mode, sc, band as nat, q, t, i as nat, j as nat, k),
{
    let lo = band_lo(band, i);
    let width = tab[i].len();
    if j < lo || j - lo >= width {
        assert(!in_band(band as nat, i as nat, j as nat));
        NEG_INF
    } else {
        tab[i][j - lo]
    }
}

fn row_get(
    row: &Vec<i64>,
    band: usize,
    m: usize,
    i: usize,
    j: usize,
    Ghost(mode): Ghost<AlignmentMode>,
    Ghost(sc): Ghost<ScoringScheme>,
    Ghost(q): Ghost<Seq<u8>>,
    Ghost(t): Ghost<Seq<u8>>,
    Ghost(k): Ghost<Track>,
) -> (r: i64)
    requires
        row_holds(row@, row_width(band as nat, t.len(), i as nat) as int, i as nat, mode, sc, band as nat, q, t, k),
        m == t.len(),
        j <= t.len(),
    ensures
        r == dp(mode, sc, band as nat, q, t, i as nat, j as nat, k),
{
    let lo = band_lo(band, i);
    if j < lo || j - lo >= row.len() {
        assert(!in_band(band as nat, i as nat, j as nat));
        NEG_INF
    } else {
        row[j - lo]
    }
}

fn max_i64(a: i64, b: i64) -> (r: i64)
    ensures
        r == max_int(a as int, b as int),
{
    if a >= b { a } else { b }
}

fn start_value(mode: AlignmentMode, i: usize, j: usize) -> (r: i64)
    ensures
        r == start_score(mode, i as nat, j as nat),
{
    match mode {
        AlignmentMode::Global => if i == 0 && j == 0 { 0 } else { NEG_INF },
        AlignmentMode::SemiGlobal => if i == 0 || j == 0 { 0 } else { NEG_INF },
        AlignmentMode::Local => 0,
    }
}

#[verifier::rlimit(50)]
pub(crate) fn compute_cell(
    mode: AlignmentMode,
    sc: &ScoringScheme,
    band: usize,
    q: &[u8],
    t: &[u8],
    prev_best: &Vec<i64>,
    prev_ins: &Vec<i64>,
    row_best: &Vec<i64>,
    row_del: &Vec<i64>,
    i: usize,
    j: usize,
    lo: usize,
    open: i64,
    ext: i64,
) -> (r: (i64, i64, i64))
    requires
        sc.is_valid(),
        q@.len() + t@.len() <= MAX_ALIGN_LEN,
        open == sc.open_cost(),
        ext == sc.extend_cost(),
        i <= q@.len(),
        j <= t@.len(),
        lo == row_lo(band as nat, i as nat),
        lo <= j,
        in_band(band as nat, i as nat, j as nat),
        i >= 1 ==> row_holds(
            prev_best@,
            row_width(band as nat, t@.len(), (i - 1) as nat) as int,
            (i - 1) as nat,
            mode,
            *sc,
            band as nat,
            q@,
            t@,
            Track::Best,
        ),
        i >= 1 ==> row_holds(
            prev_ins@,
            row_width(band as nat, t@.len(), (i - 1) as nat) as int,
            (i - 1) as nat,
            mode,
            *sc,
            band as nat,
            q@,
            t@,
            Track::Insertion,
        ),
        row_holds(row_best@, j - lo, i as nat, mode, *sc, band as nat, q@, t@, Track::Best),
        row_holds(row_del@, j - lo, i as nat, mode, *sc, band as nat, q@, t@, Track::Deletion),
    ensures
        r.0 == dp(mode, *sc, band as nat, q@, t@, i as nat, j as nat, Track::Best),
        r.1 == dp(mode, *sc, band as nat, q@, t@, i as nat, j as nat, Track::Insertion),
        r.2 == dp(mode, *sc, band as nat, q@, t@, i as nat, j as nat, Track::Deletion),
{
    let n = q.len();
    let m = t.len();
    proof {
        lemma_dp_bounds(mode, *sc, band as nat, q@, t@, i as nat, j as nat);
        lemma_pair_score_bounded(*sc, 0, 0);
        if i >= 1 {
            lemma_dp_bounds(mode, *sc, band as nat, q@, t@, (i - 1) as nat, j as nat);
        }
        if j >= 1 {
            lemma_dp_bounds(mode, *sc, band as nat, q@, t@, i as nat, (j - 1) as nat);
        }
        if i >= 1 && j >= 1 {
            lemma_dp_bounds(mode, *sc, band as nat, q@, t@, (i - 1) as nat, (j - 1) as nat);
            lemma_pair_score_bounded(*sc, q@[i - 1], t@[j - 1]);
        }
        assert((n + m) * STEP_BOUND <= MAX_ALIGN_LEN * STEP_BOUND) by (nonlinear_arith)
            requires
                n + m <= MAX_ALIGN_LEN,
        ;
        assert((i + j) * STEP_BOUND <= (n + m) * STEP_BOUND) by (nonlinear_arith)
            requires
                i + j <= n + m,
        ;
    }
    let pair = if i >= 1 && j >= 1 {
        row_get(prev_best, band, m, i - 1, j - 1, Ghost(mode), Ghost(*sc), Ghost(q@), Ghost(t@), Ghost(Track::Best))
            + sc.score(q[i - 1], t[j - 1]) as i64
    } else {
        NEG_INF
    };
    let ins = if i >= 1 {
        max_i64(
            row_get(prev_best, band, m, i - 1, j, Ghost(mode), Ghost(*sc), Ghost(q@), Ghost(t@), Ghost(Track::Best)) + open + ext,
            row_get(prev_ins, band, m, i - 1, j, Ghost(mode), Ghost(*sc), Ghost(q@), Ghost(t@), Ghost(Track::Insertion)) + ext,
        )
    } else {
        NEG_INF
    };
    let del = if j >= 1 && j > lo {
        assert(row_lo(band as nat, i as nat) + (j - 1 - lo) as nat == j - 1);
        assert(row_best@[(j - 1 - lo) as int] == dp(mode, *sc, band as nat, q@, t@, i as nat, (j - 1) as nat, Track::Best));
        assert(row_del@[(j - 1 - lo) as int] == dp(mode, *sc, band as nat, q@, t@, i as nat, (j - 1) as nat, Track::Deletion));
        max_i64(row_best[j - 1 - lo] + open + ext, row_del[j - 1 - lo] + ext)
    } else if j >= 1 {
        assert(!in_band(band as nat, i as nat, (j - 1) as nat));
        max_i64(NEG_INF + open + ext, NEG_INF + ext)
    } else {
        NEG_INF
    };
    assert(in_band(band as nat, i as nat, j as nat));
    assert(pair == dp(mode, *sc, band as nat, q@, t@, i as nat, j as nat, Track::Pair));
    assert(ins == dp(mode, *sc, band as nat, q@, t@, i as nat, j as nat, Track::Insertion));
    assert(del == dp(mode, *sc, band as nat, q@, t@, i as nat, j as nat, Track::Deletion));
    let here = max_i64(max_i64(start_value(mode, i, j), pair), max_i64(ins, del));
    (here, ins, del)
}

/// Fills the three tables of the affine-gap recurrence over the band, row by row; only
/// the cells of the band are computed and stored.
pub fn fill_tables(mode: AlignmentMode, sc: &ScoringScheme, band: usize, q: &[u8], t: &[u8]) -> (r:
    DpTables)
    requires
        sc.is_valid(),
        q@.len() + t@.len() <= MAX_ALIGN_LEN,
    ensures
        r.holds(mode, *sc, band as nat, q@, t@),
{
    let n = q.len();
    let m = t.len();
    let open = sc.gap_open() as i64;
    let ext = sc.gap_extend() as i64;
    let mut best: Vec<Vec<i64>> = Vec::new();
    let mut insertion: Vec<Vec<i64>> = Vec::new();
    let mut deletion: Vec<Vec<i64>> = Vec::new();
    let mut i: usize = 0;
    while i <= n
        invariant
            sc.is_valid(),
            n == q@.len(),
            m == t@.len(),
            n + m <= MAX_ALIGN_LEN,
            open == sc.open_cost(),
            ext == sc.extend_cost(),
            i <= n + 1,
            rows_hold(best@, i as int, mode, *sc, band as nat, q@, t@, Track::Best),
            rows_hold(insertion@, i as int, mode, *sc, band as nat, q@, t@, Track::Insertion),
            rows_hold(deletion@, i as int, mode, *sc, band as nat, q@, t@, Track::Deletion),
        decreases n + 1 - i,
    {
        let lo = band_lo(band, i);
        let hi = if band < m && i < m - band { i + band } else { m };
        let empty: Vec<i64> = Vec::new();
        let prev_best: &Vec<i64> = if i >= 1 { &best[i - 1] } else { &empty };
        let prev_ins: &Vec<i64> = if i >= 1 { &insertion[i - 1] } else { &empty };
        proof {
            if i >= 1 {
                assert(prev_best@.len() == row_width(band as nat, m as nat, (i - 1) as nat));
                assert(prev_ins@.len() == row_width(band as nat, m as nat, (i - 1) as nat));
            }
        }
        let mut row_best: Vec<i64> = Vec::new();
        let mut row_ins: Vec<i64> = Vec::new();
        let mut row_del: Vec<i64> = Vec::new();
        let mut j: usize = lo;
        while j <= hi
            invariant
                sc.is_valid(),
                n == q@.len(),
                m == t@.len(),
                n + m <= MAX_ALIGN_LEN,
                open == sc.open_cost(),
                ext == sc.extend_cost(),
                i <= n,
                hi <= m,
                lo == row_lo(band as nat, i as nat),
                hi == (if i + band < m { i + band } else { m as int }),
                lo <= j <= hi + 1 || (lo > hi && j == lo),
                i >= 1 ==> prev_best@ == best@[i - 1]@,
                i >= 1 ==> prev_ins@ == insertion@[i - 1]@,
                rows_hold(best@, i as int, mode, *sc, band as nat, q@, t@, Track::Best),
                rows_hold(insertion@, i as int, mode, *sc, band as nat, q@, t@, Track::Insertion),
                rows_hold(deletion@, i as int, mode, *sc, band as nat, q@, t@, Track::Deletion),
                row_holds(row_best@, j - lo, i as nat, mode, *sc, band as nat, q@, t@, Track::Best),
                row_holds(row_ins@, j - lo, i as nat, mode, *sc, band as nat, q@, t@, Track::Insertion),
                row_holds(row_del@, j - lo, i as nat, mode, *sc, band as nat, q@, t@, Track::Deletion),
            decreases hi + 1 - j,
        {
            assert(in_band(band as nat, i as nat, j as nat));
            proof {
                if i >= 1 {
                    assert forall|b: int|
                        0 <= b < row_width(band as nat, m as nat, (i - 1) as nat) implies #[trigger] prev_best@[b]
                            == dp(mode, *sc, band as nat, q@, t@, (i - 1) as nat, row_lo(band as nat, (i - 1) as nat) + b as nat, Track::Best)
                            && prev_ins@[b] == dp(mode, *sc, band as nat, q@, t@, (i - 1) as nat, row_lo(band as nat, (i - 1) as nat) + b as nat, Track::Insertion) by {
                        assert(best@[i - 1]@[b] == prev_best@[b]);
                        assert(insertion@[i - 1]@[b] == prev_ins@[b]);
                    }
                }
            }
            let (here, ins, del) = compute_cell(
                mode,
                sc,
                band,
                q,
                t,
                prev_best,
                prev_ins,
                &row_best,
                &row_del,
                i,
                j,
                lo,
                open,
                ext,
            );
            row_best.push(here);
            row_ins.push(ins);
            row_del.push(del);
            j = j + 1;
        }
        assert(row_best@.len() == row_width(band as nat, m as nat, i as nat));
        best.push(row_best);
        insertion.push(row_ins);
        deletion.push(row_del);
        i = i + 1;
    }
    DpTables { best, insertion, deletion, band, cols: m }
}

pub(crate) fn is_candidate(mode: AlignmentMode, n: usize, m: usize, i: usize, j: usize) -> (r: bool)
    requires
        i <= n,
        j <= m,
    ensures
        r == is_end_candidate(mode, n as nat, m as nat, i as nat, j as nat),
{
    match mode {
        AlignmentMode::Global => i == n && j == m,
        AlignmentMode::SemiGlobal => i == n || j == m,
        AlignmentMode::Local => true,
    }
}

/// Every candidate cell of the band before `(a, b)` in row-major order scores at most as
/// well as cell `(bi, bj)`, and ties come no earlier than it.
pub open spec fn best_so_far(
    mode: AlignmentMode,
    sc: ScoringScheme,
    w: nat,
    q: Seq<u8>,
    t: Seq<u8>,
    found: bool,
    bi: nat,
    bj: nat,
    a: nat,
    b: nat,
) -> bool {
    forall|x: nat, y: nat|
        #![trigger is_end_candidate(mode, q.len(), t.len(), x, y)]
        (x < a || (x == a && y < b)) && is_end_candidate(mode, q.len(), t.len(), x, y) && in_band(
            w,
            x,
            y,
        ) ==> {
            &&& found
            &&& dp(mode, sc, w, q, t, x, y, Track::Best) <= dp(mode, sc, w, q, t, bi, bj, Track::Best)
            &&& (dp(mode, sc, w, q, t, x, y, Track::Best) == dp(mode, sc, w, q, t, bi, bj, Track::Best)
                ==> cell_le(bi, bj, x, y))
        }
}

pub(crate) proof fn lemma_next_row(
    mode: AlignmentMode,
    sc: ScoringScheme,
    w: nat,
    q: Seq<u8>,
    t: Seq<u8>,
    found: bool,
    bi: nat,
    bj: nat,
    a: nat,
    b: nat,
)
    requires
        best_so_far(mode, sc, w, q, t, found, bi, bj, a, b),
        b == (if a + w < t.len() { a + w } else { t.len() }) + 1,
    ensures
        best_so_far(mode, sc, w, q, t, found, bi, bj, a + 1, 0),
{
    assert forall|x: nat, y: nat|
        (x < a + 1 || (x == a + 1 && y < 0)) && #[trigger] is_end_candidate(
            mode,
            q.len(),
            t.len(),
            x,
            y,
        ) && in_band(w, x, y) implies {
        &&& found
        &&& dp(mode, sc, w, q, t, x, y, Track::Best) <= dp(mode, sc, w, q, t, bi, bj, Track::Best)
        &&& (dp(mode, sc, w, q, t, x, y, Track::Best) == dp(mode, sc, w, q, t, bi, bj, Track::Best)
            ==> cell_le(bi, bj, x, y))
    } by {
        assert(x < a || (x == a && y < b));
    }
}

/// A candidate end cell lies in the band.
pub open spec fn band_reaches_end(mode: AlignmentMode, w: nat, n: nat, m: nat) -> bool {
    mode == AlignmentMode::Global ==> in_band(w, n, m)
}

/// Finds the cell where the optimal alignment ends, scanning the candidate cells of the band.
pub fn find_end(
    mode: AlignmentMode,
    sc: &ScoringScheme,
    band: usize,
    q: &[u8],
    t: &[u8],
    tabs: &DpTables,
) -> (r: (usize, usize))
    requires
        sc.is_valid(),
        tabs.holds(mode, *sc, band as nat, q@, t@),
        q@.len() + t@.len() <= MAX_ALIGN_LEN,
        band_reaches_end(mode, band as nat, q@.len(), t@.len()),
    ensures
        is_best_end(mode, *sc, band as nat, q@, t@, r.0 as nat, r.1 as nat),
        r.0 <= q@.len(),
        r.1 <= t@.len(),
{
    let n = q.len();
    let m = t.len();
    let mut bi: usize = 0;
    let mut bj: usize = 0;
    let mut found = false;
    let mut a: usize = 0;
    while a <= n
        invariant
            n == q@.len(),
            m == t@.len(),
            tabs.holds(mode, *sc, band as nat, q@, t@),
            n + m <= MAX_ALIGN_LEN,
            a <= n + 1,
            bi <= n,
            bj <= m,
            found ==> bi < a,
            found ==> is_end_candidate(mode, n as nat, m as nat, bi as nat, bj as nat),
            found ==> in_band(band as nat, bi as nat, bj as nat),
            best_so_far(mode, *sc, band as nat, q@, t@, found, bi as nat, bj as nat, a as nat, 0),
        decreases n + 1 - a,
    {
        let lo = band_lo(band, a);
        let hi = if band < m && a < m - band { a + band } else { m };
        let mut b: usize = lo;
        assert forall|x: nat, y: nat|
            (x < a || (x == a && y < lo)) && #[trigger] is_end_candidate(mode, q@.len(), t@.len(), x, y)
                && in_band(band as nat, x, y) implies x < a by {}
        while b <= hi
            invariant
                n == q@.len(),
                m == t@.len(),
                tabs.holds(mode, *sc, band as nat, q@, t@),
                n + m <= MAX_ALIGN_LEN,
                a <= n,
                hi <= m,
                hi == (if a + band < m { a + band } else { m as int }),
                lo == row_lo(band as nat, a as nat),
                lo <= b,
                b <= hi + 1 || b == lo,
                bi <= n,
                bj <= m,
                found ==> is_end_candidate(mode, n as nat, m as nat, bi as nat, bj as nat),
                found ==> in_band(band as nat, bi as nat, bj as nat),
                found ==> (bi < a || (bi == a && bj < b)),
                best_so_far(mode, *sc, band as nat, q@, t@, found, bi as nat, bj as nat, a as nat, b as nat),
            decreases hi + 1 - b,
        {
            if is_candidate(mode, n, m, a, b) {
                let v = tabs.value(a, b, Track::Best, Ghost(mode), Ghost(*sc), Ghost(q@), Ghost(t@));
                if !found || v > tabs.value(bi, bj, Track::Best, Ghost(mode), Ghost(*sc), Ghost(q@), Ghost(t@)) {
                    bi = a;
                    bj = b;
                    found = true;
                }
            }
            b = b + 1;
        }
        proof {
            if lo > hi {
                assert forall|x: nat, y: nat|
                    (x < a + 1 || (x == a + 1 && y < 0)) && #[trigger] is_end_candidate(mode, q@.len(), t@.len(), x, y)
                        && in_band(band as nat, x, y) implies x < a by {}
            } else {
                lemma_next_row(mode, *sc, band as nat, q@, t@, found, bi as nat, bj as nat, a as nat, b as nat);
            }
        }
        a = a + 1;
    }
    proof {
        let qn = q@.len();
        let tn = t@.len();
        let (ci, cj) = match mode {
            AlignmentMode::Global => (qn, tn),
            AlignmentMode::Local => (0nat, 0nat),
            AlignmentMode::SemiGlobal => if qn <= tn { (qn, qn) } else { (tn, tn) },
        };
        assert(is_end_candidate(mode, qn, tn, ci, cj) && in_band(band as nat, ci, cj));
        assert(found);
        lemma_dp_bounds(mode, *sc, band as nat, q@, t@, bi as nat, bj as nat);
        assert((bi + bj) * STEP_BOUND <= MAX_ALIGN_LEN * STEP_BOUND) by (nonlinear_arith)
            requires
                bi + bj <= MAX_ALIGN_LEN,
        ;
        assert forall|x: nat, y: nat|
            #![trigger dp(mode, *sc, band as nat, q@, t@, x, y, Track::Best)]
            is_end_candidate(mode, qn, tn, x, y) implies {
            &&& dp(mode, *sc, band as nat, q@, t@, x, y, Track::Best) <= dp(mode, *sc, band as nat, q@, t@, bi as nat, bj as nat, Track::Best)
            &&& (dp(mode, *sc, band as nat, q@, t@, x, y, Track::Best) == dp(mode, *sc, band as nat, q@, t@, bi as nat, bj as nat, Track::Best)
                ==> cell_le(bi as nat, bj as nat, x, y))
        } by {
            if !in_band(band as nat, x, y) {
                lemma_dp_bounds(mode, *sc, band as nat, q@, t@, x, y);
            }
        }
    }
    (bi, bj)
}

/// `s` read backwards.
pub open spec fn reversed(s: Seq<u8>) -> Seq<u8> {
    Seq::new(s.len(), |x: int| s[s.len() - 1 - x])
}

proof fn lemma_push_reversed(a: Seq<u8>, x: u8, r: Seq<u8>)
    ensures
        a.push(x) + reversed(r) == a + reversed(r.push(x)),
{
    assert(a.push(x) + reversed(r) =~= a + reversed(r.push(x)));
}

pub(crate) fn reverse_bytes(v: &Vec<u8>) -> (r: Vec<u8>)
    ensures
        r@ == reversed(v@),
{
    let mut out: Vec<u8> = Vec::new();
    let mut p: usize = v.len();
    while p > 0
        invariant
            p <= v@.len(),
            out@ =~= reversed(v@.subrange(p as int, v@.len() as int)),
        decreases p,
    {
        p = p - 1;
        out.push(v[p]);
        assert(out@ =~= reversed(v@.subrange(p as int, v@.len() as int)));
    }
    assert(v@.subrange(0, v@.len() as int) =~= v@);
    out
}

/// Walks back from cell `(ei, ej)` through the tables, collecting the aligned columns.
pub fn traceback(
    mode: AlignmentMode,
    sc: &ScoringScheme,
    band: usize,
    q: &[u8],
    t: &[u8],
    tabs: &DpTables,
    ei: usize,
    ej: usize,
) -> (r: (Vec<u8>, Vec<u8>, usize, usize))
    requires
        sc.is_valid(),
        q@.len() + t@.len() <= MAX_ALIGN_LEN,
        tabs.holds(mode, *sc, band as nat, q@, t@),
        ei <= q@.len(),
        ej <= t@.len(),
    ensures
        (r.0@, r.1@, r.2 as nat, r.3 as nat) == trace(
            mode,
            *sc,
            band as nat,
            q@,
            t@,
            ei as nat,
            ej as nat,
            Track::Best,
        ),
{
    let ghost full = trace(mode, *sc, band as nat, q@, t@, ei as nat, ej as nat, Track::Best);
    let open = sc.gap_open() as i64;
    let ext = sc.gap_extend() as i64;
    let mut rev_q: Vec<u8> = Vec::new();
    let mut rev_t: Vec<u8> = Vec::new();
    let mut i: usize = ei;
    let mut j: usize = ej;
    let mut k: Track = Track::Best;
    loop
        invariant
            sc.is_valid(),
            q@.len() + t@.len() <= MAX_ALIGN_LEN,
            tabs.holds(mode, *sc, band as nat, q@, t@),
            open == sc.open_cost(),
            ext == sc.extend_cost(),
            i <= q@.len(),
            j <= t@.len(),
            full == trace(mode, *sc, band as nat, q@, t@, ei as nat, ej as nat, Track::Best),
            full.0 == trace(mode, *sc, band as nat, q@, t@, i as nat, j as nat, k).0 + reversed(rev_q@),
            full.1 == trace(mode, *sc, band as nat, q@, t@, i as nat, j as nat, k).1 + reversed(rev_t@),
            full.2 == trace(mode, *sc, band as nat, q@, t@, i as nat, j as nat, k).2,
            full.3 == trace(mode, *sc, band as nat, q@, t@, i as nat, j as nat, k).3,
        ensures
            trace(mode, *sc, band as nat, q@, t@, i as nat, j as nat, k).0 == Seq::<u8>::empty(),
            trace(mode, *sc, band as nat, q@, t@, i as nat, j as nat, k).1 == Seq::<u8>::empty(),
            trace(mode, *sc, band as nat, q@, t@, i as nat, j as nat, k).2 == i,
            trace(mode, *sc, band as nat, q@, t@, i as nat, j as nat, k).3 == j,
        decreases 2 * (i + j) + track_rank(k),
    {
        let ghost cur = trace(mode, *sc, band as nat, q@, t@, i as nat, j as nat, k);
        proof {
            lemma_dp_bounds(mode, *sc, band as nat, q@, t@, i as nat, j as nat);
            if i >= 1 {
                lemma_dp_bounds(mode, *sc, band as nat, q@, t@, (i - 1) as nat, j as nat);
            }
            if j >= 1 {
                lemma_dp_bounds(mode, *sc, band as nat, q@, t@, i as nat, (j - 1) as nat);
            }
            if i >= 1 && j >= 1 {
                lemma_dp_bounds(mode, *sc, band as nat, q@, t@, (i - 1) as nat, (j - 1) as nat);
                lemma_pair_score_bounded(*sc, q@[i - 1], t@[j - 1]);
            }
            lemma_pair_score_bounded(*sc, 0, 0);
            assert((q@.len() + t@.len()) * STEP_BOUND <= MAX_ALIGN_LEN * STEP_BOUND) by (nonlinear_arith)
                requires
                    q@.len() + t@.len() <= MAX_ALIGN_LEN,
            ;
            assert((i + j) * STEP_BOUND <= (q@.len() + t@.len()) * STEP_BOUND) by (nonlinear_arith)
                requires
                    i + j <= q@.len() + t@.len(),
            ;
        }
        let best = tabs.value(i, j, Track::Best, Ghost(mode), Ghost(*sc), Ghost(q@), Ghost(t@));
        match k {
            Track::Best => {
                if best == start_value(mode, i, j) {
                    break ;
                }
                let inside = (i <= j || i - j <= band) && (j <= i || j - i <= band);
                assert(inside == in_band(band as nat, i as nat, j as nat));
                let pair = if i >= 1 && j >= 1 && inside {
                    tabs.value(i - 1, j - 1, Track::Best, Ghost(mode), Ghost(*sc), Ghost(q@), Ghost(t@)) + sc.score(q[i - 1], t[j - 1]) as i64
                } else {
                    NEG_INF
                };
                if i >= 1 && j >= 1 && pair == best {
                    let ghost prev = trace(mode, *sc, band as nat, q@, t@, (i - 1) as nat, (j - 1) as nat, Track::Best);
                    proof {
                        lemma_push_reversed(prev.0, q@[i - 1], rev_q@);
                        lemma_push_reversed(prev.1, t@[j - 1], rev_t@);
                    }
                    rev_q.push(q[i - 1]);
                    rev_t.push(t[j - 1]);
                    i = i - 1;
                    j = j - 1;
                } else if i >= 1 && tabs.value(i, j, Track::Insertion, Ghost(mode), Ghost(*sc), Ghost(q@), Ghost(t@)) == best {
                    k = Track::Insertion;
                } else if j >= 1 {
                    k = Track::Deletion;
                } else {
                    break ;
                }
            },
            Track::Insertion => {
                if i == 0 {
                    break ;
                }
                let opened = tabs.value(i, j, Track::Insertion, Ghost(mode), Ghost(*sc), Ghost(q@), Ghost(t@)) == tabs.value(i - 1, j, Track::Best, Ghost(mode), Ghost(*sc), Ghost(q@), Ghost(t@)) + open + ext;
                let next = if opened { Track::Best } else { Track::Insertion };
                let ghost prev = trace(mode, *sc, band as nat, q@, t@, (i - 1) as nat, j as nat, next);
                proof {
                    lemma_push_reversed(prev.0, q@[i - 1], rev_q@);
                    lemma_push_reversed(prev.1, GAP, rev_t@);
                }
                rev_q.push(q[i - 1]);
                rev_t.push(GAP);
                i = i - 1;
                k = next;
            },
            Track::Deletion => {
                if j == 0 {
                    break ;
                }
                let opened = tabs.value(i, j, Track::Deletion, Ghost(mode), Ghost(*sc), Ghost(q@), Ghost(t@)) == tabs.value(i, j - 1, Track::Best, Ghost(mode), Ghost(*sc), Ghost(q@), Ghost(t@)) + open + ext;
                let next = if opened { Track::Best } else { Track::Deletion };
                let ghost prev = trace(mode, *sc, band as nat, q@, t@, i as nat, (j - 1) as nat, next);
                proof {
                    lemma_push_reversed(prev.0, GAP, rev_q@);
                    lemma_push_reversed(prev.1, t@[j - 1], rev_t@);
                }
                rev_q.push(GAP);
                rev_t.push(t[j - 1]);
                j = j - 1;
                k = next;
            },
            Track::Pair => {
                break ;
            },
        }
    }
    assert(full.0 =~= reversed(rev_q@));
    assert(full.1 =~= reversed(rev_t@));
    let aligned_query = reverse_bytes(&rev_q);
    let aligned_target = reverse_bytes(&rev_t);
    (aligned_query, aligned_target, i, j)
}

/// One pairwise alignment: its score, the two aligned sequences (gaps written as `GAP`),
/// and the half-open ranges of the query and the target that it covers.
#[derive(Clone, Debug)]
pub struct AlignmentResult {
    pub score: i64,
    pub aligned_query: Vec<u8>,
    pub aligned_target: Vec<u8>,
    pub query_start: usize,
    pub query_end: usize,
    pub target_start: usize,
    pub target_end: usize,
}

/// Number of columns `x` of an alignment of which `f(a[x], b[x])` holds.
pub open spec fn count_columns(a: Seq<u8>, b: Seq<u8>, f: spec_fn(u8, u8) -> bool) -> nat
    decreases a.len(),
{
    if a.len() == 0 {
        0
    } else {
        count_columns(a.drop_last(), b, f) + if f(a.last(), b[a.len() - 1]) { 1nat } else { 0nat }
    }
}

pub open spec fn is_match_column(x: u8, y: u8) -> bool {
    x == y && x != GAP
}

pub open spec fn is_mismatch_column(x: u8, y: u8) -> bool {
    x != y && x != GAP && y != GAP
}

pub open spec fn is_gap_column(x: u8, y: u8) -> bool {
    x == GAP || y == GAP
}

impl AlignmentResult {
    /// The result is the optimal alignment of `q` and `t` in `mode` under `sc` over the full
    /// matrix.
    pub open spec fn is_alignment_of(
        &self,
        mode: AlignmentMode,
        sc: ScoringScheme,
        q: Seq<u8>,
        t: Seq<u8>,
    ) -> bool {
        self.is_banded_alignment_of(mode, sc, q.len() + t.len(), q, t)
    }

    /// The result is the optimal alignment of `q` and `t` in `mode` under `sc` within the band
    /// of half-width `w`: it ends at the best end cell, scores what the recurrence gives
    /// there, and holds the columns and start cell of the traceback from it.
    pub open spec fn is_banded_alignment_of(
        &self,
        mode: AlignmentMode,
        sc: ScoringScheme,
        w: nat,
        q: Seq<u8>,
        t: Seq<u8>,
    ) -> bool {
        let tr = trace(mode, sc, w, q, t, self.query_end as nat, self.target_end as nat, Track::Best);
        &&& is_best_end(mode, sc, w, q, t, self.query_end as nat, self.target_end as nat)
        &&& self.score == dp(
            mode,
            sc,
            w,
            q,
            t,
            self.query_end as nat,
            self.target_end as nat,
            Track::Best,
        )
        &&& self.aligned_query@ == tr.0
        &&& self.aligned_target@ == tr.1
        &&& self.query_start == tr.2
        &&& self.target_start == tr.3
    }

    /// Number of columns: the alignment length.
    pub fn length(&self) -> (r: usize)
        ensures
            r == self.aligned_query@.len(),
    {
        self.aligned_query.len()
    }

    fn count_where(&self, which: u8) -> (r: usize)
        requires
            self.aligned_query@.len() == self.aligned_target@.len(),
            which < 3,
        ensures
            which == 0 ==> r == count_columns(
                self.aligned_query@,
                self.aligned_target@,
                |x: u8, y: u8| is_match_column(x, y),
            ),
            which == 1 ==> r == count_columns(
                self.aligned_query@,
                self.aligned_target@,
                |x: u8, y: u8| is_mismatch_column(x, y),
            ),
            which == 2 ==> r == count_columns(
                self.aligned_query@,
                self.aligned_target@,
                |x: u8, y: u8| is_gap_column(x, y),
            ),
    {
        let ghost f: spec_fn(u8, u8) -> bool = if which == 0 {
            |x: u8, y: u8| is_match_column(x, y)
        } else if which == 1 {
            |x: u8, y: u8| is_mismatch_column(x, y)
        } else {
            |x: u8, y: u8| is_gap_column(x, y)
        };
        let a = &self.aligned_query;
        let b = &self.aligned_target;
        let mut count: usize = 0;
        let mut x: usize = 0;
        while x < a.len()
            invariant
                a@.len() == b@.len(),
                x <= a@.len(),
                count <= x,
                which < 3,
                f == (if which == 0 {
                    |x: u8, y: u8| is_match_column(x, y)
                } else if which == 1 {
                    |x: u8, y: u8| is_mismatch_column(x, y)
                } else {
                    |x: u8, y: u8| is_gap_column(x, y)
                }),
                count == count_columns(a@.subrange(0, x as int), b@, f),
            decreases a@.len() - x,
        {
            let u = a[x];
            let v = b[x];
            let hit = if which == 0 {
                u == v && u != GAP
            } else if which == 1 {
                u != v && u != GAP && v != GAP
            } else {
                u == GAP || v == GAP
            };
            assert(a@.subrange(0, x + 1).drop_last() =~= a@.subrange(0, x as int));
            if hit {
                count = count + 1;
            }
            x = x + 1;
        }
        assert(a@.subrange(0, a@.len() as int) =~= a@);
        count
    }

    /// Columns that align two equal residues.
    pub fn matches(&self) -> (r: usize)
        requires
            self.aligned_query@.len() == self.aligned_target@.len(),
        ensures
            r == count_columns(
                self.aligned_query@,
                self.aligned_target@,
                |x: u8, y: u8| is_match_column(x, y),
            ),
    {
        self.count_where(0)
    }

    /// Columns that align two different residues.
    pub fn mismatches(&self) -> (r: usize)
        requires
            self.aligned_query@.len() == self.aligned_target@.len(),
        ensures
            r == count_columns(
                self.aligned_query@,
                self.aligned_target@,
                |x: u8, y: u8| is_mismatch_column(x, y),
            ),
    {
        self.count_where(1)
    }

    /// Columns with a gap on either side.
    pub fn gaps(&self) -> (r: usize)
        requires
            self.aligned_query@.len() == self.aligned_target@.len(),
        ensures
            r == count_columns(
                self.aligned_query@,
                self.aligned_target@,
                |x: u8, y: u8| is_gap_column(x, y),
            ),
    {
        self.count_where(2)
    }
}

impl AlignmentResult {
    /// The CIGAR string of the alignment (matches and mismatches as `M`).
    pub fn cigar_string(&self) -> (r: String)
        requires
            self.aligned_query@.len() == self.aligned_target@.len(),
            no_empty_column(self.aligned_query@, self.aligned_target@),
        ensures
            r@ == crate::cigar::render(
                crate::cigar::alignment_ops(self.aligned_query@, self.aligned_target@),
            ),
    {
        match crate::cigar::alignment_to_cigar(&self.aligned_query, &self.aligned_target) {
            Ok(ops) => crate::cigar::cigar_string(ops.as_slice()),
            Err(_) => String::new(),
        }
    }
}

impl ScoringScheme {
    /// Whether the scheme is valid (see `is_valid`).
    pub fn check(&self) -> (r: bool)
        ensures
            r == self.is_valid(),
    {
        match self {
            ScoringScheme::Simple(m) => m.gap_open <= 0 && m.gap_extend <= 0,
            ScoringScheme::Substitution(m) => m.lower_triangle.len() == crate::scoring::TRIANGLE_SIZE
                && m.gap_open <= 0 && m.gap_extend <= 0,
        }
    }
}

pub(crate) fn align_in_band(
    query: &[u8],
    target: &[u8],
    mode: AlignmentMode,
    scoring: &ScoringScheme,
    band: usize,
) -> (r: AlignmentResult)
    requires
        query@.len() + target@.len() <= MAX_ALIGN_LEN,
        scoring.is_valid(),
        band_reaches_end(mode, band as nat, query@.len(), target@.len()),
    ensures
        r.is_banded_alignment_of(mode, *scoring, band as nat, query@, target@),
{
    let tabs = fill_tables(mode, scoring, band, query, target);
    let (query_end, target_end) = find_end(mode, scoring, band, query, target, &tabs);
    let score = tabs.value(
        query_end,
        target_end,
        Track::Best,
        Ghost(mode),
        Ghost(*scoring),
        Ghost(query@),
        Ghost(target@),
    );
    let (aligned_query, aligned_target, query_start, target_start) = traceback(
        mode,
        scoring,
        band,
        query,
        target,
        &tabs,
        query_end,
        target_end,
    );
    AlignmentResult {
        score,
        aligned_query,
        aligned_target,
        query_start,
        query_end,
        target_start,
        target_end,
    }
}

/// Aligns `query` with `target` in `mode` under `scoring`, by dynamic programming over the
/// full matrix with affine gaps, followed by a traceback.
pub fn align(query: &[u8], target: &[u8], mode: AlignmentMode, scoring: &ScoringScheme) -> (r:
    Result<AlignmentResult, AlignError>)
    ensures
        match pair_error(query@, target@, *scoring) {
            Some(e) => r == Err::<AlignmentResult, AlignError>(e),
            None => r is Ok && r->Ok_0.is_alignment_of(mode, *scoring, query@, target@),
        },
{
    if query.len() == 0 || target.len() == 0 {
        return Err(AlignError::EmptyInput);
    }
    if query.len() > MAX_ALIGN_LEN || target.len() > MAX_ALIGN_LEN - query.len() {
        return Err(AlignError::TooLong);
    }
    if !scoring.check() {
        return Err(AlignError::InvalidScoring);
    }
    let band = query.len() + target.len();
    Ok(align_in_band(query, target, mode, scoring, band))
}

/// `s` with every `GAP` removed.
pub open spec fn degap(s: Seq<u8>) -> Seq<u8>
    decreases s.len(),
{
    if s.len() == 0 {
        s
    } else if s.last() == GAP {
        degap(s.drop_last())
    } else {
        degap(s.drop_last()).push(s.last())
    }
}

/// `s` holds no `GAP` byte.
pub open spec fn gap_free(s: Seq<u8>) -> bool {
    forall|x: int| 0 <= x < s.len() ==> s[x] != GAP
}

/// Every column of the two rows holds a residue on at least one side.
pub open spec fn no_empty_column(a: Seq<u8>, b: Seq<u8>) -> bool {
    forall|x: int| 0 <= x < a.len() ==> !(#[trigger] a[x] == GAP && b[x] == GAP)
}

/// The traceback's two rows always have the same length, and its start cell lies at or
/// before its end cell.
pub proof fn lemma_trace_shape(
    mode: AlignmentMode,
    sc: ScoringScheme,
    w: nat,
    q: Seq<u8>,
    t: Seq<u8>,
    i: nat,
    j: nat,
    k: Track,
)
    requires
        i <= q.len(),
        j <= t.len(),
    ensures
        ({
            let tr = trace(mode, sc, w, q, t, i, j, k);
            &&& tr.0.len() == tr.1.len()
            &&& tr.2 <= i
            &&& tr.3 <= j
            &&& gap_free(q) && gap_free(t) ==> {
                &&& degap(tr.0) == q.subrange(tr.2 as int, i as int)
                &&& degap(tr.1) == t.subrange(tr.3 as int, j as int)
                &&& no_empty_column(tr.0, tr.1)
            }
        }),
    decreases i + j, track_rank(k),
{
    let tr = trace(mode, sc, w, q, t, i, j, k);
    let best = dp(mode, sc, w, q, t, i, j, Track::Best);
    match k {
        Track::Best => {
            if best == start_score(mode, i, j) {
                assert(q.subrange(i as int, i as int) =~= Seq::<u8>::empty());
                assert(t.subrange(j as int, j as int) =~= Seq::<u8>::empty());
            } else if i >= 1 && j >= 1 && dp(mode, sc, w, q, t, i, j, Track::Pair) == best {
                let r = trace(mode, sc, w, q, t, (i - 1) as nat, (j - 1) as nat, Track::Best);
                lemma_trace_shape(mode, sc, w, q, t, (i - 1) as nat, (j - 1) as nat, Track::Best);
                assert(tr.0.drop_last() =~= r.0);
                assert(tr.1.drop_last() =~= r.1);
                assert(q.subrange(r.2 as int, i as int) =~= q.subrange(r.2 as int, i - 1).push(q[i - 1]));
                assert(t.subrange(r.3 as int, j as int) =~= t.subrange(r.3 as int, j - 1).push(t[j - 1]));
            } else if i >= 1 && dp(mode, sc, w, q, t, i, j, Track::Insertion) == best {
                lemma_trace_shape(mode, sc, w, q, t, i, j, Track::Insertion);
            } else if j >= 1 {
                lemma_trace_shape(mode, sc, w, q, t, i, j, Track::Deletion);
            } else {
                assert(q.subrange(i as int, i as int) =~= Seq::<u8>::empty());
                assert(t.subrange(j as int, j as int) =~= Seq::<u8>::empty());
            }
        },
        Track::Insertion => {
            if i >= 1 {
                let opened = dp(mode, sc, w, q, t, i, j, Track::Insertion) == dp(
                    mode,
                    sc,
                    w,
                    q,
                    t,
                    (i - 1) as nat,
                    j,
                    Track::Best,
                ) + sc.open_cost() + sc.extend_cost();
                let nk = if opened { Track::Best } else { Track::Insertion };
                let r = trace(mode, sc, w, q, t, (i - 1) as nat, j, nk);
                lemma_trace_shape(mode, sc, w, q, t, (i - 1) as nat, j, nk);
                assert(tr.0.drop_last() =~= r.0);
                assert(tr.1.drop_last() =~= r.1);
                assert(q.subrange(r.2 as int, i as int) =~= q.subrange(r.2 as int, i - 1).push(q[i - 1]));
            } else {
                assert(q.subrange(i as int, i as int) =~= Seq::<u8>::empty());
                assert(t.subrange(j as int, j as int) =~= Seq::<u8>::empty());
            }
        },
        Track::Deletion => {
            if j >= 1 {
                let opened = dp(mode, sc, w, q, t, i, j, Track::Deletion) == dp(
                    mode,
                    sc,
                    w,
                    q,
                    t,
                    i,
                    (j - 1) as nat,
                    Track::Best,
                ) + sc.open_cost() + sc.extend_cost();
                let nk = if opened { Track::Best } else { Track::Deletion };
                let r = trace(mode, sc, w, q, t, i, (j - 1) as nat, nk);
                lemma_trace_shape(mode, sc, w, q, t, i, (j - 1) as nat, nk);
                assert(tr.0.drop_last() =~= r.0);
                assert(tr.1.drop_last() =~= r.1);
                assert(t.subrange(r.3 as int, j as int) =~= t.subrange(r.3 as int, j - 1).push(t[j - 1]));
            } else {
                assert(q.subrange(i as int, i as int) =~= Seq::<u8>::empty());
                assert(t.subrange(j as int, j as int) =~= Seq::<u8>::empty());
            }
        },
        Track::Pair => {
            assert(q.subrange(i as int, i as int) =~= Seq::<u8>::empty());
            assert(t.subrange(j as int, j as int) =~= Seq::<u8>::empty());
        },
    }
}

/// An alignment result, full or banded, is well formed: its two rows have the same length, no column is a
/// gap on both sides, and removing the gaps from each row gives back exactly the part of
/// the input that the result's coordinates name. (Inputs must not themselves hold `GAP`.)
pub proof fn lemma_alignment_reproduces_input(
    r: AlignmentResult,
    mode: AlignmentMode,
    sc: ScoringScheme,
    w: nat,
    q: Seq<u8>,
    t: Seq<u8>,
)
    requires
        r.is_banded_alignment_of(mode, sc, w, q, t),
        gap_free(q),
        gap_free(t),
    ensures
        r.aligned_query@.len() == r.aligned_target@.len(),
        r.query_start <= r.query_end <= q.len(),
        r.target_start <= r.target_end <= t.len(),
        degap(r.aligned_query@) == q.subrange(r.query_start as int, r.query_end as int),
        degap(r.aligned_target@) == t.subrange(r.target_start as int, r.target_end as int),
        no_empty_column(r.aligned_query@, r.aligned_target@),
{
    lemma_trace_shape(mode, sc, w, q, t, r.query_end as nat, r.target_end as nat, Track::Best);
}

proof fn lemma_dp_swap(mode: AlignmentMode, sc: ScoringScheme, w: nat, q: Seq<u8>, t: Seq<u8>, i: nat, j: nat)
    requires
        i <= q.len(),
        j <= t.len(),
    ensures
        dp(mode, sc, w, q, t, i, j, Track::Best) == dp(mode, sc, w, t, q, j, i, Track::Best),
        dp(mode, sc, w, q, t, i, j, Track::Pair) == dp(mode, sc, w, t, q, j, i, Track::Pair),
        dp(mode, sc, w, q, t, i, j, Track::Insertion) == dp(mode, sc, w, t, q, j, i, Track::Deletion),
        dp(mode, sc, w, q, t, i, j, Track::Deletion) == dp(mode, sc, w, t, q, j, i, Track::Insertion),
    decreases i + j,
{
    if i >= 1 {
        lemma_dp_swap(mode, sc, w, q, t, (i - 1) as nat, j);
    }
    if j >= 1 {
        lemma_dp_swap(mode, sc, w, q, t, i, (j - 1) as nat);
    }
    if i >= 1 && j >= 1 {
        lemma_dp_swap(mode, sc, w, q, t, (i - 1) as nat, (j - 1) as nat);
        sc.lemma_pair_score_symmetric(q[i - 1], t[j - 1]);
    }
    assert(dp(mode, sc, w, q, t, i, j, Track::Pair) == dp(mode, sc, w, t, q, j, i, Track::Pair));
    assert(dp(mode, sc, w, q, t, i, j, Track::Insertion) == dp(mode, sc, w, t, q, j, i, Track::Deletion));
    assert(dp(mode, sc, w, q, t, i, j, Track::Deletion) == dp(mode, sc, w, t, q, j, i, Track::Insertion));
    assert(start_score(mode, i, j) == start_score(mode, j, i));
}

/// The global alignment score does not depend on which sequence is the query: aligning
/// `q` with `t` scores the same as aligning `t` with `q` (every scheme here is symmetric).
pub proof fn lemma_global_score_symmetric(
    sc: ScoringScheme,
    q: Seq<u8>,
    t: Seq<u8>,
    forward: AlignmentResult,
    backward: AlignmentResult,
)
    requires
        forward.is_alignment_of(AlignmentMode::Global, sc, q, t),
        backward.is_alignment_of(AlignmentMode::Global, sc, t, q),
    ensures
        forward.score == backward.score,
{
    lemma_dp_swap(AlignmentMode::Global, sc, q.len() + t.len(), q, t, q.len(), t.len());
    assert(t.len() + q.len() == q.len() + t.len());
}

/// A local alignment, full or banded, never scores below zero, and scores at least as well
/// as the best alignment ending at any cell of the matrix, that is, of any pair of
/// substrings.
pub proof fn lemma_local_score_is_maximal(
    sc: ScoringScheme,
    w: nat,
    q: Seq<u8>,
    t: Seq<u8>,
    r: AlignmentResult,
)
    requires
        r.is_banded_alignment_of(AlignmentMode::Local, sc, w, q, t),
    ensures
        r.score >= 0,
        forall|i: nat, j: nat|
            i <= q.len() && j <= t.len() ==> r.score >= #[trigger] dp(
                AlignmentMode::Local,
                sc,
                w,
                q,
                t,
                i,
                j,
                Track::Best,
            ),
{
    assert forall|i: nat, j: nat| i <= q.len() && j <= t.len() implies r.score >= #[trigger] dp(
        AlignmentMode::Local,
        sc,
        w,
        q,
        t,
        i,
        j,
        Track::Best,
    ) by {
        assert(is_end_candidate(AlignmentMode::Local, q.len(), t.len(), i, j));
    }
    assert(is_end_candidate(AlignmentMode::Local, q.len(), t.len(), 0, 0));
    assert(in_band(w, 0, 0));
    assert(dp(AlignmentMode::Local, sc, w, q, t, 0, 0, Track::Best) >= 0);
}

proof fn lemma_global_trace_origin(
    sc: ScoringScheme,
    w: nat,
    q: Seq<u8>,
    t: Seq<u8>,
    i: nat,
    j: nat,
    k: Track,
)
    requires
        sc.is_valid(),
        i <= q.len(),
        j <= t.len(),
        q.len() + t.len() <= MAX_ALIGN_LEN,
        q.len() + t.len() <= w,
        k != Track::Pair,
        k == Track::Insertion ==> i >= 1,
        k == Track::Deletion ==> j >= 1,
    ensures
        trace(AlignmentMode::Global, sc, w, q, t, i, j, k).2 == 0,
        trace(AlignmentMode::Global, sc, w, q, t, i, j, k).3 == 0,
    decreases i + j, track_rank(k),
{
    let mode = AlignmentMode::Global;
    lemma_dp_bounds(mode, sc, w, q, t, i, j);
    lemma_pair_score_bounded(sc, 0, 0);
    assert((i + j) * STEP_BOUND <= MAX_ALIGN_LEN * STEP_BOUND) by (nonlinear_arith)
        requires
            i + j <= MAX_ALIGN_LEN,
    ;
    let best = dp(mode, sc, w, q, t, i, j, Track::Best);
    assert(best == max_int(
        max_int(start_score(mode, i, j), dp(mode, sc, w, q, t, i, j, Track::Pair)),
        max_int(dp(mode, sc, w, q, t, i, j, Track::Insertion), dp(mode, sc, w, q, t, i, j, Track::Deletion)),
    ));
    match k {
        Track::Best => {
            if i == 0 && j == 0 {
            } else if i >= 1 && j >= 1 && dp(mode, sc, w, q, t, i, j, Track::Pair) == best {
                lemma_global_trace_origin(sc, w, q, t, (i - 1) as nat, (j - 1) as nat, Track::Best);
            } else if i >= 1 && dp(mode, sc, w, q, t, i, j, Track::Insertion) == best {
                lemma_global_trace_origin(sc, w, q, t, i, j, Track::Insertion);
            } else {
                lemma_global_trace_origin(sc, w, q, t, i, j, Track::Deletion);
            }
        },
        Track::Insertion => {
            lemma_dp_bounds(mode, sc, w, q, t, (i - 1) as nat, j);
            let opened = dp(mode, sc, w, q, t, i, j, Track::Insertion) == dp(
                mode,
                sc,
                w,
                q,
                t,
                (i - 1) as nat,
                j,
                Track::Best,
            ) + sc.open_cost() + sc.extend_cost();
            if opened {
                lemma_global_trace_origin(sc, w, q, t, (i - 1) as nat, j, Track::Best);
            } else {
                lemma_global_trace_origin(sc, w, q, t, (i - 1) as nat, j, Track::Insertion);
            }
        },
        Track::Deletion => {
            lemma_dp_bounds(mode, sc, w, q, t, i, (j - 1) as nat);
            let opened = dp(mode, sc, w, q, t, i, j, Track::Deletion) == dp(
                mode,
                sc,
                w,
                q,
                t,
                i,
                (j - 1) as nat,
                Track::Best,
            ) + sc.open_cost() + sc.extend_cost();
            if opened {
                lemma_global_trace_origin(sc, w, q, t, i, (j - 1) as nat, Track::Best);
            } else {
                lemma_global_trace_origin(sc, w, q, t, i, (j - 1) as nat, Track::Deletion);
            }
        },
        Track::Pair => {},
    }
}

/// A global alignment spans both sequences end to end.
pub proof fn lemma_global_spans_inputs(
    sc: ScoringScheme,
    q: Seq<u8>,
    t: Seq<u8>,
    r: AlignmentResult,
)
    requires
        sc.is_valid(),
        q.len() + t.len() <= MAX_ALIGN_LEN,
        r.is_alignment_of(AlignmentMode::Global, sc, q, t),
    ensures
        r.query_start == 0,
        r.target_start == 0,
        r.query_end == q.len(),
        r.target_end == t.len(),
{
    lemma_global_trace_origin(sc, q.len() + t.len(), q, t, q.len(), t.len(), Track::Best);
}

/// Reads an alignment mode name: `local`, `global` or `semiglobal`.
pub fn parse_alignment_mode(mode: &str) -> (r: Result<AlignmentMode, AlignError>)
    ensures
        mode@ == "local"@ ==> r == Ok::<AlignmentMode, AlignError>(AlignmentMode::Local),
        mode@ == "global"@ ==> r == Ok::<AlignmentMode, AlignError>(AlignmentMode::Global),
        mode@ == "semiglobal"@ ==> r == Ok::<AlignmentMode, AlignError>(AlignmentMode::SemiGlobal),
        !(mode@ == "local"@ || mode@ == "global"@ || mode@ == "semiglobal"@) ==> r == Err::<
            AlignmentMode,
            AlignError,
        >(AlignError::InvalidMode),
{
    proof {
        reveal_strlit("local");
        reveal_strlit("global");
        reveal_strlit("semiglobal");
        assert("local"@.len() != "global"@.len());
        assert("local"@.len() != "semiglobal"@.len());
        assert("global"@.len() != "semiglobal"@.len());
    }
    if text_eq(mode, "local") {
        Ok(AlignmentMode::Local)
    } else if text_eq(mode, "global") {
        Ok(AlignmentMode::Global)
    } else if text_eq(mode, "semiglobal") {
        Ok(AlignmentMode::SemiGlobal)
    } else {
        Err(AlignError::InvalidMode)
    }
}

/// The error `align` gives for one pair, if any.
pub open spec fn pair_error(q: Seq<u8>, t: Seq<u8>, sc: ScoringScheme) -> Option<AlignError> {
    if q.len() == 0 || t.len() == 0 {
        Some(AlignError::EmptyInput)
    } else if q.len() + t.len() > MAX_ALIGN_LEN {
        Some(AlignError::TooLong)
    } else if !sc.is_valid() {
        Some(AlignError::InvalidScoring)
    } else {
        None
    }
}

/// Aligns every pair under one mode and scheme. The first pair that fails stops the batch,
/// and its error is returned.
pub fn align_batch(pairs: &[(Vec<u8>, Vec<u8>)], mode: AlignmentMode, scoring: &ScoringScheme) -> (r:
    Result<Vec<AlignmentResult>, AlignError>)
    ensures
        r is Ok <==> forall|x: int|
            0 <= x < pairs@.len() ==> pair_error((#[trigger] pairs@[x]).0@, pairs@[x].1@, *scoring)
                is None,
        r is Ok ==> r->Ok_0@.len() == pairs@.len() && forall|x: int|
            0 <= x < pairs@.len() ==> (#[trigger] r->Ok_0@[x]).is_alignment_of(
                mode,
                *scoring,
                pairs@[x].0@,
                pairs@[x].1@,
            ),
        r is Err ==> exists|x: int|
            0 <= x < pairs@.len() && pair_error((#[trigger] pairs@[x]).0@, pairs@[x].1@, *scoring)
                == Some(r->Err_0) && forall|y: int|
                0 <= y < x ==> pair_error((#[trigger] pairs@[y]).0@, pairs@[y].1@, *scoring) is None,
{
    let mut out: Vec<AlignmentResult> = Vec::new();
    let mut x: usize = 0;
    while x < pairs.len()
        invariant
            x <= pairs@.len(),
            out@.len() == x,
            forall|y: int|
                0 <= y < x ==> pair_error((#[trigger] pairs@[y]).0@, pairs@[y].1@, *scoring)
                    is None,
            forall|y: int|
                0 <= y < x ==> (#[trigger] out@[y]).is_alignment_of(
                    mode,
                    *scoring,
                    pairs@[y].0@,
                    pairs@[y].1@,
                ),
        decreases pairs@.len() - x,
    {
        let pair = &pairs[x];
        match align(pair.0.as_slice(), pair.1.as_slice(), mode, scoring) {
            Ok(res) => {
                out.push(res);
            },
            Err(e) => {
                assert(pair_error(pairs@[x as int].0@, pairs@[x as int].1@, *scoring) == Some(e));
                return Err(e);
            },
        }
        x = x + 1;
    }
    Ok(out)
}

} // verus!
