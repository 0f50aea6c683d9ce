use vstd::prelude::*;

use crate::error::AlignError;
use crate::pairwise::{
    align, degap, gap_free, lemma_alignment_reproduces_input, lemma_global_spans_inputs,
    lemma_trace_shape, trace, AlignmentMode, Track, GAP,
};
use crate::scoring::{ScoringScheme, MAX_ALIGN_LEN};

verus! {

/// A multiple alignment: one row per input sequence, all of the same length.
#[derive(Clone, Debug)]
pub struct MsaResult {
    pub aligned: Vec<Vec<u8>>,
    pub n_columns: usize,
}

impl MsaResult {
    /// Number of rows.
    pub fn n_sequences(&self) -> (r: usize)
        ensures
            r == self.aligned@.len(),
    {
        self.aligned.len()
    }
}

/// One step of merging a pairwise alignment into a profile: whether the step copies the
/// next profile column (`true`) or inserts a gap column into every profile row (`false`),
/// and the byte the new row gets.
pub type MergeStep = (bool, u8);

/// Number of steps that copy a profile column.
pub open spec fn takes(s: Seq<MergeStep>) -> nat
    decreases s.len(),
{
    if s.len() == 0 {
        0
    } else {
        takes(s.drop_last()) + if s.last().0 { 1nat } else { 0nat }
    }
}

/// The bytes the new row gets.
pub open spec fn new_row(s: Seq<MergeStep>) -> Seq<u8> {
    Seq::new(s.len(), |x: int| s[x].1)
}

/// Why a progressive alignment fails, if it does: no sequences or an empty one, then an
/// invalid scheme, then a further sequence that with the first holds too many residues.
pub open spec fn msa_error(seqs: Seq<Vec<u8>>, sc: ScoringScheme) -> Option<AlignError> {
    if seqs.len() == 0 || exists|x: int| 0 <= x < seqs.len() && (#[trigger] seqs[x])@.len() == 0 {
        Some(AlignError::EmptyInput)
    } else if !sc.is_valid() {
        Some(AlignError::InvalidScoring)
    } else if exists|x: int|
        1 <= x < seqs.len() && seqs[0]@.len() + (#[trigger] seqs[x])@.len() > MAX_ALIGN_LEN {
        Some(AlignError::TooLong)
    } else {
        None
    }
}

proof fn lemma_takes_prefix(s: Seq<MergeStep>, x: int)
    requires
        0 <= x <= s.len(),
    ensures
        takes(s.subrange(0, x)) <= takes(s),
    decreases s.len() - x,
{
    if x < s.len() {
        lemma_takes_prefix(s, x + 1);
        assert(s.subrange(0, x + 1).drop_last() =~= s.subrange(0, x));
    } else {
        assert(s.subrange(0, x) =~= s);
    }
}

proof fn lemma_degap_push(s: Seq<u8>, b: u8)
    ensures
        degap(s.push(b)) == if b == GAP {
            degap(s)
        } else {
            degap(s).push(b)
        },
{
    assert(s.push(b).drop_last() =~= s);
}

/// The steps `merge_plan` takes from profile column `pc` and pairwise column `ac` on,
/// appended to `acc`.
pub open spec fn plan_from(
    first: Seq<u8>,
    aq: Seq<u8>,
    at: Seq<u8>,
    pc: nat,
    ac: nat,
    acc: Seq<MergeStep>,
) -> Seq<MergeStep>
    decreases (first.len() - pc) + (aq.len() - ac),
{
    let l = first.len();
    let a = aq.len();
    if pc >= l && ac >= a || pc > l || ac > a {
        acc
    } else if pc < l && first[pc as int] == GAP {
        plan_from(first, aq, at, pc + 1, ac, acc.push((true, GAP)))
    } else if ac < a && aq[ac as int] == GAP {
        plan_from(first, aq, at, pc, ac + 1, acc.push((false, at[ac as int])))
    } else if pc < l && ac < a {
        plan_from(first, aq, at, pc + 1, ac + 1, acc.push((true, at[ac as int])))
    } else if pc < l {
        plan_from(first, aq, at, pc + 1, ac, acc.push((true, GAP)))
    } else {
        plan_from(first, aq, at, pc, ac + 1, acc.push((false, at[ac as int])))
    }
}

/// The merge plan of the pairwise alignment `(aq, at)` into a profile whose first row is
/// `first`.
pub open spec fn plan_of(first: Seq<u8>, aq: Seq<u8>, at: Seq<u8>) -> Seq<MergeStep> {
    plan_from(first, aq, at, 0, 0, Seq::empty())
}

/// `row` widened by the steps `plan[x..]`, from row position `pc` on, appended to `acc`: a
/// copying step takes the row's next byte, an inserting step a gap.
pub open spec fn widen_from(row: Seq<u8>, plan: Seq<MergeStep>, x: nat, pc: nat, acc: Seq<u8>) -> Seq<u8>
    decreases plan.len() - x,
{
    if x >= plan.len() {
        acc
    } else if plan[x as int].0 {
        widen_from(row, plan, x + 1, pc + 1, acc.push(row[pc as int]))
    } else {
        widen_from(row, plan, x + 1, pc, acc.push(GAP))
    }
}

/// `row` with the gap columns of `plan` inserted.
pub open spec fn widen_of(row: Seq<u8>, plan: Seq<MergeStep>) -> Seq<u8> {
    widen_from(row, plan, 0, 0, Seq::empty())
}

/// The rows of the progressive alignment of `seqs[0..k]`: the first sequence alone, then for
/// each further sequence its global alignment to the first sequence is merged in (every row
/// widened by the merge plan, and the new row added).
pub open spec fn msa_rows(seqs: Seq<Vec<u8>>, sc: ScoringScheme, k: nat) -> Seq<Seq<u8>>
    decreases k,
{
    if k <= 1 {
        seq![seqs[0]@]
    } else {
        let rows = msa_rows(seqs, sc, (k - 1) as nat);
        let s0 = seqs[0]@;
        let si = seqs[k - 1]@;
        let tr = trace(
            AlignmentMode::Global,
            sc,
            s0.len() + si.len(),
            s0,
            si,
            s0.len(),
            si.len(),
            Track::Best,
        );
        let plan = plan_of(rows[0], tr.0, tr.1);
        Seq::new(rows.len(), |y: int| widen_of(rows[y], plan)).push(new_row(plan))
    }
}

/// Plans the merge of a pairwise alignment `(aq, at)` of the profile's first row (without
/// gaps) and a new sequence into a profile whose first row is `first`: profile columns where
/// `first` has a gap are copied with a gap in the new row; pairwise columns with a gap in
/// `aq` insert a gap column into the profile; other columns pair the next profile column
/// with the next pairwise column.
fn merge_plan(first: &Vec<u8>, aq: &Vec<u8>, at: &Vec<u8>) -> (r: Vec<MergeStep>)
    requires
        aq@.len() == at@.len(),
    ensures
        takes(r@) == first@.len(),
        degap(new_row(r@)) == degap(at@),
        r@ == plan_of(first@, aq@, at@),
{
    let l = first.len();
    let a = aq.len();
    let mut plan: Vec<MergeStep> = Vec::new();
    let mut pc: usize = 0;
    let mut ac: usize = 0;
    while pc < l || ac < a
        invariant
            l == first@.len(),
            a == aq@.len(),
            a == at@.len(),
            pc <= l,
            ac <= a,
            takes(plan@) == pc,
            degap(new_row(plan@)) == degap(at@.subrange(0, ac as int)),
            plan_from(first@, aq@, at@, pc as nat, ac as nat, plan@) == plan_of(first@, aq@, at@),
        decreases l - pc + a - ac,
    {
        let ghost before = plan@;
        let ghost prefix = at@.subrange(0, ac as int);
        let (step, advance): (MergeStep, bool) = if pc < l && first[pc] == GAP {
            ((true, GAP), false)
        } else if ac < a && aq[ac] == GAP {
            ((false, at[ac]), true)
        } else if pc < l && ac < a {
            ((true, at[ac]), true)
        } else if pc < l {
            ((true, GAP), false)
        } else {
            ((false, at[ac]), true)
        };
        plan.push(step);
        proof {
            assert(plan@.drop_last() =~= before);
            assert(new_row(plan@) =~= new_row(before).push(step.1));
            lemma_degap_push(new_row(before), step.1);
            if advance {
                assert(at@.subrange(0, ac + 1) =~= prefix.push(at@[ac as int]));
                lemma_degap_push(prefix, at@[ac as int]);
            }
        }
        if step.0 {
            pc = pc + 1;
        }
        if advance {
            ac = ac + 1;
        }
    }
    assert(at@.subrange(0, a as int) =~= at@);
    plan
}

/// A profile row with the gap columns of a merge plan inserted.
fn widen_row(row: &Vec<u8>, plan: &Vec<MergeStep>) -> (r: Vec<u8>)
    requires
        takes(plan@) == row@.len(),
    ensures
        r@.len() == plan@.len(),
        degap(r@) == degap(row@),
        r@ == widen_of(row@, plan@),
{
    let mut out: Vec<u8> = Vec::new();
    let mut pc: usize = 0;
    let mut x: usize = 0;
    let rl = row.len();
    while x < plan.len()
        invariant
            x <= plan@.len(),
            rl == row@.len(),
            takes(plan@) == row@.len(),
            pc == takes(plan@.subrange(0, x as int)),
            pc <= row@.len(),
            out@.len() == x,
            degap(out@) == degap(row@.subrange(0, pc as int)),
            widen_from(row@, plan@, x as nat, pc as nat, out@) == widen_of(row@, plan@),
        decreases plan@.len() - x,
    {
        let step = plan[x];
        let ghost prefix = row@.subrange(0, pc as int);
        proof {
            assert(plan@.subrange(0, x + 1).drop_last() =~= plan@.subrange(0, x as int));
            assert(plan@.subrange(0, x + 1).last() == step);
            lemma_takes_prefix(plan@, x + 1);
        }
        if step.0 {
            let b = row[pc];
            proof {
                lemma_degap_push(out@, b);
                lemma_degap_push(prefix, b);
                assert(row@.subrange(0, pc + 1) =~= prefix.push(b));
            }
            out.push(b);
            pc = pc + 1;
        } else {
            proof {
                lemma_degap_push(out@, GAP);
            }
            out.push(GAP);
        }
        x = x + 1;
    }
    assert(row@.subrange(0, row@.len() as int) =~= row@);
    assert(plan@.subrange(0, plan@.len() as int) =~= plan@);
    out
}

fn plan_row(plan: &Vec<MergeStep>) -> (r: Vec<u8>)
    ensures
        r@ == new_row(plan@),
{
    let mut out: Vec<u8> = Vec::new();
    let mut x: usize = 0;
    while x < plan.len()
        invariant
            x <= plan@.len(),
            out@ =~= new_row(plan@).subrange(0, x as int),
        decreases plan@.len() - x,
    {
        out.push(plan[x].1);
        x = x + 1;
    }
    out
}

/// Builds a multiple alignment progressively: the first sequence seeds the profile, and
/// each further sequence is aligned globally to the first one, after which the gaps of that
/// pairwise alignment are inserted as new columns into every row (see `merge_plan`). The
/// result depends on the order of the sequences.
pub fn progressive_msa(sequences: &[Vec<u8>], scoring: &ScoringScheme) -> (r: Result<
    MsaResult,
    AlignError,
>)
    ensures
        match msa_error(sequences@, *scoring) {
            Some(e) => r == Err::<MsaResult, AlignError>(e),
            None => r is Ok,
        },
        r is Ok ==> {
            let m = r->Ok_0;
            &&& m.aligned@.len() == sequences@.len()
            &&& forall|x: int| 0 <= x < m.aligned@.len() ==> (#[trigger] m.aligned@[x])@.len() == m.n_columns
            &&& (forall|x: int| 0 <= x < sequences@.len() ==> gap_free((#[trigger] sequences@[x])@))
                ==> forall|x: int|
                0 <= x < m.aligned@.len() ==> degap((#[trigger] m.aligned@[x])@) == sequences@[x]@
            &&& forall|x: int|
                0 <= x < m.aligned@.len() ==> (#[trigger] m.aligned@[x])@ == msa_rows(
                    sequences@,
                    *scoring,
                    sequences@.len(),
                )[x]
        },
{
    let n = sequences.len();
    if n == 0 {
        return Err(AlignError::EmptyInput);
    }
    let mut x: usize = 0;
    while x < n
        invariant
            n == sequences@.len(),
            x <= n,
            forall|y: int| 0 <= y < x ==> (#[trigger] sequences@[y])@.len() > 0,
        decreases n - x,
    {
        if sequences[x].len() == 0 {
            return Err(AlignError::EmptyInput);
        }
        x = x + 1;
    }
    if !scoring.check() {
        return Err(AlignError::InvalidScoring);
    }
    let ghost gf = forall|y: int| 0 <= y < n ==> gap_free((#[trigger] sequences@[y])@);
    let first = &sequences[0];
    let mut rows: Vec<Vec<u8>> = Vec::new();
    rows.push(first.clone());
    let mut cols: usize = first.len();
    proof {
        if gf {
            assert(gap_free(sequences@[0]@));
            lemma_degap_gap_free(sequences@[0]@);
        }
    }
    let mut i: usize = 1;
    assert(rows@[0]@ == msa_rows(sequences@, *scoring, 1)[0]);
    while i < n
        invariant
            n == sequences@.len(),
            1 <= i <= n,
            first@ == sequences@[0]@,
            scoring.is_valid(),
            forall|y: int| 0 <= y < n ==> (#[trigger] sequences@[y])@.len() > 0,
            forall|y: int|
                1 <= y < i ==> sequences@[0]@.len() + (#[trigger] sequences@[y])@.len()
                    <= MAX_ALIGN_LEN,
            gf == forall|y: int| 0 <= y < n ==> gap_free((#[trigger] sequences@[y])@),
            rows@.len() == i,
            forall|y: int| 0 <= y < i ==> (#[trigger] rows@[y])@.len() == cols,
            gf ==> forall|y: int| 0 <= y < i ==> degap((#[trigger] rows@[y])@) == sequences@[y]@,
            msa_rows(sequences@, *scoring, i as nat).len() == i,
            forall|y: int| 0 <= y < i ==> (#[trigger] rows@[y])@ == msa_rows(sequences@, *scoring, i as nat)[y],
        decreases n - i,
    {
        let next = &sequences[i];
        assert(sequences@[i as int]@.len() > 0);
        let res = match align(first.as_slice(), next.as_slice(), AlignmentMode::Global, scoring) {
            Ok(res) => res,
            Err(e) => {
                assert(sequences@[0]@.len() + sequences@[i as int]@.len() > MAX_ALIGN_LEN);
                return Err(e);
            },
        };
        proof {
            lemma_global_spans_inputs(*scoring, first@, next@, res);
            lemma_trace_shape(
                AlignmentMode::Global,
                *scoring,
                (first@.len() + next@.len()) as nat,
                first@,
                next@,
                res.query_end as nat,
                res.target_end as nat,
                Track::Best,
            );
            if gf {
                assert(gap_free(sequences@[0]@));
                assert(gap_free(sequences@[i as int]@));
                lemma_alignment_reproduces_input(
                    res,
                    AlignmentMode::Global,
                    *scoring,
                    (first@.len() + next@.len()) as nat,
                    first@,
                    next@,
                );
                assert(gap_free(sequences@[i as int]@));
                assert(next@.subrange(0, next@.len() as int) =~= next@);
            }
        }
        let plan = merge_plan(&rows[0], &res.aligned_query, &res.aligned_target);
        let mut widened: Vec<Vec<u8>> = Vec::new();
        let mut k: usize = 0;
        while k < i
            invariant
                k <= i,
                i == rows@.len(),
                forall|y: int| 0 <= y < i ==> (#[trigger] rows@[y])@.len() == cols,
                takes(plan@) == cols,
                widened@.len() == k,
                forall|y: int| 0 <= y < k ==> (#[trigger] widened@[y])@.len() == plan@.len(),
                forall|y: int| 0 <= y < k ==> degap((#[trigger] widened@[y])@) == degap(rows@[y]@),
                forall|y: int| 0 <= y < k ==> (#[trigger] widened@[y])@ == widen_of(rows@[y]@, plan@),
            decreases i - k,
        {
            let w = widen_row(&rows[k], &plan);
            widened.push(w);
            k = k + 1;
        }
        let added = plan_row(&plan);
        widened.push(added);
        proof {
            if gf {
                assert forall|y: int| 0 <= y < i + 1 implies degap((#[trigger] widened@[y])@)
                    == sequences@[y]@ by {
                    if y < i {
                        assert(degap(widened@[y]@) == degap(rows@[y]@));
                    }
                }
            }
        }
        proof {
            let prev_rows = msa_rows(sequences@, *scoring, i as nat);
            assert(prev_rows[0] == rows@[0]@);
            assert(res.aligned_query@ == trace(
                AlignmentMode::Global,
                *scoring,
                first@.len() + next@.len(),
                first@,
                next@,
                first@.len(),
                next@.len(),
                Track::Best,
            ).0);
            assert(sequences@[(i + 1) - 1] == sequences@[i as int]);
            let want = msa_rows(sequences@, *scoring, (i + 1) as nat);
            assert forall|y: int| 0 <= y < i + 1 implies (#[trigger] widened@[y])@ == want[y] by {
                if y < i {
                    assert(widened@[y]@ == widen_of(rows@[y]@, plan@));
                }
            }
        }
        rows = widened;
        cols = plan.len();
        i = i + 1;
    }
    Ok(MsaResult { aligned: rows, n_columns: cols })
}

proof fn lemma_degap_gap_free(s: Seq<u8>)
    requires
        gap_free(s),
    ensures
        degap(s) == s,
    decreases s.len(),
{
    if s.len() > 0 {
        assert(gap_free(s.drop_last()));
        lemma_degap_gap_free(s.drop_last());
        assert(s.drop_last().push(s.last()) =~= s);
    }
}

/// Number of the first `k` rows that hold byte `b` in column `c`.
pub open spec fn column_count(rows: Seq<Vec<u8>>, k: int, c: int, b: u8) -> nat
    decreases k,
{
    if k <= 0 {
        0
    } else {
        column_count(rows, k - 1, c, b) + if rows[k - 1]@[c] == b { 1nat } else { 0nat }
    }
}

proof fn lemma_column_count_bound(rows: Seq<Vec<u8>>, k: int, c: int, b: u8)
    ensures
        column_count(rows, k, c, b) <= if k > 0 { k } else { 0 },
    decreases k,
{
    if k > 0 {
        lemma_column_count_bound(rows, k - 1, c, b);
    }
}

impl MsaResult {
    /// For each column, how many rows hold its most frequent residue (gaps not counted;
    /// zero for a column of gaps only). Conservation is the mean of these counts over the
    /// columns, each divided by the number of rows.
    pub fn majority_counts(&self) -> (r: Vec<usize>)
        requires
            forall|x: int|
                0 <= x < self.aligned@.len() ==> (#[trigger] self.aligned@[x])@.len()
                    == self.n_columns,
        ensures
            r@.len() == self.n_columns,
            forall|c: int, i: int|
                #![trigger r@[c], self.aligned@[i]@[c]]
                0 <= c < self.n_columns && 0 <= i < self.aligned@.len() && self.aligned@[i]@[c]
                    != GAP ==> column_count(self.aligned@, self.aligned@.len() as int, c, self.aligned@[i]@[c])
                    <= r@[c],
            forall|c: int|
                0 <= c < self.n_columns ==> #[trigger] r@[c] == 0 || exists|i: int|
                    0 <= i < self.aligned@.len() && self.aligned@[i]@[c] != GAP && column_count(
                        self.aligned@,
                        self.aligned@.len() as int,
                        c,
                        self.aligned@[i]@[c],
                    ) == r@[c],
    {
        let rows = &self.aligned;
        let n = rows.len();
        let mut out: Vec<usize> = Vec::new();
        let mut c: usize = 0;
        while c < self.n_columns
            invariant
                rows == &self.aligned,
                n == rows@.len(),
                c <= self.n_columns,
                forall|x: int| 0 <= x < n ==> (#[trigger] rows@[x])@.len() == self.n_columns,
                out@.len() == c,
                forall|cc: int, i: int|
                    #![trigger out@[cc], rows@[i]@[cc]]
                    0 <= cc < c && 0 <= i < n && rows@[i]@[cc] != GAP ==> column_count(
                        rows@,
                        n as int,
                        cc,
                        rows@[i]@[cc],
                    ) <= out@[cc],
                forall|cc: int|
                    0 <= cc < c ==> #[trigger] out@[cc] == 0 || exists|i: int|
                        0 <= i < n && rows@[i]@[cc] != GAP && column_count(
                            rows@,
                            n as int,
                            cc,
                            rows@[i]@[cc],
                        ) == out@[cc],
            decreases self.n_columns - c,
        {
            let mut best: usize = 0;
            let mut i: usize = 0;
            while i < n
                invariant
                    rows == &self.aligned,
                    n == rows@.len(),
                    c < self.n_columns,
                    forall|x: int| 0 <= x < n ==> (#[trigger] rows@[x])@.len() == self.n_columns,
                    i <= n,
                    forall|y: int|
                        0 <= y < i && rows@[y]@[c as int] != GAP ==> column_count(
                            rows@,
                            n as int,
                            c as int,
                            #[trigger] rows@[y]@[c as int],
                        ) <= best,
                    best == 0 || exists|y: int|
                        0 <= y < n && rows@[y]@[c as int] != GAP && column_count(
                            rows@,
                            n as int,
                            c as int,
                            rows@[y]@[c as int],
                        ) == best,
                decreases n - i,
            {
                let b = rows[i][c];
                if b != GAP {
                    let mut count: usize = 0;
                    let mut k: usize = 0;
                    while k < n
                        invariant
                            rows == &self.aligned,
                            n == rows@.len(),
                            c < self.n_columns,
                            forall|x: int| 0 <= x < n ==> (#[trigger] rows@[x])@.len() == self.n_columns,
                            k <= n,
                            count == column_count(rows@, k as int, c as int, b),
                        decreases n - k,
                    {
                        proof {
                            lemma_column_count_bound(rows@, k as int, c as int, b);
                        }
                        if rows[k][c] == b {
                            count = count + 1;
                        }
                        k = k + 1;
                    }
                    if count > best {
                        best = count;
                    }
                }
                i = i + 1;
            }
            out.push(best);
            proof {
                assert forall|cc: int, y: int|
                    #![trigger out@[cc], rows@[y]@[cc]]
                    0 <= cc < c + 1 && 0 <= y < n && rows@[y]@[cc] != GAP implies column_count(
                        rows@,
                        n as int,
                        cc,
                        rows@[y]@[cc],
                    ) <= out@[cc] by {
                    if cc == c {
                        assert(column_count(rows@, n as int, c as int, rows@[y]@[c as int]) <= best);
                    }
                }
            }
            c = c + 1;
        }
        out
    }
}

} // verus!
