use vstd::prelude::*;

use crate::error::AlignError;
use crate::pairwise::{
    degap, gap_free, lemma_alignment_reproduces_input, no_empty_column, AlignmentMode, AlignmentResult,
    GAP,
};
use crate::scoring::ScoringScheme;
use crate::text::push_char;

verus! {

/// The operation codes of a CIGAR string.
#[derive(Clone, Copy, Debug, PartialEq, Eq, Structural)]
pub enum CigarCode {
    /// `M`: aligned columns, match or mismatch.
    Match,
    /// `I`: residues present in the query only.
    Insertion,
    /// `D`: residues present in the reference only.
    Deletion,
    /// `N`: skipped reference region.
    Skip,
    /// `S`: query residues left unaligned at an end.
    SoftClip,
    /// `H`: query residues removed at an end.
    HardClip,
    /// `P`: padding.
    Padding,
    /// `=`: aligned columns of equal residues.
    SeqMatch,
    /// `X`: aligned columns of different residues.
    SeqMismatch,
}

/// One run of a CIGAR: an operation code repeated `len` times.
#[derive(Clone, Copy, Debug, PartialEq, Eq, Structural)]
pub struct CigarOp {
    pub code: CigarCode,
    pub len: usize,
}

pub open spec fn code_char(c: CigarCode) -> char {
    match c {
        CigarCode::Match => 'M',
        CigarCode::Insertion => 'I',
        CigarCode::Deletion => 'D',
        CigarCode::Skip => 'N',
        CigarCode::SoftClip => 'S',
        CigarCode::HardClip => 'H',
        CigarCode::Padding => 'P',
        CigarCode::SeqMatch => '=',
        CigarCode::SeqMismatch => 'X',
    }
}

pub open spec fn char_code(ch: char) -> Option<CigarCode> {
    if ch == 'M' {
        Some(CigarCode::Match)
    } else if ch == 'I' {
        Some(CigarCode::Insertion)
    } else if ch == 'D' {
        Some(CigarCode::Deletion)
    } else if ch == 'N' {
        Some(CigarCode::Skip)
    } else if ch == 'S' {
        Some(CigarCode::SoftClip)
    } else if ch == 'H' {
        Some(CigarCode::HardClip)
    } else if ch == 'P' {
        Some(CigarCode::Padding)
    } else if ch == '=' {
        Some(CigarCode::SeqMatch)
    } else if ch == 'X' {
        Some(CigarCode::SeqMismatch)
    } else {
        None
    }
}

impl CigarCode {
    /// The code's letter.
    pub fn to_char(self) -> (r: char)
        ensures
            r == code_char(self),
    {
        match self {
            CigarCode::Match => 'M',
            CigarCode::Insertion => 'I',
            CigarCode::Deletion => 'D',
            CigarCode::Skip => 'N',
            CigarCode::SoftClip => 'S',
            CigarCode::HardClip => 'H',
            CigarCode::Padding => 'P',
            CigarCode::SeqMatch => '=',
            CigarCode::SeqMismatch => 'X',
        }
    }

    /// Runs of `M`, `D`, `N`, `=` and `X` consume reference residues.
    pub open spec fn consumes_reference(self) -> bool {
        matches!(self, CigarCode::Match | CigarCode::Deletion | CigarCode::Skip | CigarCode::SeqMatch | CigarCode::SeqMismatch)
    }

    /// Runs of `M`, `I`, `S`, `=` and `X` consume query residues.
    pub open spec fn consumes_query(self) -> bool {
        matches!(self, CigarCode::Match | CigarCode::Insertion | CigarCode::SoftClip | CigarCode::SeqMatch | CigarCode::SeqMismatch)
    }

    pub open spec fn is_clip(self) -> bool {
        matches!(self, CigarCode::SoftClip | CigarCode::HardClip)
    }
}

impl CigarOp {
    /// The operation's letter.
    pub fn code(&self) -> (r: char)
        ensures
            r == code_char(self.code),
    {
        self.code.to_char()
    }

    /// The run length.
    pub fn len(&self) -> (r: usize)
        ensures
            r == self.len,
    {
        self.len
    }
}

pub open spec fn is_digit(ch: char) -> bool {
    '0' <= ch <= '9'
}

pub open spec fn digit_value(ch: char) -> nat {
    (ch as u32 - '0' as u32) as nat
}

pub open spec fn digit_char(d: nat) -> char {
    ((d + 48) as u8) as char
}

/// The number that a string of decimal digits writes.
pub open spec fn digits_value(s: Seq<char>) -> nat
    decreases s.len(),
{
    if s.len() == 0 {
        0
    } else {
        digits_value(s.drop_last()) * 10 + digit_value(s.last())
    }
}

/// How many characters at the front of `s` are decimal digits.
pub open spec fn leading_digits(s: Seq<char>) -> nat
    decreases s.len(),
{
    if s.len() == 0 || !is_digit(s[0]) {
        0
    } else {
        1 + leading_digits(s.drop_first())
    }
}

/// The decimal writing of `n`, without leading zeros.
pub open spec fn decimal(n: nat) -> Seq<char>
    decreases n,
{
    if n < 10 {
        seq![digit_char(n)]
    } else {
        decimal(n / 10).push(digit_char(n % 10))
    }
}

/// Sum of the run lengths.
pub open spec fn total_len(ops: Seq<CigarOp>) -> nat
    decreases ops.len(),
{
    if ops.len() == 0 {
        0
    } else {
        total_len(ops.drop_last()) + ops.last().len as nat
    }
}

/// Parses the run-length grammar: one or more decimal digits giving a length above zero
/// that fits a `usize`, then one code letter, repeated; the empty string is the empty list.
pub open spec fn parse_ops(s: Seq<char>) -> Option<Seq<CigarOp>>
    decreases s.len(),
{
    if s.len() == 0 {
        Some(Seq::empty())
    } else {
        let k = leading_digits(s);
        if k == 0 || k >= s.len() {
            None
        } else {
            match char_code(s[k as int]) {
                None => None,
                Some(c) => {
                    let v = digits_value(s.subrange(0, k as int));
                    if v == 0 || v > usize::MAX {
                        None
                    } else {
                        match parse_ops(s.subrange((k + 1) as int, s.len() as int)) {
                            None => None,
                            Some(rest) => Some(seq![CigarOp { code: c, len: v as usize }] + rest),
                        }
                    }
                },
            }
        }
    }
}

/// The operations a CIGAR string describes, where it follows the grammar and its run
/// lengths add up to no more than `usize::MAX`.
pub open spec fn cigar_of(s: Seq<char>) -> Option<Seq<CigarOp>> {
    match parse_ops(s) {
        Some(ops) => if total_len(ops) <= usize::MAX {
            Some(ops)
        } else {
            None
        },
        None => None,
    }
}

/// The text of one run: its length in decimal, then its letter.
pub open spec fn op_text(op: CigarOp) -> Seq<char> {
    decimal(op.len as nat).push(code_char(op.code))
}

/// The text of a list of runs.
pub open spec fn render(ops: Seq<CigarOp>) -> Seq<char>
    decreases ops.len(),
{
    if ops.len() == 0 {
        Seq::empty()
    } else {
        render(ops.drop_last()) + op_text(ops.last())
    }
}

/// Every run has a length above zero.
pub open spec fn lengths_positive(ops: Seq<CigarOp>) -> bool {
    forall|x: int| 0 <= x < ops.len() ==> #[trigger] ops[x].len > 0
}

fn code_of_byte(b: u8) -> (r: Option<CigarCode>)
    ensures
        r == char_code(b as char),
{
    if b == 77 {
        Some(CigarCode::Match)
    } else if b == 73 {
        Some(CigarCode::Insertion)
    } else if b == 68 {
        Some(CigarCode::Deletion)
    } else if b == 78 {
        Some(CigarCode::Skip)
    } else if b == 83 {
        Some(CigarCode::SoftClip)
    } else if b == 72 {
        Some(CigarCode::HardClip)
    } else if b == 80 {
        Some(CigarCode::Padding)
    } else if b == 61 {
        Some(CigarCode::SeqMatch)
    } else if b == 88 {
        Some(CigarCode::SeqMismatch)
    } else {
        None
    }
}

proof fn lemma_total_len_append(a: Seq<CigarOp>, b: Seq<CigarOp>)
    ensures
        total_len(a + b) == total_len(a) + total_len(b),
    decreases b.len(),
{
    if b.len() == 0 {
        assert(a + b =~= a);
    } else {
        lemma_total_len_append(a, b.drop_last());
        assert((a + b).drop_last() =~= a + b.drop_last());
    }
}

proof fn lemma_leading_digits(s: Seq<char>, k: int)
    requires
        0 <= k <= s.len(),
        forall|x: int| 0 <= x < k ==> is_digit(#[trigger] s[x]),
        k == s.len() || !is_digit(s[k]),
    ensures
        leading_digits(s) == k,
    decreases k,
{
    if k > 0 {
        lemma_leading_digits(s.drop_first(), k - 1);
    }
}

proof fn lemma_parse_non_ascii(s: Seq<char>)
    requires
        parse_ops(s) is Some,
    ensures
        vstd::utf8::is_ascii_chars(s),
    decreases s.len(),
{
    if s.len() > 0 {
        let k = leading_digits(s);
        lemma_leading_digits_are_digits(s);
        let rest = s.subrange((k + 1) as int, s.len() as int);
        lemma_parse_non_ascii(rest);
        assert forall|x: int| 0 <= x < s.len() implies '\0' <= #[trigger] s[x] <= '\u{7f}' by {
            if x < k {
                assert(is_digit(s[x]));
            } else if x > k {
                assert(s[x] == rest[x - k - 1]);
            }
        }
    }
}

proof fn lemma_leading_digits_are_digits(s: Seq<char>)
    ensures
        leading_digits(s) <= s.len(),
        forall|x: int| 0 <= x < leading_digits(s) ==> is_digit(#[trigger] s[x]),
    decreases s.len(),
{
    if s.len() > 0 && is_digit(s[0]) {
        lemma_leading_digits_are_digits(s.drop_first());
        assert forall|x: int| 0 <= x < leading_digits(s) implies is_digit(#[trigger] s[x]) by {
            if x > 0 {
                assert(s[x] == s.drop_first()[x - 1]);
            }
        }
    }
}

/// Parses a CIGAR string into its runs.
pub fn parse_cigar(cigar: &str) -> (r: Result<Vec<CigarOp>, AlignError>)
    ensures
        match cigar_of(cigar@) {
            Some(ops) => r is Ok && r->Ok_0@ == ops,
            None => r == Err::<Vec<CigarOp>, AlignError>(AlignError::MalformedCigar),
        },
{
    if !cigar.is_ascii() {
        proof {
            if parse_ops(cigar@) is Some {
                lemma_parse_non_ascii(cigar@);
            }
        }
        return Err(AlignError::MalformedCigar);
    }
    let n = cigar.unicode_len();
    let ghost s = cigar@;
    let mut ops: Vec<CigarOp> = Vec::new();
    let mut total: usize = 0;
    let mut tok: usize = 0;
    let mut num: usize = 0;
    let mut too_big = false;
    let mut i: usize = 0;
    proof {
        assert(s.subrange(0, n as int) =~= s);
        if let Some(rest) = parse_ops(s) {
            assert(ops@ + rest =~= rest);
        }
    }
    while i < n
        invariant
            cigar.is_ascii(),
            s == cigar@,
            n == s.len(),
            tok <= i <= n,
            total == total_len(ops@),
            parse_ops(s) == match parse_ops(s.subrange(tok as int, n as int)) {
                Some(rest) => Some(ops@ + rest),
                None => None::<Seq<CigarOp>>,
            },
            forall|x: int| tok <= x < i ==> is_digit(#[trigger] s[x]),
            !too_big ==> num == digits_value(s.subrange(tok as int, i as int)),
            too_big ==> digits_value(s.subrange(tok as int, i as int)) > usize::MAX,
        decreases n - i,
    {
        let b = cigar.get_ascii(i);
        let ghost tail = s.subrange(tok as int, n as int);
        if 48 <= b && b <= 57 {
            let d = (b - 48) as usize;
            assert(s.subrange(tok as int, i + 1).drop_last() =~= s.subrange(tok as int, i as int));
            if !too_big {
                if num > (usize::MAX - d) / 10 {
                    too_big = true;
                } else {
                    num = num * 10 + d;
                }
            }
            i = i + 1;
        } else {
            proof {
                lemma_leading_digits(tail, (i - tok) as int);
                assert(s.subrange(tok as int, i as int) =~= tail.subrange(0, (i - tok) as int));
            }
            if i == tok {
                return Err(AlignError::MalformedCigar);
            }
            let code = match code_of_byte(b) {
                Some(c) => c,
                None => {
                    return Err(AlignError::MalformedCigar);
                },
            };
            if too_big || num == 0 {
                return Err(AlignError::MalformedCigar);
            }
            assert(tail.subrange((i - tok) + 1, tail.len() as int) =~= s.subrange(i + 1, n as int));
            let op = CigarOp { code, len: num };
            if total > usize::MAX - num {
                proof {
                    if let Some(rest) = parse_ops(s.subrange(i + 1, n as int)) {
                        lemma_total_len_append(ops@.push(op), rest);
                        assert(ops@ + (seq![op] + rest) =~= ops@.push(op) + rest);
                        assert(ops@.push(op).drop_last() =~= ops@);
                    }
                }
                return Err(AlignError::MalformedCigar);
            }
            proof {
                if let Some(rest) = parse_ops(s.subrange(i + 1, n as int)) {
                    assert(ops@ + (seq![op] + rest) =~= ops@.push(op) + rest);
                }
                assert(ops@.push(op).drop_last() =~= ops@);
            }
            ops.push(op);
            total = total + num;
            i = i + 1;
            tok = i;
            num = 0;
            assert(s.subrange(tok as int, i as int) =~= Seq::<char>::empty());
        }
    }
    if tok < n {
        proof {
            lemma_leading_digits(s.subrange(tok as int, n as int), (n - tok) as int);
        }
        return Err(AlignError::MalformedCigar);
    }
    assert(s.subrange(tok as int, n as int) =~= Seq::<char>::empty());
    assert(ops@ + Seq::<CigarOp>::empty() =~= ops@);
    Ok(ops)
}

fn push_decimal(out: &mut String, n: usize)
    ensures
        final(out)@ == old(out)@ + decimal(n as nat),
    decreases n,
{
    if n >= 10 {
        push_decimal(out, n / 10);
    }
    let d: u8 = (n % 10) as u8;
    push_char(out, (d + 48) as char);
}

/// Writes runs back as CIGAR text.
pub fn cigar_string(ops: &[CigarOp]) -> (r: String)
    ensures
        r@ == render(ops@),
{
    let mut out = String::new();
    let mut x: usize = 0;
    while x < ops.len()
        invariant
            x <= ops@.len(),
            out@ == render(ops@.subrange(0, x as int)),
        decreases ops@.len() - x,
    {
        let op = ops[x];
        push_decimal(&mut out, op.len);
        push_char(&mut out, op.code.to_char());
        assert(ops@.subrange(0, x + 1).drop_last() =~= ops@.subrange(0, x as int));
        x = x + 1;
    }
    assert(ops@.subrange(0, ops@.len() as int) =~= ops@);
    out
}

proof fn lemma_decimal(n: nat)
    ensures
        decimal(n).len() >= 1,
        forall|x: int| 0 <= x < decimal(n).len() ==> is_digit(#[trigger] decimal(n)[x]),
        digits_value(decimal(n)) == n,
    decreases n,
{
    let c = digit_char(n % 10);
    assert(digit_value(c) == n % 10);
    assert(is_digit(c));
    if n >= 10 {
        lemma_decimal(n / 10);
        assert(decimal(n).drop_last() =~= decimal(n / 10));
        assert(decimal(n).last() == c);
        assert(forall|x: int| 0 <= x < decimal(n).len() - 1 ==> decimal(n)[x] == decimal(n / 10)[x]);
        assert(digits_value(decimal(n)) == digits_value(decimal(n / 10)) * 10 + digit_value(c));
        assert(n == (n / 10) * 10 + n % 10) by (nonlinear_arith);
    } else {
        assert(decimal(n).drop_last() =~= Seq::<char>::empty());
        assert(decimal(n).last() == c);
        assert(n % 10 == n);
        assert(digits_value(decimal(n)) == digits_value(decimal(n).drop_last()) * 10 + digit_value(
            decimal(n).last(),
        ));
        assert(digits_value(Seq::<char>::empty()) == 0);
    }
}

proof fn lemma_render_cons(op: CigarOp, rest: Seq<CigarOp>)
    ensures
        render(seq![op] + rest) == op_text(op) + render(rest),
    decreases rest.len(),
{
    let all = seq![op] + rest;
    if rest.len() == 0 {
        assert(all =~= seq![op]);
        assert(all.drop_last() =~= Seq::<CigarOp>::empty());
        assert(all.last() == op);
        assert(render(all) == render(all.drop_last()) + op_text(all.last()));
        assert(op_text(op) + render(rest) =~= op_text(op));
        assert(Seq::<char>::empty() + op_text(op) =~= op_text(op));
    } else {
        lemma_render_cons(op, rest.drop_last());
        assert(all.drop_last() =~= seq![op] + rest.drop_last());
        assert(all.last() == rest.last());
        assert(render(all) == render(all.drop_last()) + op_text(all.last()));
        assert(op_text(op) + render(rest.drop_last()) + op_text(rest.last()) =~= op_text(op) + (
        render(rest.drop_last()) + op_text(rest.last())));
    }
}

proof fn lemma_parse_op_text(op: CigarOp, r: Seq<char>)
    requires
        op.len > 0,
    ensures
        parse_ops(op_text(op) + r) == match parse_ops(r) {
            Some(x) => Some(seq![op] + x),
            None => None::<Seq<CigarOp>>,
        },
{
    let d = decimal(op.len as nat);
    let s = op_text(op) + r;
    lemma_decimal(op.len as nat);
    let k = d.len();
    assert forall|x: int| 0 <= x < k implies is_digit(#[trigger] s[x]) by {
        assert(s[x] == d[x]);
    }
    assert(s[k as int] == code_char(op.code));
    lemma_leading_digits(s, k as int);
    assert(s.subrange(0, k as int) =~= d);
    assert(s.subrange((k + 1) as int, s.len() as int) =~= r);
}

/// Rendering runs of positive length and parsing the text gives the runs back.
pub proof fn lemma_parse_render(ops: Seq<CigarOp>)
    requires
        lengths_positive(ops),
    ensures
        parse_ops(render(ops)) == Some(ops),
    decreases ops.len(),
{
    if ops.len() == 0 {
    } else {
        let rest = ops.drop_first();
        assert(ops =~= seq![ops[0]] + rest);
        assert(lengths_positive(rest)) by {
            assert forall|x: int| 0 <= x < rest.len() implies #[trigger] rest[x].len > 0 by {
                assert(rest[x] == ops[x + 1]);
            }
        }
        lemma_parse_render(rest);
        lemma_render_cons(ops[0], rest);
        assert(ops[0].len > 0);
        lemma_parse_op_text(ops[0], render(rest));
    }
}

proof fn lemma_parse_positive(s: Seq<char>)
    requires
        parse_ops(s) is Some,
    ensures
        lengths_positive(parse_ops(s)->Some_0),
    decreases s.len(),
{
    if s.len() > 0 {
        let k = leading_digits(s);
        let rest = s.subrange((k + 1) as int, s.len() as int);
        lemma_parse_positive(rest);
        let ops = parse_ops(s)->Some_0;
        let tail = parse_ops(rest)->Some_0;
        assert forall|x: int| 0 <= x < ops.len() implies #[trigger] ops[x].len > 0 by {
            if x > 0 {
                assert(ops[x] == tail[x - 1]);
            }
        }
    }
}

/// Writing a parsed CIGAR back as text and parsing it again gives the same runs.
pub proof fn lemma_parse_render_round_trip(s: Seq<char>)
    requires
        cigar_of(s) is Some,
    ensures
        cigar_of(render(cigar_of(s)->Some_0)) == cigar_of(s),
{
    lemma_parse_positive(s);
    lemma_parse_render(cigar_of(s)->Some_0);
}

/// Coalesces consecutive runs of the same code into one run.
pub open spec fn merged(ops: Seq<CigarOp>) -> Seq<CigarOp>
    decreases ops.len(),
{
    if ops.len() == 0 {
        Seq::empty()
    } else {
        let m = merged(ops.drop_last());
        let o = ops.last();
        if m.len() > 0 && m.last().code == o.code {
            m.update(m.len() - 1, CigarOp { code: o.code, len: (m.last().len + o.len) as usize })
        } else {
            m.push(o)
        }
    }
}

/// Run `x` has another code than the run before it.
pub open spec fn differs_from_previous(ops: Seq<CigarOp>, x: int) -> bool {
    ops[x].code != ops[x - 1].code
}

/// No two neighbouring runs share a code.
pub open spec fn no_adjacent_repeat(ops: Seq<CigarOp>) -> bool {
    forall|x: int| 0 < x < ops.len() ==> #[trigger] differs_from_previous(ops, x)
}

/// The runs in the opposite order.
pub open spec fn reversed_ops(ops: Seq<CigarOp>) -> Seq<CigarOp> {
    Seq::new(ops.len(), |x: int| ops[ops.len() - 1 - x])
}

proof fn lemma_total_prefix(ops: Seq<CigarOp>, x: int)
    requires
        0 <= x <= ops.len(),
    ensures
        total_len(ops.subrange(0, x)) <= total_len(ops),
    decreases ops.len() - x,
{
    if x < ops.len() {
        lemma_total_prefix(ops, x + 1);
        assert(ops.subrange(0, x + 1).drop_last() =~= ops.subrange(0, x));
    } else {
        assert(ops.subrange(0, x) =~= ops);
    }
}

proof fn lemma_merged_total(ops: Seq<CigarOp>)
    requires
        total_len(ops) <= usize::MAX,
    ensures
        total_len(merged(ops)) == total_len(ops),
    decreases ops.len(),
{
    if ops.len() > 0 {
        lemma_merged_total(ops.drop_last());
        let m = merged(ops.drop_last());
        let o = ops.last();
        if m.len() > 0 && m.last().code == o.code {
            let v = CigarOp { code: o.code, len: (m.last().len + o.len) as usize };
            let u = m.update(m.len() - 1, v);
            assert(u.drop_last() =~= m.drop_last());
            assert(u.last() == v);
        } else {
            assert(m.push(o).drop_last() =~= m);
        }
    }
}

proof fn lemma_merged_no_repeat(ops: Seq<CigarOp>)
    ensures
        no_adjacent_repeat(merged(ops)),
        ops.len() > 0 ==> merged(ops).len() > 0 && merged(ops).last().code == ops.last().code,
    decreases ops.len(),
{
    if ops.len() > 0 {
        lemma_merged_no_repeat(ops.drop_last());
        let m = merged(ops.drop_last());
        let r = merged(ops);
        assert forall|x: int| 0 < x < r.len() implies #[trigger] differs_from_previous(r, x) by {
            if x < m.len() {
                assert(differs_from_previous(m, x));
                assert(r[x - 1] == m[x - 1]);
                assert(r[x].code == m[x].code);
            } else {
                assert(r[x - 1] == m[x - 1]);
            }
        }

    }
}

proof fn lemma_merged_fixed(ops: Seq<CigarOp>)
    requires
        no_adjacent_repeat(ops),
    ensures
        merged(ops) == ops,
    decreases ops.len(),
{
    if ops.len() > 0 {
        let p = ops.drop_last();
        assert forall|x: int| 0 < x < p.len() implies #[trigger] differs_from_previous(p, x) by {
            assert(p[x] == ops[x]);
            assert(p[x - 1] == ops[x - 1]);
            assert(differs_from_previous(ops, x));
        }
        lemma_merged_fixed(p);
        if p.len() > 0 {
            let y = ops.len() - 1;
            assert(p.last() == ops[y - 1]);
            assert(differs_from_previous(ops, y));
        }
        assert(p.push(ops.last()) =~= ops);
    }
}

/// Merging neighbouring runs of the same code a second time changes nothing.
pub proof fn lemma_merge_idempotent(ops: Seq<CigarOp>)
    ensures
        merged(merged(ops)) == merged(ops),
{
    lemma_merged_no_repeat(ops);
    lemma_merged_fixed(merged(ops));
}

/// Reversing the runs twice gives them back.
pub proof fn lemma_reverse_involutive(ops: Seq<CigarOp>)
    ensures
        reversed_ops(reversed_ops(ops)) == ops,
{
    assert(reversed_ops(reversed_ops(ops)) =~= ops);
}

/// Coalesces consecutive runs of the same code.
pub fn merge_adjacent(ops: &[CigarOp]) -> (r: Vec<CigarOp>)
    requires
        total_len(ops@) <= usize::MAX,
    ensures
        r@ == merged(ops@),
{
    let mut out: Vec<CigarOp> = Vec::new();
    let mut x: usize = 0;
    while x < ops.len()
        invariant
            x <= ops@.len(),
            total_len(ops@) <= usize::MAX,
            out@ == merged(ops@.subrange(0, x as int)),
        decreases ops@.len() - x,
    {
        let o = ops[x];
        let ghost prefix = ops@.subrange(0, x as int);
        proof {
            assert(ops@.subrange(0, x + 1).drop_last() =~= prefix);
            assert(ops@.subrange(0, x + 1).last() == o);
            lemma_total_prefix(ops@, x + 1);
            lemma_total_prefix(ops@, x as int);
            lemma_merged_total(prefix);
        }
        let n = out.len();
        if n > 0 && out[n - 1].code == o.code {
            let last = out[n - 1];
            proof {
                assert(out@.drop_last().push(last) =~= out@);
                assert(total_len(out@) == total_len(out@.drop_last()) + last.len);
            }
            out.set(n - 1, CigarOp { code: o.code, len: last.len + o.len });
        } else {
            out.push(o);
        }
        x = x + 1;
    }
    assert(ops@.subrange(0, ops@.len() as int) =~= ops@);
    out
}

/// The runs in the opposite order, as for the opposite strand.
pub fn reverse_cigar(ops: &[CigarOp]) -> (r: Vec<CigarOp>)
    ensures
        r@ == reversed_ops(ops@),
{
    let mut out: Vec<CigarOp> = Vec::new();
    let mut x: usize = ops.len();
    while x > 0
        invariant
            x <= ops@.len(),
            out@ =~= reversed_ops(ops@.subrange(x as int, ops@.len() as int)),
        decreases x,
    {
        x = x - 1;
        out.push(ops[x]);
        assert(out@ =~= reversed_ops(ops@.subrange(x as int, ops@.len() as int)));
    }
    assert(ops@.subrange(0, ops@.len() as int) =~= ops@);
    out
}

/// Groups of operation codes that the statistics add up.
#[derive(Clone, Copy, Debug, PartialEq, Eq, Structural)]
pub enum OpClass {
    /// `M`, `D`, `N`, `=`, `X`.
    Reference,
    /// `M`, `I`, `S`, `=`, `X`.
    Query,
    /// Every code.
    Any,
    /// `I` and `D`.
    Indel,
    /// `S`.
    Soft,
    /// `H`.
    Hard,
    /// `M` and `=`: columns counted as identical.
    Identical,
    /// `M`, `=`, `X`, `I`, `D`: columns counted by the identity.
    Compared,
}

pub open spec fn in_class(c: CigarCode, k: OpClass) -> bool {
    match k {
        OpClass::Reference => c.consumes_reference(),
        OpClass::Query => c.consumes_query(),
        OpClass::Any => true,
        OpClass::Indel => c == CigarCode::Insertion || c == CigarCode::Deletion,
        OpClass::Soft => c == CigarCode::SoftClip,
        OpClass::Hard => c == CigarCode::HardClip,
        OpClass::Identical => c == CigarCode::Match || c == CigarCode::SeqMatch,
        OpClass::Compared => matches!(c, CigarCode::Match | CigarCode::SeqMatch | CigarCode::SeqMismatch | CigarCode::Insertion | CigarCode::Deletion),
    }
}

fn is_in_class(c: CigarCode, k: OpClass) -> (r: bool)
    ensures
        r == in_class(c, k),
{
    match k {
        OpClass::Reference => matches!(c, CigarCode::Match | CigarCode::Deletion | CigarCode::Skip | CigarCode::SeqMatch | CigarCode::SeqMismatch),
        OpClass::Query => matches!(c, CigarCode::Match | CigarCode::Insertion | CigarCode::SoftClip | CigarCode::SeqMatch | CigarCode::SeqMismatch),
        OpClass::Any => true,
        OpClass::Indel => matches!(c, CigarCode::Insertion | CigarCode::Deletion),
        OpClass::Soft => matches!(c, CigarCode::SoftClip),
        OpClass::Hard => matches!(c, CigarCode::HardClip),
        OpClass::Identical => matches!(c, CigarCode::Match | CigarCode::SeqMatch),
        OpClass::Compared => matches!(c, CigarCode::Match | CigarCode::SeqMatch | CigarCode::SeqMismatch | CigarCode::Insertion | CigarCode::Deletion),
    }
}

/// Total length of the runs whose code is in class `k`.
pub open spec fn class_len(ops: Seq<CigarOp>, k: OpClass) -> nat
    decreases ops.len(),
{
    if ops.len() == 0 {
        0
    } else {
        class_len(ops.drop_last(), k) + if in_class(ops.last().code, k) {
            ops.last().len as nat
        } else {
            0
        }
    }
}

/// Number of runs whose code is in class `k`.
pub open spec fn class_runs(ops: Seq<CigarOp>, k: OpClass) -> nat
    decreases ops.len(),
{
    if ops.len() == 0 {
        0
    } else {
        class_runs(ops.drop_last(), k) + if in_class(ops.last().code, k) {
            1nat
        } else {
            0
        }
    }
}

proof fn lemma_class_le_total(ops: Seq<CigarOp>, k: OpClass)
    ensures
        class_len(ops, k) <= total_len(ops),
        class_runs(ops, k) <= ops.len(),
    decreases ops.len(),
{
    if ops.len() > 0 {
        lemma_class_le_total(ops.drop_last(), k);
    }
}

fn sum_class(ops: &[CigarOp], k: OpClass) -> (r: usize)
    requires
        total_len(ops@) <= usize::MAX,
    ensures
        r == class_len(ops@, k),
{
    let mut acc: usize = 0;
    let mut x: usize = 0;
    while x < ops.len()
        invariant
            x <= ops@.len(),
            total_len(ops@) <= usize::MAX,
            acc == class_len(ops@.subrange(0, x as int), k),
        decreases ops@.len() - x,
    {
        proof {
            assert(ops@.subrange(0, x + 1).drop_last() =~= ops@.subrange(0, x as int));
            lemma_total_prefix(ops@, x + 1);
            lemma_class_le_total(ops@.subrange(0, x + 1), k);
        }
        if is_in_class(ops[x].code, k) {
            acc = acc + ops[x].len;
        }
        x = x + 1;
    }
    assert(ops@.subrange(0, ops@.len() as int) =~= ops@);
    acc
}

fn count_class(ops: &[CigarOp], k: OpClass) -> (r: usize)
    ensures
        r == class_runs(ops@, k),
{
    let mut acc: usize = 0;
    let mut x: usize = 0;
    while x < ops.len()
        invariant
            x <= ops@.len(),
            acc == class_runs(ops@.subrange(0, x as int), k),
        decreases ops@.len() - x,
    {
        proof {
            assert(ops@.subrange(0, x + 1).drop_last() =~= ops@.subrange(0, x as int));
            lemma_class_le_total(ops@.subrange(0, x + 1), k);
        }
        if is_in_class(ops[x].code, k) {
            acc = acc + 1;
        }
        x = x + 1;
    }
    assert(ops@.subrange(0, ops@.len() as int) =~= ops@);
    acc
}

/// Reference residues the runs consume (`M`, `D`, `N`, `=`, `X`).
pub fn reference_consumed(ops: &[CigarOp]) -> (r: usize)
    requires
        total_len(ops@) <= usize::MAX,
    ensures
        r == class_len(ops@, OpClass::Reference),
{
    sum_class(ops, OpClass::Reference)
}

/// Query residues the runs consume (`M`, `I`, `S`, `=`, `X`).
pub fn query_consumed(ops: &[CigarOp]) -> (r: usize)
    requires
        total_len(ops@) <= usize::MAX,
    ensures
        r == class_len(ops@, OpClass::Query),
{
    sum_class(ops, OpClass::Query)
}

/// Sum of all run lengths.
pub fn alignment_columns(ops: &[CigarOp]) -> (r: usize)
    requires
        total_len(ops@) <= usize::MAX,
    ensures
        r == total_len(ops@),
{
    proof {
        lemma_class_any(ops@);
    }
    sum_class(ops, OpClass::Any)
}

proof fn lemma_class_any(ops: Seq<CigarOp>)
    ensures
        class_len(ops, OpClass::Any) == total_len(ops),
    decreases ops.len(),
{
    if ops.len() > 0 {
        lemma_class_any(ops.drop_last());
    }
}

/// Number of insertion and deletion runs.
pub fn gap_count(ops: &[CigarOp]) -> (r: usize)
    ensures
        r == class_runs(ops@, OpClass::Indel),
{
    count_class(ops, OpClass::Indel)
}

/// Total length of the insertion and deletion runs.
pub fn gap_bases(ops: &[CigarOp]) -> (r: usize)
    requires
        total_len(ops@) <= usize::MAX,
    ensures
        r == class_len(ops@, OpClass::Indel),
{
    sum_class(ops, OpClass::Indel)
}

/// Soft-clipped and hard-clipped residues, in that order.
pub fn clipped_bases(ops: &[CigarOp]) -> (r: (usize, usize))
    requires
        total_len(ops@) <= usize::MAX,
    ensures
        r.0 == class_len(ops@, OpClass::Soft),
        r.1 == class_len(ops@, OpClass::Hard),
{
    (sum_class(ops, OpClass::Soft), sum_class(ops, OpClass::Hard))
}

/// Identity as a fraction: residues in `M` and `=` runs over residues in `M`, `=`, `X`, `I`
/// and `D` runs (a plain `M` counts as identical, since the runs alone cannot tell).
pub fn identity(ops: &[CigarOp]) -> (r: (usize, usize))
    requires
        total_len(ops@) <= usize::MAX,
    ensures
        r.0 == class_len(ops@, OpClass::Identical),
        r.1 == class_len(ops@, OpClass::Compared),
{
    (sum_class(ops, OpClass::Identical), sum_class(ops, OpClass::Compared))
}

/// A CIGAR is consistent when it has at least one run, every run has a length above zero,
/// and clips (`S`, `H`) stand only at the two ends: each clip has only clips before it or
/// only clips after it.
pub open spec fn is_consistent(ops: Seq<CigarOp>) -> bool {
    &&& ops.len() > 0
    &&& lengths_positive(ops)
    &&& forall|x: int|
        0 <= x < ops.len() && (#[trigger] ops[x]).code.is_clip() ==> (forall|y: int|
            0 <= y < x ==> ops[y].code.is_clip()) || (forall|y: int|
            x < y < ops.len() ==> ops[y].code.is_clip())
}

fn is_clip_code(c: CigarCode) -> (r: bool)
    ensures
        r == c.is_clip(),
{
    matches!(c, CigarCode::SoftClip | CigarCode::HardClip)
}

/// Checks that a CIGAR is consistent (see `is_consistent`).
pub fn validate_cigar(ops: &[CigarOp]) -> (r: Result<(), AlignError>)
    ensures
        is_consistent(ops@) ==> r is Ok,
        !is_consistent(ops@) ==> r == Err::<(), AlignError>(AlignError::InconsistentCigar),
{
    let n = ops.len();
    if n == 0 {
        return Err(AlignError::InconsistentCigar);
    }
    let mut x: usize = 0;
    while x < n
        invariant
            n == ops@.len(),
            x <= n,
            forall|y: int| 0 <= y < x ==> #[trigger] ops@[y].len > 0,
        decreases n - x,
    {
        if ops[x].len == 0 {
            return Err(AlignError::InconsistentCigar);
        }
        x = x + 1;
    }
    // first non-clip run
    let mut first: usize = 0;
    while first < n && is_clip_code(ops[first].code)
        invariant
            n == ops@.len(),
            first <= n,
            forall|y: int| 0 <= y < n ==> #[trigger] ops@[y].len > 0,
            forall|y: int| 0 <= y < first ==> (#[trigger] ops@[y]).code.is_clip(),
        decreases n - first,
    {
        first = first + 1;
    }
    if first == n {
        return Ok(());
    }
    // last non-clip run
    let mut last: usize = n - 1;
    while is_clip_code(ops[last].code)
        invariant
            n == ops@.len(),
            first <= last < n,
            !ops@[first as int].code.is_clip(),
            forall|y: int| 0 <= y < n ==> #[trigger] ops@[y].len > 0,
            forall|y: int| 0 <= y < first ==> (#[trigger] ops@[y]).code.is_clip(),
            forall|y: int| last < y < n ==> (#[trigger] ops@[y]).code.is_clip(),
        decreases last,
    {
        last = last - 1;
    }
    let mut y: usize = first;
    while y < last
        invariant
            n == ops@.len(),
            first <= y <= last < n,
            !ops@[first as int].code.is_clip(),
            !ops@[last as int].code.is_clip(),
            forall|w: int| 0 <= w < n ==> #[trigger] ops@[w].len > 0,
            forall|w: int| 0 <= w < first ==> (#[trigger] ops@[w]).code.is_clip(),
            forall|w: int| last < w < n ==> (#[trigger] ops@[w]).code.is_clip(),
            forall|z: int| first <= z < y ==> !(#[trigger] ops@[z]).code.is_clip(),
        decreases last - y,
    {
        if is_clip_code(ops[y].code) {
            assert(!ops@[first as int].code.is_clip());
            assert(!ops@[last as int].code.is_clip());
            return Err(AlignError::InconsistentCigar);
        }
        y = y + 1;
    }
    assert forall|z: int|
        0 <= z < ops@.len() && (#[trigger] ops@[z]).code.is_clip() implies (forall|w: int|
        0 <= w < z ==> ops@[w].code.is_clip()) || (forall|w: int|
        z < w < ops@.len() ==> ops@[w].code.is_clip()) by {
        if z < first {
        } else {
            assert(z >= last);
            assert(z != last);
        }
    }
    Ok(())
}

/// `=` and `X` written as `M`; other codes unchanged.
pub open spec fn unify_code(c: CigarCode) -> CigarCode {
    if c == CigarCode::SeqMatch || c == CigarCode::SeqMismatch {
        CigarCode::Match
    } else {
        c
    }
}

/// `H` written as `S`; other codes unchanged.
pub open spec fn soften_code(c: CigarCode) -> CigarCode {
    if c == CigarCode::HardClip {
        CigarCode::SoftClip
    } else {
        c
    }
}

/// The runs with every code passed through `unify_code` (`soft == false`) or
/// `soften_code` (`soft == true`).
pub open spec fn recoded(ops: Seq<CigarOp>, soft: bool) -> Seq<CigarOp> {
    Seq::new(
        ops.len(),
        |x: int|
            CigarOp {
                code: if soft {
                    soften_code(ops[x].code)
                } else {
                    unify_code(ops[x].code)
                },
                len: ops[x].len,
            },
    )
}

/// `=` and `X` runs folded into `M`, then neighbouring runs of one code merged.
pub open spec fn collapsed(ops: Seq<CigarOp>) -> Seq<CigarOp> {
    merged(recoded(ops, false))
}

proof fn lemma_recoded_total(ops: Seq<CigarOp>, soft: bool)
    ensures
        total_len(recoded(ops, soft)) == total_len(ops),
    decreases ops.len(),
{
    if ops.len() > 0 {
        lemma_recoded_total(ops.drop_last(), soft);
        assert(recoded(ops, soft).drop_last() =~= recoded(ops.drop_last(), soft));
    }
}

proof fn lemma_unified_class(ops: Seq<CigarOp>, k: OpClass)
    requires
        k == OpClass::Query || k == OpClass::Reference,
    ensures
        class_len(recoded(ops, false), k) == class_len(ops, k),
    decreases ops.len(),
{
    if ops.len() > 0 {
        lemma_unified_class(ops.drop_last(), k);
        assert(recoded(ops, false).drop_last() =~= recoded(ops.drop_last(), false));
    }
}

fn recode(ops: &[CigarOp], soft: bool) -> (r: Vec<CigarOp>)
    ensures
        r@ == recoded(ops@, soft),
{
    let mut out: Vec<CigarOp> = Vec::new();
    let mut x: usize = 0;
    while x < ops.len()
        invariant
            x <= ops@.len(),
            out@ =~= recoded(ops@, soft).subrange(0, x as int),
        decreases ops@.len() - x,
    {
        let o = ops[x];
        let code = if soft {
            if o.code == CigarCode::HardClip {
                CigarCode::SoftClip
            } else {
                o.code
            }
        } else if o.code == CigarCode::SeqMatch || o.code == CigarCode::SeqMismatch {
            CigarCode::Match
        } else {
            o.code
        };
        out.push(CigarOp { code, len: o.len });
        x = x + 1;
    }
    out
}

/// Folds `=` and `X` runs into `M` runs and merges neighbouring runs of one code.
pub fn collapse_matches(ops: &[CigarOp]) -> (r: Vec<CigarOp>)
    requires
        total_len(ops@) <= usize::MAX,
    ensures
        r@ == collapsed(ops@),
{
    let unified = recode(ops, false);
    proof {
        lemma_recoded_total(ops@, false);
    }
    merge_adjacent(&unified)
}

/// Rewrites hard clips as soft clips. The query then has to hold the clipped residues:
/// `query_consumed` grows by the hard-clipped length.
pub fn hard_clip_to_soft(ops: &[CigarOp]) -> (r: Vec<CigarOp>)
    ensures
        r@ == recoded(ops@, true),
{
    recode(ops, true)
}

/// Splits the runs where the reference position `pos` falls: the left part consumes
/// `min(pos, reference length)` reference residues, a run that spans `pos` is cut in two
/// runs of its code, and everything from `pos` on (including runs that consume no reference
/// right at `pos`) goes to the right part.
pub open spec fn split_ops(ops: Seq<CigarOp>, pos: nat) -> (Seq<CigarOp>, Seq<CigarOp>)
    decreases ops.len(),
{
    if ops.len() == 0 {
        (Seq::empty(), Seq::empty())
    } else if pos == 0 {
        (Seq::empty(), ops)
    } else {
        let o = ops[0];
        let rest = ops.drop_first();
        if o.code.consumes_reference() && pos < o.len {
            (
                seq![CigarOp { code: o.code, len: pos as usize }],
                seq![CigarOp { code: o.code, len: (o.len - pos) as usize }] + rest,
            )
        } else {
            let r = split_ops(
                rest,
                if o.code.consumes_reference() {
                    (pos - o.len) as nat
                } else {
                    pos
                },
            );
            (seq![o] + r.0, r.1)
        }
    }
}

fn copy_from(ops: &[CigarOp], start: usize) -> (r: Vec<CigarOp>)
    requires
        start <= ops@.len(),
    ensures
        r@ == ops@.subrange(start as int, ops@.len() as int),
{
    let mut out: Vec<CigarOp> = Vec::new();
    let mut x: usize = start;
    while x < ops.len()
        invariant
            start <= x <= ops@.len(),
            out@ =~= ops@.subrange(start as int, x as int),
        decreases ops@.len() - x,
    {
        out.push(ops[x]);
        x = x + 1;
    }
    out
}

/// Splits the runs at reference position `ref_pos` (see `split_ops`).
pub fn split_at_reference(ops: &[CigarOp], ref_pos: usize) -> (r: (Vec<CigarOp>, Vec<CigarOp>))
    ensures
        (r.0@, r.1@) == split_ops(ops@, ref_pos as nat),
{
    let n = ops.len();
    let mut left: Vec<CigarOp> = Vec::new();
    let mut p: usize = ref_pos;
    let mut x: usize = 0;
    assert(ops@.subrange(0, n as int) =~= ops@);
    assert(left@ + split_ops(ops@, ref_pos as nat).0 =~= split_ops(ops@, ref_pos as nat).0);
    while x < n && p > 0
        invariant
            n == ops@.len(),
            x <= n,
            split_ops(ops@, ref_pos as nat).0 == left@ + split_ops(
                ops@.subrange(x as int, n as int),
                p as nat,
            ).0,
            split_ops(ops@, ref_pos as nat).1 == split_ops(ops@.subrange(x as int, n as int), p as nat).1,
        decreases n - x,
    {
        let o = ops[x];
        let ghost tail = ops@.subrange(x as int, n as int);
        assert(tail[0] == o);
        assert(tail.drop_first() =~= ops@.subrange(x + 1, n as int));
        let consumes = is_in_class(o.code, OpClass::Reference);
        if consumes && p < o.len {
            let piece = CigarOp { code: o.code, len: p };
            let rest_piece = CigarOp { code: o.code, len: o.len - p };
            let ghost r1 = seq![rest_piece] + tail.drop_first();
            assert(split_ops(ops@, ref_pos as nat).0 == left@ + seq![piece]);
            left.push(piece);
            let mut right: Vec<CigarOp> = Vec::new();
            right.push(rest_piece);
            let mut y: usize = x + 1;
            while y < n
                invariant
                    n == ops@.len(),
                    x + 1 <= y <= n,
                    right@ =~= seq![rest_piece] + ops@.subrange(x + 1, y as int),
                decreases n - y,
            {
                right.push(ops[y]);
                y = y + 1;
            }
            assert(left@ =~= split_ops(ops@, ref_pos as nat).0);
            assert(right@ =~= r1);
            return (left, right);
        }
        let ghost next = split_ops(tail.drop_first(), if consumes { (p - o.len) as nat } else { p as nat });
        assert(split_ops(tail, p as nat) == (seq![o] + next.0, next.1));
        assert(left@ + (seq![o] + next.0) =~= left@.push(o) + next.0);
        left.push(o);
        if consumes {
            p = p - o.len;
        }
        x = x + 1;
    }
    let right = copy_from(ops, x);
    proof {
        let tail = ops@.subrange(x as int, n as int);
        if x == n {
            assert(tail =~= Seq::<CigarOp>::empty());
        }
        assert(left@ + Seq::<CigarOp>::empty() =~= left@);
    }
    (left, right)
}

/// The code of one alignment column, or `None` for a column that is a gap on both sides.
pub open spec fn column_code(a: u8, b: u8) -> Option<CigarCode> {
    if a == GAP && b == GAP {
        None
    } else if a == GAP {
        Some(CigarCode::Deletion)
    } else if b == GAP {
        Some(CigarCode::Insertion)
    } else {
        Some(CigarCode::Match)
    }
}

/// One run of length one per column of an alignment.
pub open spec fn column_ops(aq: Seq<u8>, at: Seq<u8>) -> Seq<CigarOp> {
    Seq::new(aq.len(), |x: int| CigarOp { code: column_code(aq[x], at[x])->Some_0, len: 1 })
}

/// The run-length encoding of an alignment: matches and mismatches as `M`, a gap in the
/// target as `I`, a gap in the query as `D`.
pub open spec fn alignment_ops(aq: Seq<u8>, at: Seq<u8>) -> Seq<CigarOp> {
    merged(column_ops(aq, at))
}

proof fn lemma_column_ops_total(aq: Seq<u8>, at: Seq<u8>)
    ensures
        total_len(column_ops(aq, at)) == aq.len(),
    decreases aq.len(),
{
    if aq.len() > 0 {
        lemma_column_ops_total(aq.drop_last(), at);
        assert(column_ops(aq, at).drop_last() =~= column_ops(aq.drop_last(), at));
    }
}

/// Like `column_code`, but an aligned pair is `=` when the residues are equal and `X` when
/// they differ.
pub open spec fn column_code_extended(a: u8, b: u8) -> Option<CigarCode> {
    if a != GAP && b != GAP {
        Some(if a == b { CigarCode::SeqMatch } else { CigarCode::SeqMismatch })
    } else {
        column_code(a, b)
    }
}

/// One run of length one per column, with the extended codes.
pub open spec fn column_ops_extended(aq: Seq<u8>, at: Seq<u8>) -> Seq<CigarOp> {
    Seq::new(
        aq.len(),
        |x: int| CigarOp { code: column_code_extended(aq[x], at[x])->Some_0, len: 1 },
    )
}

proof fn lemma_column_ops_extended_total(aq: Seq<u8>, at: Seq<u8>)
    ensures
        total_len(column_ops_extended(aq, at)) == aq.len(),
    decreases aq.len(),
{
    if aq.len() > 0 {
        lemma_column_ops_extended_total(aq.drop_last(), at);
        assert(column_ops_extended(aq, at).drop_last() =~= column_ops_extended(aq.drop_last(), at));
    }
}

/// Encodes two aligned rows as CIGAR runs with the extended vocabulary: equal residues as
/// `=`, different ones as `X`, gaps as `I` and `D`.
pub fn alignment_to_cigar_extended(aligned_query: &[u8], aligned_target: &[u8]) -> (r: Result<
    Vec<CigarOp>,
    AlignError,
>)
    ensures
        aligned_query@.len() != aligned_target@.len() ==> r == Err::<Vec<CigarOp>, AlignError>(
            AlignError::LengthMismatch,
        ),
        aligned_query@.len() == aligned_target@.len() && (exists|x: int|
            0 <= x < aligned_query@.len() && aligned_query@[x] == GAP && aligned_target@[x] == GAP)
            ==> r == Err::<Vec<CigarOp>, AlignError>(AlignError::InconsistentCigar),
        aligned_query@.len() == aligned_target@.len() && (forall|x: int|
            0 <= x < aligned_query@.len() ==> !(aligned_query@[x] == GAP && aligned_target@[x]
                == GAP)) ==> r is Ok && r->Ok_0@ == merged(
            column_ops_extended(aligned_query@, aligned_target@),
        ),
{
    let n = aligned_query.len();
    if n != aligned_target.len() {
        return Err(AlignError::LengthMismatch);
    }
    let mut cols: Vec<CigarOp> = Vec::new();
    let mut x: usize = 0;
    while x < n
        invariant
            n == aligned_query@.len(),
            n == aligned_target@.len(),
            x <= n,
            forall|y: int| 0 <= y < x ==> !(aligned_query@[y] == GAP && aligned_target@[y] == GAP),
            cols@ =~= column_ops_extended(aligned_query@, aligned_target@).subrange(0, x as int),
        decreases n - x,
    {
        let a = aligned_query[x];
        let b = aligned_target[x];
        let code = if a == GAP && b == GAP {
            return Err(AlignError::InconsistentCigar);
        } else if a == GAP {
            CigarCode::Deletion
        } else if b == GAP {
            CigarCode::Insertion
        } else if a == b {
            CigarCode::SeqMatch
        } else {
            CigarCode::SeqMismatch
        };
        cols.push(CigarOp { code, len: 1 });
        x = x + 1;
    }
    proof {
        lemma_column_ops_extended_total(aligned_query@, aligned_target@);
    }
    assert(cols@ =~= column_ops_extended(aligned_query@, aligned_target@));
    Ok(merge_adjacent(&cols))
}

/// Encodes two aligned rows as CIGAR runs.
pub fn alignment_to_cigar(aligned_query: &[u8], aligned_target: &[u8]) -> (r: Result<
    Vec<CigarOp>,
    AlignError,
>)
    ensures
        aligned_query@.len() != aligned_target@.len() ==> r == Err::<Vec<CigarOp>, AlignError>(
            AlignError::LengthMismatch,
        ),
        aligned_query@.len() == aligned_target@.len() && (exists|x: int|
            0 <= x < aligned_query@.len() && aligned_query@[x] == GAP && aligned_target@[x] == GAP)
            ==> r == Err::<Vec<CigarOp>, AlignError>(AlignError::InconsistentCigar),
        aligned_query@.len() == aligned_target@.len() && (forall|x: int|
            0 <= x < aligned_query@.len() ==> !(aligned_query@[x] == GAP && aligned_target@[x]
                == GAP)) ==> r is Ok && r->Ok_0@ == alignment_ops(aligned_query@, aligned_target@),
{
    let n = aligned_query.len();
    if n != aligned_target.len() {
        return Err(AlignError::LengthMismatch);
    }
    let mut cols: Vec<CigarOp> = Vec::new();
    let mut x: usize = 0;
    while x < n
        invariant
            n == aligned_query@.len(),
            n == aligned_target@.len(),
            x <= n,
            forall|y: int| 0 <= y < x ==> !(aligned_query@[y] == GAP && aligned_target@[y] == GAP),
            cols@ =~= column_ops(aligned_query@, aligned_target@).subrange(0, x as int),
        decreases n - x,
    {
        let a = aligned_query[x];
        let b = aligned_target[x];
        let code = if a == GAP && b == GAP {
            return Err(AlignError::InconsistentCigar);
        } else if a == GAP {
            CigarCode::Deletion
        } else if b == GAP {
            CigarCode::Insertion
        } else {
            CigarCode::Match
        };
        cols.push(CigarOp { code, len: 1 });
        x = x + 1;
    }
    proof {
        lemma_column_ops_total(aligned_query@, aligned_target@);
    }
    assert(cols@ =~= column_ops(aligned_query@, aligned_target@));
    Ok(merge_adjacent(&cols))
}

proof fn lemma_merged_class(ops: Seq<CigarOp>, k: OpClass)
    requires
        total_len(ops) <= usize::MAX,
    ensures
        class_len(merged(ops), k) == class_len(ops, k),
    decreases ops.len(),
{
    if ops.len() > 0 {
        lemma_merged_class(ops.drop_last(), k);
        lemma_merged_total(ops.drop_last());
        let m = merged(ops.drop_last());
        let o = ops.last();
        if m.len() > 0 && m.last().code == o.code {
            let v = CigarOp { code: o.code, len: (m.last().len + o.len) as usize };
            let u = m.update(m.len() - 1, v);
            assert(u.drop_last() =~= m.drop_last());
            assert(u.last() == v);
            assert(m.drop_last().push(m.last()) =~= m);
            assert(total_len(m) == total_len(m.drop_last()) + m.last().len);
            assert(class_len(m, k) == class_len(m.drop_last(), k) + if in_class(m.last().code, k) {
                m.last().len as nat
            } else {
                0
            });
        } else {
            assert(m.push(o).drop_last() =~= m);
        }
    }
}

proof fn lemma_column_classes(aq: Seq<u8>, at: Seq<u8>, n: int)
    requires
        aq.len() == at.len(),
        0 <= n <= aq.len(),
        no_empty_column(aq, at),
    ensures
        class_len(column_ops(aq.subrange(0, n), at), OpClass::Query) == degap(aq.subrange(0, n)).len(),
        class_len(column_ops(aq.subrange(0, n), at), OpClass::Reference) == degap(
            at.subrange(0, n),
        ).len(),
    decreases n,
{
    if n > 0 {
        lemma_column_classes(aq, at, n - 1);
        assert(column_ops(aq.subrange(0, n), at).drop_last() =~= column_ops(aq.subrange(0, n - 1), at));
        assert(aq.subrange(0, n).drop_last() =~= aq.subrange(0, n - 1));
        assert(at.subrange(0, n).drop_last() =~= at.subrange(0, n - 1));
        assert(!(aq[n - 1] == GAP && at[n - 1] == GAP));
    }
}

/// The runs that encode an alignment result consume, once `=` and `X` are folded into `M`,
/// exactly the query and target lengths that the result's coordinates span.
pub proof fn lemma_cigar_matches_coordinates(
    r: AlignmentResult,
    mode: AlignmentMode,
    sc: ScoringScheme,
    q: Seq<u8>,
    t: Seq<u8>,
)
    requires
        r.is_alignment_of(mode, sc, q, t),
        gap_free(q),
        gap_free(t),
        r.aligned_query@.len() <= usize::MAX,
    ensures
        class_len(collapsed(alignment_ops(r.aligned_query@, r.aligned_target@)), OpClass::Query)
            == r.query_end - r.query_start,
        class_len(collapsed(alignment_ops(r.aligned_query@, r.aligned_target@)), OpClass::Reference)
            == r.target_end - r.target_start,
{
    lemma_alignment_reproduces_input(r, mode, sc, q.len() + t.len(), q, t);
    let aq = r.aligned_query@;
    let at = r.aligned_target@;
    let cols = column_ops(aq, at);
    lemma_column_ops_total(aq, at);
    lemma_column_classes(aq, at, aq.len() as int);
    assert(aq.subrange(0, aq.len() as int) =~= aq);
    assert(at.subrange(0, at.len() as int) =~= at);
    lemma_merged_class(cols, OpClass::Query);
    lemma_merged_class(cols, OpClass::Reference);
    lemma_merged_total(cols);
    let m = merged(cols);
    lemma_unified_class(m, OpClass::Query);
    lemma_unified_class(m, OpClass::Reference);
    lemma_recoded_total(m, false);
    lemma_merged_class(recoded(m, false), OpClass::Query);
    lemma_merged_class(recoded(m, false), OpClass::Reference);
}

/// `n` gap bytes.
pub open spec fn gaps(n: nat) -> Seq<u8> {
    Seq::new(n, |x: int| GAP)
}

/// The columns one run contributes when the query and target positions before it are
/// `qp` and `tp`: aligned residues for `M`, `=` and `X`, query residues against gaps for `I`,
/// gaps against target residues for `D` and `N`, and nothing for clips and padding.
pub open spec fn run_columns(o: CigarOp, q: Seq<u8>, t: Seq<u8>, qp: nat, tp: nat) -> (
    Seq<u8>,
    Seq<u8>,
) {
    let n = o.len as nat;
    if o.code.consumes_query() && o.code.consumes_reference() {
        (q.subrange(qp as int, (qp + n) as int), t.subrange(tp as int, (tp + n) as int))
    } else if o.code == CigarCode::Insertion {
        (q.subrange(qp as int, (qp + n) as int), gaps(n))
    } else if o.code == CigarCode::Deletion || o.code == CigarCode::Skip {
        (gaps(n), t.subrange(tp as int, (tp + n) as int))
    } else {
        (Seq::empty(), Seq::empty())
    }
}

/// The two aligned rows that runs describe over a query and a target.
pub open spec fn expanded(ops: Seq<CigarOp>, q: Seq<u8>, t: Seq<u8>) -> (Seq<u8>, Seq<u8>)
    decreases ops.len(),
{
    if ops.len() == 0 {
        (Seq::empty(), Seq::empty())
    } else {
        let p = ops.drop_last();
        let e = expanded(p, q, t);
        let c = run_columns(
            ops.last(),
            q,
            t,
            class_len(p, OpClass::Query),
            class_len(p, OpClass::Reference),
        );
        (e.0 + c.0, e.1 + c.1)
    }
}

proof fn lemma_class_prefix(ops: Seq<CigarOp>, x: int, k: OpClass)
    requires
        0 <= x <= ops.len(),
    ensures
        class_len(ops.subrange(0, x), k) <= class_len(ops, k),
    decreases ops.len() - x,
{
    if x < ops.len() {
        lemma_class_prefix(ops, x + 1, k);
        assert(ops.subrange(0, x + 1).drop_last() =~= ops.subrange(0, x));
    } else {
        assert(ops.subrange(0, x) =~= ops);
    }
}

/// Rebuilds the two aligned rows from runs and the raw query and target.
pub fn cigar_to_alignment(ops: &[CigarOp], query: &[u8], target: &[u8]) -> (r: Result<
    (Vec<u8>, Vec<u8>),
    AlignError,
>)
    requires
        total_len(ops@) <= usize::MAX,
    ensures
        class_len(ops@, OpClass::Query) == query@.len() && class_len(ops@, OpClass::Reference)
            == target@.len() ==> r is Ok && (r->Ok_0.0@, r->Ok_0.1@) == expanded(
            ops@,
            query@,
            target@,
        ),
        !(class_len(ops@, OpClass::Query) == query@.len() && class_len(ops@, OpClass::Reference)
            == target@.len()) ==> r == Err::<(Vec<u8>, Vec<u8>), AlignError>(
            AlignError::LengthMismatch,
        ),
{
    if query_consumed(ops) != query.len() || reference_consumed(ops) != target.len() {
        return Err(AlignError::LengthMismatch);
    }
    let ghost q = query@;
    let ghost t = target@;
    let mut aq: Vec<u8> = Vec::new();
    let mut at: Vec<u8> = Vec::new();
    let mut qp: usize = 0;
    let mut tp: usize = 0;
    let qn = query.len();
    let tn = target.len();
    let mut x: usize = 0;
    while x < ops.len()
        invariant
            x <= ops@.len(),
            total_len(ops@) <= usize::MAX,
            qn == q.len(),
            tn == t.len(),
            class_len(ops@, OpClass::Query) == q.len(),
            class_len(ops@, OpClass::Reference) == t.len(),
            q == query@,
            t == target@,
            qp == class_len(ops@.subrange(0, x as int), OpClass::Query),
            tp == class_len(ops@.subrange(0, x as int), OpClass::Reference),
            (aq@, at@) == expanded(ops@.subrange(0, x as int), q, t),
        decreases ops@.len() - x,
    {
        let o = ops[x];
        let ghost prefix = ops@.subrange(0, x as int);
        let ghost base_q = aq@;
        let ghost base_t = at@;
        proof {
            assert(ops@.subrange(0, x + 1).drop_last() =~= prefix);
            assert(ops@.subrange(0, x + 1).last() == o);
            lemma_class_prefix(ops@, x + 1, OpClass::Query);
            lemma_class_prefix(ops@, x + 1, OpClass::Reference);
        }
        let cq = is_in_class(o.code, OpClass::Query);
        let ct = is_in_class(o.code, OpClass::Reference);
        assert(class_len(ops@.subrange(0, x + 1), OpClass::Query) == qp + if cq {
            o.len as nat
        } else {
            0
        });
        assert(class_len(ops@.subrange(0, x + 1), OpClass::Reference) == tp + if ct {
            o.len as nat
        } else {
            0
        });
        let from_q = cq && (ct || o.code == CigarCode::Insertion);
        let from_t = ct && (cq || o.code == CigarCode::Deletion || o.code == CigarCode::Skip);
        let emits = from_q || from_t;
        let ghost c = run_columns(o, q, t, qp as nat, tp as nat);
        if emits {
            let mut y: usize = 0;
            while y < o.len
                invariant
                    0 <= y <= o.len,
                    from_q ==> qp + o.len <= q.len(),
                    from_t ==> tp + o.len <= t.len(),
                    qn == q.len(),
                    tn == t.len(),
                    from_q || from_t,
                    q == query@,
                    t == target@,
                    aq@ == base_q + (if from_q {
                        q.subrange(qp as int, qp + y)
                    } else {
                        gaps(y as nat)
                    }),
                    at@ == base_t + (if from_t {
                        t.subrange(tp as int, tp + y)
                    } else {
                        gaps(y as nat)
                    }),
                decreases o.len - y,
            {
                if from_q {
                    aq.push(query[qp + y]);
                    assert(q.subrange(qp as int, qp + y + 1) =~= q.subrange(qp as int, qp + y).push(q[qp + y]));
                } else {
                    aq.push(GAP);
                    assert(gaps((y + 1) as nat) =~= gaps(y as nat).push(GAP));
                }
                if from_t {
                    at.push(target[tp + y]);
                    assert(t.subrange(tp as int, tp + y + 1) =~= t.subrange(tp as int, tp + y).push(t[tp + y]));
                } else {
                    at.push(GAP);
                    assert(gaps((y + 1) as nat) =~= gaps(y as nat).push(GAP));
                }
                assert(base_q + (if from_q {
                    q.subrange(qp as int, qp + y + 1)
                } else {
                    gaps((y + 1) as nat)
                }) =~= aq@);
                assert(base_t + (if from_t {
                    t.subrange(tp as int, tp + y + 1)
                } else {
                    gaps((y + 1) as nat)
                }) =~= at@);
                y = y + 1;
            }
            assert(aq@ =~= base_q + c.0);
            assert(at@ =~= base_t + c.1);
        } else {
            assert(aq@ =~= base_q + c.0);
            assert(at@ =~= base_t + c.1);
        }
        if cq {
            qp = qp + o.len;
        }
        if ct {
            tp = tp + o.len;
        }
        x = x + 1;
    }
    assert(ops@.subrange(0, ops@.len() as int) =~= ops@);
    Ok((aq, at))
}

/// What one reference position contributes to an MD tag.
#[derive(Clone, Copy, Debug, PartialEq, Eq, Structural)]
pub enum MdEvent {
    /// An aligned column of equal residues.
    Same,
    /// An aligned column whose reference residue differs from the query's.
    Diff(u8),
    /// A reference residue deleted from the query.
    Deleted(u8),
}

/// The MD events of one run whose query and reference positions start at `qp` and `rp`:
/// one per aligned column of `M`, `=` and `X` (compared on the residues themselves), one per
/// deleted residue of `D`; other runs give none.
pub open spec fn run_events(o: CigarOp, q: Seq<u8>, r: Seq<u8>, qp: nat, rp: nat) -> Seq<MdEvent> {
    if o.code.consumes_query() && o.code.consumes_reference() {
        Seq::new(
            o.len as nat,
            |k: int|
                if q[qp + k] == r[rp + k] {
                    MdEvent::Same
                } else {
                    MdEvent::Diff(r[rp + k])
                },
        )
    } else if o.code == CigarCode::Deletion {
        Seq::new(o.len as nat, |k: int| MdEvent::Deleted(r[rp + k]))
    } else {
        Seq::empty()
    }
}

/// The MD events of a list of runs over a query and a reference.
pub open spec fn md_events(ops: Seq<CigarOp>, q: Seq<u8>, r: Seq<u8>) -> Seq<MdEvent>
    decreases ops.len(),
{
    if ops.len() == 0 {
        Seq::empty()
    } else {
        let p = ops.drop_last();
        md_events(p, q, r) + run_events(
            ops.last(),
            q,
            r,
            class_len(p, OpClass::Query),
            class_len(p, OpClass::Reference),
        )
    }
}

/// The MD text of `ev[i..]`, after `count` equal columns and, if `in_del`, inside a run
/// of deleted residues: counts of equal columns in decimal, a differing reference residue
/// as itself, and deleted residues after a `^`; the text starts and ends with a count.
pub open spec fn md_text(ev: Seq<MdEvent>, i: nat, count: nat, in_del: bool) -> Seq<char>
    decreases ev.len() - i,
{
    if i >= ev.len() {
        decimal(count)
    } else {
        match ev[i as int] {
            MdEvent::Same => md_text(ev, i + 1, count + 1, false),
            MdEvent::Diff(b) => decimal(count).push(b as char) + md_text(ev, i + 1, 0, false),
            MdEvent::Deleted(b) => if in_del {
                seq![b as char] + md_text(ev, i + 1, 0, true)
            } else {
                decimal(count).push('^').push(b as char) + md_text(ev, i + 1, 0, true)
            },
        }
    }
}

/// Builds the MD tag of a CIGAR over the query and the reference.
pub fn generate_md_tag(ops: &[CigarOp], query: &[u8], reference: &[u8]) -> (r: Result<
    String,
    AlignError,
>)
    requires
        total_len(ops@) <= usize::MAX,
    ensures
        class_len(ops@, OpClass::Query) == query@.len() && class_len(ops@, OpClass::Reference)
            == reference@.len() ==> r is Ok && r->Ok_0@ == md_text(
            md_events(ops@, query@, reference@),
            0,
            0,
            false,
        ),
        !(class_len(ops@, OpClass::Query) == query@.len() && class_len(ops@, OpClass::Reference)
            == reference@.len()) ==> r == Err::<String, AlignError>(AlignError::LengthMismatch),
{
    if query_consumed(ops) != query.len() || reference_consumed(ops) != reference.len() {
        return Err(AlignError::LengthMismatch);
    }
    let ghost q = query@;
    let ghost t = reference@;
    let qn = query.len();
    let tn = reference.len();
    let mut ev: Vec<MdEvent> = Vec::new();
    let mut qp: usize = 0;
    let mut tp: usize = 0;
    let mut x: usize = 0;
    while x < ops.len()
        invariant
            x <= ops@.len(),
            total_len(ops@) <= usize::MAX,
            qn == q.len(),
            tn == t.len(),
            class_len(ops@, OpClass::Query) == q.len(),
            class_len(ops@, OpClass::Reference) == t.len(),
            q == query@,
            t == reference@,
            qp == class_len(ops@.subrange(0, x as int), OpClass::Query),
            tp == class_len(ops@.subrange(0, x as int), OpClass::Reference),
            ev@ == md_events(ops@.subrange(0, x as int), q, t),
        decreases ops@.len() - x,
    {
        let o = ops[x];
        let ghost prefix = ops@.subrange(0, x as int);
        let ghost base = ev@;
        proof {
            assert(ops@.subrange(0, x + 1).drop_last() =~= prefix);
            assert(ops@.subrange(0, x + 1).last() == o);
            lemma_class_prefix(ops@, x + 1, OpClass::Query);
            lemma_class_prefix(ops@, x + 1, OpClass::Reference);
        }
        let cq = is_in_class(o.code, OpClass::Query);
        let ct = is_in_class(o.code, OpClass::Reference);
        assert(class_len(ops@.subrange(0, x + 1), OpClass::Query) == qp + if cq {
            o.len as nat
        } else {
            0
        });
        assert(class_len(ops@.subrange(0, x + 1), OpClass::Reference) == tp + if ct {
            o.len as nat
        } else {
            0
        });
        let aligned = cq && ct;
        let deleted = o.code == CigarCode::Deletion;
        let ghost run = run_events(o, q, t, qp as nat, tp as nat);
        if aligned || deleted {
            let mut k: usize = 0;
            while k < o.len
                invariant
                    0 <= k <= o.len,
                    aligned || deleted,
                    aligned ==> qp + o.len <= q.len(),
                    tp + o.len <= t.len(),
                    qn == q.len(),
                    tn == t.len(),
                    q == query@,
                    t == reference@,
                    run == run_events(o, q, t, qp as nat, tp as nat),
                    aligned == (o.code.consumes_query() && o.code.consumes_reference()),
                    deleted == (o.code == CigarCode::Deletion),
                    ev@ == base + run.subrange(0, k as int),
                decreases o.len - k,
            {
                let e = if aligned {
                    if query[qp + k] == reference[tp + k] {
                        MdEvent::Same
                    } else {
                        MdEvent::Diff(reference[tp + k])
                    }
                } else {
                    MdEvent::Deleted(reference[tp + k])
                };
                assert(e == run[k as int]);
                ev.push(e);
                assert(run.subrange(0, k + 1) =~= run.subrange(0, k as int).push(e));
                k = k + 1;
            }
            assert(run.subrange(0, o.len as int) =~= run);
        } else {
            assert(run =~= Seq::<MdEvent>::empty());
            assert(base + run =~= base);
        }
        if cq {
            qp = qp + o.len;
        }
        if ct {
            tp = tp + o.len;
        }
        x = x + 1;
    }
    assert(ops@.subrange(0, ops@.len() as int) =~= ops@);
    let ghost events = ev@;
    let mut out = String::new();
    let mut count: usize = 0;
    let mut in_del = false;
    let mut i: usize = 0;
    while i < ev.len()
        invariant
            events == ev@,
            i <= events.len(),
            count <= i,
            out@ + md_text(events, i as nat, count as nat, in_del) == md_text(events, 0, 0, false),
        decreases events.len() - i,
    {
        let ghost before = out@;
        let ghost rest = md_text(events, (i + 1) as nat, 0, true);
        let ghost rest_free = md_text(events, (i + 1) as nat, 0, false);
        match ev[i] {
            MdEvent::Same => {
                count = count + 1;
                in_del = false;
            },
            MdEvent::Diff(b) => {
                let ghost d = decimal(count as nat);
                push_decimal(&mut out, count);
                push_char(&mut out, b as char);
                assert(out@ + rest_free =~= before + (d.push(b as char) + rest_free));
                count = 0;
                in_del = false;
            },
            MdEvent::Deleted(b) => {
                let ghost d = decimal(count as nat);
                if !in_del {
                    push_decimal(&mut out, count);
                    push_char(&mut out, '^');
                    push_char(&mut out, b as char);
                    assert(out@ + rest =~= before + (d.push('^').push(b as char) + rest));
                } else {
                    push_char(&mut out, b as char);
                    assert(out@ + rest =~= before + (seq![b as char] + rest));
                }
                count = 0;
                in_del = true;
            },
        }
        i = i + 1;
    }
    let ghost before = out@;
    push_decimal(&mut out, count);
    Ok(out)
}

proof fn lemma_merged_positive(ops: Seq<CigarOp>)
    requires
        lengths_positive(ops),
        total_len(ops) <= usize::MAX,
    ensures
        lengths_positive(merged(ops)),
    decreases ops.len(),
{
    if ops.len() > 0 {
        let p = ops.drop_last();
        assert(lengths_positive(p)) by {
            assert forall|x: int| 0 <= x < p.len() implies #[trigger] p[x].len > 0 by {
                assert(p[x] == ops[x]);
            }
        }
        lemma_merged_positive(p);
        lemma_merged_total(p);
        let m = merged(p);
        assert(ops.last() == ops[ops.len() - 1]);
        if m.len() > 0 && m.last().code == ops.last().code {
            assert(m.drop_last().push(m.last()) =~= m);
            assert(total_len(m) == total_len(m.drop_last()) + m.last().len);
        }
    }
}

proof fn lemma_reversed_total(ops: Seq<CigarOp>)
    ensures
        total_len(reversed_ops(ops)) == total_len(ops),
    decreases ops.len(),
{
    if ops.len() > 0 {
        lemma_reversed_total(ops.drop_last());
        assert(reversed_ops(ops) =~= seq![ops.last()] + reversed_ops(ops.drop_last()));
        lemma_total_len_append(seq![ops.last()], reversed_ops(ops.drop_last()));
        assert(seq![ops.last()].drop_last() =~= Seq::<CigarOp>::empty());
        assert(total_len(seq![ops.last()]) == total_len(Seq::<CigarOp>::empty()) + ops.last().len);
        assert(total_len(ops) == total_len(ops.drop_last()) + ops.last().len);
    }
}

/// Merging the runs of a CIGAR string, as text, is idempotent: the merged text parses to the
/// merged runs, and merging those again writes the same text.
pub proof fn lemma_merge_cigar_idempotent(s: Seq<char>)
    requires
        cigar_of(s) is Some,
    ensures
        cigar_of(render(merged(cigar_of(s)->Some_0))) == Some(merged(cigar_of(s)->Some_0)),
        render(merged(merged(cigar_of(s)->Some_0))) == render(merged(cigar_of(s)->Some_0)),
{
    let ops = cigar_of(s)->Some_0;
    lemma_parse_positive(s);
    lemma_merged_positive(ops);
    lemma_merged_total(ops);
    lemma_parse_render(merged(ops));
    lemma_merge_idempotent(ops);
}

/// Reversing a CIGAR string, as text, twice gives back its runs: the reversed text parses to
/// the reversed runs, and reversing those again writes text that parses to the runs of `s`.
pub proof fn lemma_reverse_cigar_twice(s: Seq<char>)
    requires
        cigar_of(s) is Some,
    ensures
        cigar_of(render(reversed_ops(cigar_of(s)->Some_0))) == Some(
            reversed_ops(cigar_of(s)->Some_0),
        ),
        cigar_of(render(reversed_ops(reversed_ops(cigar_of(s)->Some_0)))) == cigar_of(s),
{
    let ops = cigar_of(s)->Some_0;
    lemma_parse_positive(s);
    lemma_reversed_total(ops);
    let rev = reversed_ops(ops);
    assert(lengths_positive(rev)) by {
        assert forall|x: int| 0 <= x < rev.len() implies #[trigger] rev[x].len > 0 by {
            assert(rev[x] == ops[ops.len() - 1 - x]);
        }
    }
    lemma_parse_render(rev);
    lemma_reverse_involutive(ops);
    lemma_parse_render(ops);
}

/// For an alignment result, the CIGAR text of its rows parses back to their runs, and once
/// `=` and `X` are folded into `M` the text of those runs parses to runs that consume exactly
/// the query and target lengths the result's coordinates span.
pub proof fn lemma_cigar_text_matches_coordinates(
    r: AlignmentResult,
    mode: AlignmentMode,
    sc: ScoringScheme,
    q: Seq<u8>,
    t: Seq<u8>,
)
    requires
        r.is_alignment_of(mode, sc, q, t),
        gap_free(q),
        gap_free(t),
        r.aligned_query@.len() <= usize::MAX,
    ensures
        ({
            let ops = alignment_ops(r.aligned_query@, r.aligned_target@);
            &&& cigar_of(render(ops)) == Some(ops)
            &&& cigar_of(render(collapsed(ops))) == Some(collapsed(ops))
            &&& class_len(collapsed(ops), OpClass::Query) == r.query_end - r.query_start
            &&& class_len(collapsed(ops), OpClass::Reference) == r.target_end - r.target_start
        }),
{
    lemma_cigar_matches_coordinates(r, mode, sc, q, t);
    let aq = r.aligned_query@;
    let at = r.aligned_target@;
    let cols = column_ops(aq, at);
    lemma_column_ops_total(aq, at);
    assert(lengths_positive(cols));
    lemma_merged_positive(cols);
    lemma_merged_total(cols);
    let ops = merged(cols);
    lemma_parse_render(ops);
    let rec = recoded(ops, false);
    lemma_recoded_total(ops, false);
    assert(lengths_positive(rec)) by {
        assert forall|x: int| 0 <= x < rec.len() implies #[trigger] rec[x].len > 0 by {
            assert(rec[x].len == ops[x].len);
        }
    }
    lemma_merged_positive(rec);
    lemma_merged_total(rec);
    lemma_parse_render(collapsed(ops));
}

} // verus!
