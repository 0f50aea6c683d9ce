use vstd::prelude::*;

use crate::error::AlignError;
use crate::scoring::MAX_ALIGN_LEN;
use crate::pairwise::reversed;

verus! {

/// Scores for aligning a sequence to a partial-order graph: a linear gap score per residue.
#[derive(Clone, Copy, Debug, PartialEq, Eq, Structural)]
pub struct PoaScoring {
    pub match_score: i32,
    pub mismatch_score: i32,
    pub gap_score: i32,
}

/// A directed edge between two nodes, with the number of sequences that took it.
#[derive(Clone, Copy, Debug, PartialEq, Eq, Structural)]
pub struct PoaEdge {
    pub from: usize,
    pub to: usize,
    pub weight: usize,
}

/// A partial-order alignment graph. Nodes are kept in a topological order: every edge
/// goes from a lower node index to a higher one, so the graph is acyclic by construction.
/// Each node holds one residue and how many sequences pass through it.
#[derive(Clone, Debug)]
pub struct PoaGraph {
    pub bases: Vec<u8>,
    pub counts: Vec<usize>,
    pub edges: Vec<PoaEdge>,
    pub n_sequences: usize,
    /// Sum of the node counts: every residue of every sequence threaded so far.
    pub total: usize,
}

/// Sum of a sequence of counts.
pub open spec fn sum(s: Seq<usize>) -> nat
    decreases s.len(),
{
    if s.len() == 0 {
        0
    } else {
        sum(s.drop_last()) + s.last() as nat
    }
}

/// Heaviest weight of a path that ends at node `v`, over the edges `edges[0..k]` that enter
/// `v` (a path may also start at `v`, weighing zero).
pub open spec fn heaviest_in(edges: Seq<PoaEdge>, v: nat, k: nat) -> nat
    decreases v, k,
{
    if k == 0 || k > edges.len() {
        0
    } else {
        let e = edges[k - 1];
        let rest = heaviest_in(edges, v, (k - 1) as nat);
        if e.to == v && e.from < v {
            let via = heaviest_in(edges, e.from as nat, edges.len()) + e.weight as nat;
            if via > rest {
                via
            } else {
                rest
            }
        } else {
            rest
        }
    }
}

/// Heaviest weight of a path that ends at node `v`.
pub open spec fn heaviest_to(edges: Seq<PoaEdge>, v: nat) -> nat {
    heaviest_in(edges, v, edges.len())
}

/// The predecessor through which the heaviest path to `v` arrives, looking at
/// `edges[0..k]`: the first edge that reaches the heaviest weight, if any edge adds weight.
pub open spec fn best_pred_in(edges: Seq<PoaEdge>, v: nat, k: nat) -> Option<nat>
    decreases k,
{
    if k == 0 || k > edges.len() {
        None
    } else {
        let e = edges[k - 1];
        let rest = best_pred_in(edges, v, (k - 1) as nat);
        if e.to == v && e.from < v && heaviest_in(edges, e.from as nat, edges.len()) + e.weight
            > heaviest_in(edges, v, (k - 1) as nat) {
            Some(e.from as nat)
        } else {
            rest
        }
    }
}

/// The heaviest path that ends at `v`, as node indices, following `best_pred_in`.
pub open spec fn heaviest_path(edges: Seq<PoaEdge>, v: nat) -> Seq<nat>
    decreases v,
{
    match best_pred_in(edges, v, edges.len()) {
        Some(p) => if p < v {
            heaviest_path(edges, p).push(v)
        } else {
            seq![v]
        },
        None => seq![v],
    }
}

impl PoaGraph {
    /// Sizes agree, every edge goes forward in node order between existing nodes, no edge is
    /// heavier than the count of the node it enters, and `total` is the sum of the counts.
    pub open spec fn wf(&self) -> bool {
        &&& self.bases@.len() == self.counts@.len()
        &&& self.total == sum(self.counts@)
        &&& forall|x: int|
            0 <= x < self.edges@.len() ==> {
                &&& #[trigger] self.edges@[x].from < self.edges@[x].to
                &&& self.edges@[x].to < self.bases@.len()
                &&& self.edges@[x].weight <= self.counts@[self.edges@[x].to as int]
            }
    }

    /// Number of nodes.
    pub fn node_count(&self) -> (r: usize)
        ensures
            r == self.bases@.len(),
    {
        self.bases.len()
    }

    /// Weight of the edge from `from` to `to`, if there is one.
    pub fn edge_weight(&self, from: usize, to: usize) -> (r: Option<usize>)
        ensures
            r is Some <==> exists|x: int|
                0 <= x < self.edges@.len() && #[trigger] self.edges@[x].from == from
                    && self.edges@[x].to == to,
            r is Some ==> exists|x: int|
                0 <= x < self.edges@.len() && #[trigger] self.edges@[x].from == from
                    && self.edges@[x].to == to && self.edges@[x].weight == r->Some_0,
    {
        let mut x: usize = 0;
        while x < self.edges.len()
            invariant
                x <= self.edges@.len(),
                forall|y: int|
                    0 <= y < x ==> !(#[trigger] self.edges@[y].from == from && self.edges@[y].to
                        == to),
            decreases self.edges@.len() - x,
        {
            let e = self.edges[x];
            if e.from == from && e.to == to {
                return Some(e.weight);
            }
            x = x + 1;
        }
        None
    }
}

proof fn lemma_sum_push(s: Seq<usize>, v: usize)
    ensures
        sum(s.push(v)) == sum(s) + v,
{
    assert(s.push(v).drop_last() =~= s);
}

proof fn lemma_sum_update(s: Seq<usize>, i: int, v: usize)
    requires
        0 <= i < s.len(),
    ensures
        sum(s.update(i, v)) == sum(s) - s[i] + v,
        s[i] <= sum(s),
    decreases s.len(),
{
    if i < s.len() - 1 {
        lemma_sum_update(s.drop_last(), i, v);
        assert(s.update(i, v).drop_last() =~= s.drop_last().update(i, v));
    } else {
        assert(s.update(i, v).drop_last() =~= s.drop_last());
    }
}

proof fn lemma_sum_insert(s: Seq<usize>, i: int, v: usize)
    requires
        0 <= i <= s.len(),
    ensures
        sum(s.insert(i, v)) == sum(s) + v,
    decreases s.len(),
{
    if i == s.len() {
        assert(s.insert(i, v) =~= s.push(v));
        lemma_sum_push(s, v);
    } else {
        lemma_sum_insert(s.drop_last(), i, v);
        assert(s.insert(i, v).drop_last() =~= s.drop_last().insert(i, v));
        assert(s.insert(i, v).last() == s.last());
    }
}

impl PoaGraph {
    /// A chain of one node per residue of `seq`, each edge of weight one.
    pub fn from_sequence(seq: &[u8]) -> (r: PoaGraph)
        ensures
            r.wf(),
            r.bases@ == seq@,
            r.counts@ == Seq::new(seq@.len(), |x: int| 1usize),
            r.edges@ == Seq::new(
                (if seq@.len() > 0 { seq@.len() - 1 } else { 0 }) as nat,
                |x: int| PoaEdge { from: x as usize, to: (x + 1) as usize, weight: 1 },
            ),
            r.n_sequences == 1,
            r.total == seq@.len(),
    {
        let mut bases: Vec<u8> = Vec::new();
        let mut counts: Vec<usize> = Vec::new();
        let mut edges: Vec<PoaEdge> = Vec::new();
        let mut x: usize = 0;
        while x < seq.len()
            invariant
                x <= seq@.len(),
                bases@ == seq@.subrange(0, x as int),
                counts@ == Seq::new(x as nat, |y: int| 1usize),
                sum(counts@) == x,
                edges@ == Seq::new(
                    (if x > 0 { x - 1 } else { 0 }) as nat,
                    |y: int| PoaEdge { from: y as usize, to: (y + 1) as usize, weight: 1 },
                ),
            decreases seq@.len() - x,
        {
            if x > 0 {
                edges.push(PoaEdge { from: x - 1, to: x, weight: 1 });
            }
            proof {
                lemma_sum_push(counts@, 1);
            }
            bases.push(seq[x]);
            counts.push(1);
            x = x + 1;
            assert(bases@ =~= seq@.subrange(0, x as int));
            assert(counts@ =~= Seq::new(x as nat, |y: int| 1usize));
            assert(edges@ =~= Seq::new(
                (if x > 0 { x - 1 } else { 0 }) as nat,
                |y: int| PoaEdge { from: y as usize, to: (y + 1) as usize, weight: 1 },
            ));
        }
        assert(bases@ =~= seq@);
        PoaGraph { bases, counts, edges, n_sequences: 1, total: x }
    }
}

/// Node `v` ends the heaviest path of the graph: no node has a heavier path ending at it,
/// and no earlier node has an equally heavy one.
pub open spec fn is_heaviest_end(edges: Seq<PoaEdge>, n: nat, v: nat) -> bool {
    &&& v < n
    &&& forall|u: nat|
        u < n ==> #[trigger] heaviest_to(edges, u) <= heaviest_to(edges, v) && (heaviest_to(
            edges,
            u,
        ) == heaviest_to(edges, v) ==> v <= u)
}

/// The residues along a path of nodes.
pub open spec fn path_bases(bases: Seq<u8>, path: Seq<nat>) -> Seq<u8> {
    Seq::new(path.len(), |x: int| bases[path[x] as int])
}

proof fn lemma_prefix_sum(s: Seq<usize>, a: int, b: int)
    requires
        0 <= a <= b <= s.len(),
    ensures
        sum(s.subrange(0, a)) <= sum(s.subrange(0, b)),
    decreases b - a,
{
    if a < b {
        lemma_prefix_sum(s, a, b - 1);
        assert(s.subrange(0, b).drop_last() =~= s.subrange(0, b - 1));
    }
}


proof fn lemma_best_pred_lt(edges: Seq<PoaEdge>, v: nat, k: nat)
    ensures
        best_pred_in(edges, v, k) matches Some(p) ==> p < v,
    decreases k,
{
    if k > 0 && k <= edges.len() {
        lemma_best_pred_lt(edges, v, (k - 1) as nat);
    }
}

impl PoaGraph {
    /// The consensus: the residues along the heaviest path of the graph (the path whose edge
    /// weights add up to the most), found by dynamic programming over the topological order.
    pub fn consensus(&self) -> (r: Vec<u8>)
        requires
            self.wf(),
        ensures
            self.bases@.len() == 0 ==> r@.len() == 0,
            self.bases@.len() > 0 ==> exists|v: nat|
                is_heaviest_end(self.edges@, self.bases@.len(), v) && r@ == path_bases(
                    self.bases@,
                    heaviest_path(self.edges@, v),
                ),
    {
        let n = self.bases.len();
        if n == 0 {
            return Vec::new();
        }
        let ghost edges = self.edges@;
        let ghost counts = self.counts@;
        let mut score: Vec<usize> = Vec::new();
        let mut pred: Vec<Option<usize>> = Vec::new();
        let mut v: usize = 0;
        while v < n
            invariant
                self.wf(),
                n == self.bases@.len(),
                edges == self.edges@,
                counts == self.counts@,
                v <= n,
                score@.len() == v,
                pred@.len() == v,
                forall|u: int| 0 <= u < v ==> #[trigger] score@[u] == heaviest_to(edges, u as nat),
                forall|u: int|
                    0 <= u < v ==> #[trigger] pred@[u] == match best_pred_in(
                        edges,
                        u as nat,
                        edges.len(),
                    ) {
                        Some(p) => Some(p as usize),
                        None => None::<usize>,
                    },
                forall|u: int|
                    0 <= u < v ==> (#[trigger] score@[u]) <= sum(counts.subrange(0, u + 1)),
            decreases n - v,
        {
            let mut best: usize = 0;
            let mut bp: Option<usize> = None;
            let mut k: usize = 0;
            proof {
                lemma_prefix_sum(counts, v as int, v + 1);
                assert(counts.subrange(0, v + 1).drop_last() =~= counts.subrange(0, v as int));
                lemma_prefix_sum(counts, v + 1, counts.len() as int);
                assert(counts.subrange(0, counts.len() as int) =~= counts);
            }
            while k < self.edges.len()
                invariant
                    self.wf(),
                    n == self.bases@.len(),
                    edges == self.edges@,
                    counts == self.counts@,
                    v < n,
                    k <= edges.len(),
                    score@.len() == v,
                    forall|u: int| 0 <= u < v ==> #[trigger] score@[u] == heaviest_to(edges, u as nat),
                    forall|u: int|
                        0 <= u < v ==> (#[trigger] score@[u]) <= sum(counts.subrange(0, u + 1)),
                    sum(counts.subrange(0, v + 1)) == sum(counts.subrange(0, v as int)) + counts[v as int],
                    sum(counts.subrange(0, v + 1)) <= sum(counts),
                    sum(counts) == self.total,
                    best == heaviest_in(edges, v as nat, k as nat),
                    best <= sum(counts.subrange(0, v + 1)),
                    bp == match best_pred_in(edges, v as nat, k as nat) {
                        Some(p) => Some(p as usize),
                        None => None::<usize>,
                    },
                decreases edges.len() - k,
            {
                let e = self.edges[k];
                if e.to == v && e.from < v {
                    proof {
                        lemma_prefix_sum(counts, e.from + 1, v as int);
                    }
                    let via = score[e.from] + e.weight;
                    if via > best {
                        best = via;
                        bp = Some(e.from);
                    }
                }
                k = k + 1;
            }
            score.push(best);
            pred.push(bp);
            v = v + 1;
        }
        // the heaviest end: first node of greatest score
        let mut end: usize = 0;
        let mut u: usize = 1;
        while u < n
            invariant
                n == self.bases@.len(),
                edges == self.edges@,
                score@.len() == n,
                forall|x: int| 0 <= x < n ==> #[trigger] score@[x] == heaviest_to(edges, x as nat),
                1 <= u <= n,
                end < u,
                forall|x: nat|
                    x < u ==> #[trigger] heaviest_to(edges, x) <= heaviest_to(edges, end as nat) && (
                    heaviest_to(edges, x) == heaviest_to(edges, end as nat) ==> end <= x),
            decreases n - u,
        {
            assert(score@[u as int] == heaviest_to(edges, u as nat));
            assert(score@[end as int] == heaviest_to(edges, end as nat));
            if score[u] > score[end] {
                end = u;
            }
            u = u + 1;
        }
        // walk back along the best predecessors
        let ghost full = path_bases(self.bases@, heaviest_path(edges, end as nat));
        let mut rev: Vec<u8> = Vec::new();
        let mut cur: usize = end;
        assert(full =~= path_bases(self.bases@, heaviest_path(edges, cur as nat)) + crate::pairwise::reversed(rev@));
        loop
            invariant_except_break
                full == path_bases(self.bases@, heaviest_path(edges, cur as nat)) + crate::pairwise::reversed(rev@),
            invariant
                self.wf(),
                n == self.bases@.len(),
                edges == self.edges@,
                cur < n,
                pred@.len() == n,
                forall|x: int|
                    0 <= x < n ==> #[trigger] pred@[x] == match best_pred_in(
                        edges,
                        x as nat,
                        edges.len(),
                    ) {
                        Some(p) => Some(p as usize),
                        None => None::<usize>,
                    },
            ensures
                full == crate::pairwise::reversed(rev@),
            decreases cur,
        {
            let b = self.bases[cur];
            let ghost here = heaviest_path(edges, cur as nat);
            let ghost old_rev = rev@;
            proof {
                lemma_best_pred_lt(edges, cur as nat, edges.len());
            }
            rev.push(b);
            match pred[cur] {
                Some(p) => {
                    if p < cur {
                        let ghost before = heaviest_path(edges, p as nat);
                        assert(here == before.push(cur as nat));
                        assert(path_bases(self.bases@, here) + crate::pairwise::reversed(old_rev) =~= path_bases(self.bases@, before) + crate::pairwise::reversed(rev@));
                        cur = p;
                    } else {
                        assert(here == seq![cur as nat]);
                        assert(path_bases(self.bases@, here) + crate::pairwise::reversed(old_rev) =~= crate::pairwise::reversed(rev@));
                        break ;
                    }
                },
                None => {
                    assert(here == seq![cur as nat]);
                    assert(path_bases(self.bases@, here) + crate::pairwise::reversed(old_rev) =~= crate::pairwise::reversed(rev@));
                    break ;
                },
            }
        }
        let out = crate::pairwise::reverse_bytes(&rev);
        assert(out@ =~= full);
        assert(is_heaviest_end(self.edges@, self.bases@.len(), end as nat));
        out
    }
}

/// Node index `x` after a node is inserted at index `pos`.
pub open spec fn shift_index(x: usize, pos: usize) -> usize {
    if x >= pos {
        (x + 1) as usize
    } else {
        x
    }
}

/// The edges renumbered for a node inserted at index `pos`.
pub open spec fn shifted_edges(edges: Seq<PoaEdge>, pos: usize) -> Seq<PoaEdge> {
    Seq::new(
        edges.len(),
        |k: int|
            PoaEdge {
                from: shift_index(edges[k].from, pos),
                to: shift_index(edges[k].to, pos),
                weight: edges[k].weight,
            },
    )
}

/// `edges` with the first edge `from -> to` at or after index `k` one heavier, or, if
/// there is none, with that edge added at weight one.
pub open spec fn connect_from(edges: Seq<PoaEdge>, from: usize, to: usize, k: nat) -> Seq<PoaEdge>
    decreases edges.len() - k,
{
    if k >= edges.len() {
        edges.push(PoaEdge { from, to, weight: 1 })
    } else if edges[k as int].from == from && edges[k as int].to == to {
        edges.update(k as int, PoaEdge { from, to, weight: (edges[k as int].weight + 1) as usize })
    } else {
        connect_from(edges, from, to, k + 1)
    }
}

/// `edges` after one more sequence takes the edge `from -> to`.
pub open spec fn connected(edges: Seq<PoaEdge>, from: usize, to: usize) -> Seq<PoaEdge> {
    connect_from(edges, from, to, 0)
}

/// A graph's residues, counts and edges.
pub type GraphView = (Seq<u8>, Seq<usize>, Seq<PoaEdge>);

/// Threads the columns `rev[0..x]`, taken from the last one down (that is, in alignment
/// order), into the graph `g`: a residue aligned to node `v` (renumbered by the `inserted`
/// nodes added so far) adds one to its count; an inserted residue becomes a new node, counted
/// once, at the index right after the previous node of the sequence (`prev`); and each node of
/// the sequence after the first is joined to the previous one (`connected`), where that edge
/// runs forward in the node order.
pub open spec fn thread_from(
    g: GraphView,
    seq: Seq<u8>,
    rev: Seq<GraphColumn>,
    x: nat,
    prev: Option<usize>,
    inserted: nat,
) -> GraphView
    decreases x,
{
    if x == 0 || x > rev.len() {
        g
    } else {
        match rev[x - 1] {
            (Some(v), Some(_)) => {
                let idx = (v + inserted) as usize;
                let counts = g.1.update(idx as int, (g.1[idx as int] + 1) as usize);
                let edges = match prev {
                    Some(p) => if p < idx {
                        connected(g.2, p, idx)
                    } else {
                        g.2
                    },
                    None => g.2,
                };
                thread_from((g.0, counts, edges), seq, rev, (x - 1) as nat, Some(idx), inserted)
            },
            (None, Some(j)) => {
                let pos: usize = match prev {
                    Some(p) => (p + 1) as usize,
                    None => 0,
                };
                let shifted = shifted_edges(g.2, pos);
                let edges = match prev {
                    Some(p) => connected(shifted, p, pos),
                    None => shifted,
                };
                thread_from(
                    (g.0.insert(pos as int, seq[j as int]), g.1.insert(pos as int, 1), edges),
                    seq,
                    rev,
                    (x - 1) as nat,
                    Some(pos),
                    inserted + 1,
                )
            },
            _ => thread_from(g, seq, rev, (x - 1) as nat, prev, inserted),
        }
    }
}

/// The graph `g` after `seq` is aligned to it and threaded in.
pub open spec fn added(g: GraphView, seq: Seq<u8>, sc: PoaScoring) -> GraphView {
    let cols = graph_alignment(g.0, g.2, seq, sc);
    thread_from(g, seq, cols, cols.len(), None, 0)
}

/// The chain graph of one sequence.
pub open spec fn chain(seq: Seq<u8>) -> GraphView {
    (
        seq,
        Seq::new(seq.len(), |x: int| 1usize),
        Seq::new(
            (if seq.len() > 0 { seq.len() - 1 } else { 0 }) as nat,
            |x: int| PoaEdge { from: x as usize, to: (x + 1) as usize, weight: 1 },
        ),
    )
}

/// The graph built from `seqs[0..k]`: the chain of the first, then each further sequence
/// added in order.
pub open spec fn poa_build(seqs: Seq<Vec<u8>>, sc: PoaScoring, k: nat) -> GraphView
    decreases k,
{
    if k <= 1 {
        chain(if seqs.len() > 0 { seqs[0]@ } else { Seq::empty() })
    } else {
        added(poa_build(seqs, sc, (k - 1) as nat), seqs[k - 1]@, sc)
    }
}

/// One column of an alignment of a sequence to the graph: a node, a query position, or both.
pub type GraphColumn = (Option<usize>, Option<usize>);

/// Number of columns that hold a query position.
pub open spec fn query_columns(cols: Seq<GraphColumn>) -> nat
    decreases cols.len(),
{
    if cols.len() == 0 {
        0
    } else {
        query_columns(cols.drop_last()) + if cols.last().1 is Some { 1nat } else { 0nat }
    }
}

proof fn lemma_query_columns_append(a: Seq<GraphColumn>, b: Seq<GraphColumn>)
    ensures
        query_columns(a + b) == query_columns(a) + query_columns(b),
    decreases b.len(),
{
    if b.len() == 0 {
        assert(a + b =~= a);
    } else {
        lemma_query_columns_append(a, b.drop_last());
        assert((a + b).drop_last() =~= a + b.drop_last());
    }
}

/// Whether some edge leaves node `v`.
pub open spec fn has_succ_node(edges: Seq<PoaEdge>, v: nat) -> bool {
    exists|y: int| 0 <= y < edges.len() && edges[y].from == v
}

/// Scans nodes `a..` for the node without successors whose alignment of the whole query
/// scores best (the first one among equals), starting from the choice `cur`.
pub open spec fn end_from(
    bases: Seq<u8>,
    edges: Seq<PoaEdge>,
    seq: Seq<u8>,
    sc: PoaScoring,
    a: nat,
    cur: Option<usize>,
) -> Option<usize>
    decreases bases.len() - a,
{
    if a >= bases.len() {
        cur
    } else {
        let m = seq.len();
        let next = if !has_succ_node(edges, a) {
            match cur {
                None => Some(a as usize),
                Some(c) => if poa_h(bases, edges, seq, sc, a, m) > poa_h(
                    bases,
                    edges,
                    seq,
                    sc,
                    c as nat,
                    m,
                ) {
                    Some(a as usize)
                } else {
                    cur
                },
            }
        } else {
            cur
        };
        end_from(bases, edges, seq, sc, a + 1, next)
    }
}

/// The first predecessor `ps[x..]` of `v` through which the traceback can leave cell
/// `(v, j)` of value `hv`: a diagonal move (`true`) is tried before a vertical one.
pub open spec fn choose_spec(
    bases: Seq<u8>,
    edges: Seq<PoaEdge>,
    seq: Seq<u8>,
    sc: PoaScoring,
    v: nat,
    j: nat,
    hv: int,
    s: int,
    x: nat,
) -> Option<(usize, bool)>
    decreases preds_of(edges, v).len() - x,
{
    let ps = preds_of(edges, v);
    if x >= ps.len() {
        None
    } else {
        let p = ps[x as int];
        if j >= 1 && hv == poa_h(bases, edges, seq, sc, p as nat, (j - 1) as nat) + s {
            Some((p, true))
        } else if hv == poa_h(bases, edges, seq, sc, p as nat, j) + sc.gap_score {
            Some((p, false))
        } else {
            choose_spec(bases, edges, seq, sc, v, j, hv, s, x + 1)
        }
    }
}

/// The traceback of the graph alignment from node `cur` (or the virtual start, `None`) at
/// query position `j`, appending the columns, last first, to `acc`: a move that gives the
/// cell's value is taken (diagonal before vertical, predecessors in edge order), otherwise a
/// query residue is inserted.
pub open spec fn graph_trace(
    bases: Seq<u8>,
    edges: Seq<PoaEdge>,
    seq: Seq<u8>,
    sc: PoaScoring,
    cur: Option<usize>,
    j: nat,
    acc: Seq<GraphColumn>,
) -> Seq<GraphColumn>
    decreases (match cur {
        Some(c) => c + 1,
        None => 0,
    }), j,
{
    match cur {
        None => if j == 0 {
            acc
        } else {
            graph_trace(
                bases,
                edges,
                seq,
                sc,
                None,
                (j - 1) as nat,
                acc.push((None, Some((j - 1) as usize))),
            )
        },
        Some(v) => if v >= bases.len() || j > seq.len() {
            acc
        } else {
            let hv = poa_h(bases, edges, seq, sc, v as nat, j);
            let gap = sc.gap_score as int;
            let s = if j >= 1 {
                pair_val(sc, bases[v as int], seq[j - 1])
            } else {
                0
            };
            let ps = preds_of(edges, v as nat);
            if ps.len() == 0 {
                if j >= 1 && hv == (j - 1) * gap + s {
                    graph_trace(bases, edges, seq, sc, None, (j - 1) as nat, acc.push((Some(v), Some((j - 1) as usize))))
                } else if hv == j * gap + gap {
                    graph_trace(bases, edges, seq, sc, None, j, acc.push((Some(v), None)))
                } else if j >= 1 {
                    graph_trace(bases, edges, seq, sc, Some(v), (j - 1) as nat, acc.push((None, Some((j - 1) as usize))))
                } else {
                    graph_trace(bases, edges, seq, sc, None, j, acc.push((Some(v), None)))
                }
            } else {
                match choose_spec(bases, edges, seq, sc, v as nat, j, hv, s, 0) {
                    Some((p, diag)) => if p < v && diag && j >= 1 {
                        graph_trace(bases, edges, seq, sc, Some(p), (j - 1) as nat, acc.push((Some(v), Some((j - 1) as usize))))
                    } else if p < v && !diag {
                        graph_trace(bases, edges, seq, sc, Some(p), j, acc.push((Some(v), None)))
                    } else {
                        acc
                    },
                    None => if j >= 1 {
                        graph_trace(bases, edges, seq, sc, Some(v), (j - 1) as nat, acc.push((None, Some((j - 1) as usize))))
                    } else if ps[0] < v {
                        graph_trace(bases, edges, seq, sc, Some(ps[0]), j, acc.push((Some(v), None)))
                    } else {
                        acc
                    },
                }
            }
        },
    }
}

/// The columns, last first, of the alignment of `seq` to the graph: the traceback from the
/// best node without successors at the end of the query.
pub open spec fn graph_alignment(
    bases: Seq<u8>,
    edges: Seq<PoaEdge>,
    seq: Seq<u8>,
    sc: PoaScoring,
) -> Seq<GraphColumn> {
    graph_trace(bases, edges, seq, sc, end_from(bases, edges, seq, sc, 0, None), seq.len(), Seq::empty())
}

/// Bound on what one column adds to or takes from a graph alignment score.
pub const POA_STEP: i64 = 2147483648;

/// Score of aligning residue `a` with residue `b`.
pub open spec fn pair_val(sc: PoaScoring, a: u8, b: u8) -> int {
    if a == b {
        sc.match_score as int
    } else {
        sc.mismatch_score as int
    }
}

/// Sources of the edges `edges[0..k]` that enter `v`, in edge order.
pub open spec fn pred_list(edges: Seq<PoaEdge>, v: nat, k: nat) -> Seq<usize>
    decreases k,
{
    if k == 0 || k > edges.len() {
        Seq::empty()
    } else {
        let rest = pred_list(edges, v, (k - 1) as nat);
        if edges[k - 1].to == v {
            rest.push(edges[k - 1].from)
        } else {
            rest
        }
    }
}

/// Sources of all edges that enter `v`, in edge order.
pub open spec fn preds_of(edges: Seq<PoaEdge>, v: nat) -> Seq<usize> {
    pred_list(edges, v, edges.len())
}

/// Best score of aligning `seq[0..j]` to a path from a source node to node `v` that ends
/// with node `v` (matched to `seq[j - 1]`, or to a gap): the larger of a move from each
/// predecessor (or, for a source, from the virtual start row), and a query residue inserted
/// after `v`. Gaps score `gap_score` per residue.
pub open spec fn poa_h(
    bases: Seq<u8>,
    edges: Seq<PoaEdge>,
    seq: Seq<u8>,
    sc: PoaScoring,
    v: nat,
    j: nat,
) -> int
    decreases v, j, 1nat, 0nat,
{
    let ps = preds_of(edges, v);
    let gap = sc.gap_score as int;
    let s = if j >= 1 && v < bases.len() && j <= seq.len() {
        pair_val(sc, bases[v as int], seq[j - 1])
    } else {
        0
    };
    let from_preds = if ps.len() == 0 {
        let up = j * gap + gap;
        if j >= 1 {
            let diag = (j - 1) * gap + s;
            if diag > up {
                diag
            } else {
                up
            }
        } else {
            up
        }
    } else {
        let init = if ps[0] < v {
            poa_h(bases, edges, seq, sc, ps[0] as nat, j) + gap
        } else {
            0
        };
        poa_fold(bases, edges, seq, sc, v, j, ps.len(), init)
    };
    if j >= 1 {
        let left = poa_h(bases, edges, seq, sc, v, (j - 1) as nat) + gap;
        if left > from_preds {
            left
        } else {
            from_preds
        }
    } else {
        from_preds
    }
}

/// The moves from the first `k` predecessors of `v` folded into `init`: each vertical move
/// (node `v` against a gap) and each diagonal one (node `v` against `seq[j - 1]`) replaces
/// the running value when it is larger.
pub open spec fn poa_fold(
    bases: Seq<u8>,
    edges: Seq<PoaEdge>,
    seq: Seq<u8>,
    sc: PoaScoring,
    v: nat,
    j: nat,
    k: nat,
    init: int,
) -> int
    decreases v, j, 0nat, k,
{
    let ps = preds_of(edges, v);
    if k == 0 || k > ps.len() {
        init
    } else {
        let acc = poa_fold(bases, edges, seq, sc, v, j, (k - 1) as nat, init);
        let p = ps[k - 1];
        let gap = sc.gap_score as int;
        let s = if j >= 1 && v < bases.len() && j <= seq.len() {
            pair_val(sc, bases[v as int], seq[j - 1])
        } else {
            0
        };
        if p < v {
            let up = poa_h(bases, edges, seq, sc, p as nat, j) + gap;
            let acc2 = if up > acc {
                up
            } else {
                acc
            };
            if j >= 1 {
                let diag = poa_h(bases, edges, seq, sc, p as nat, (j - 1) as nat) + s;
                if diag > acc2 {
                    diag
                } else {
                    acc2
                }
            } else {
                acc2
            }
        } else {
            acc
        }
    }
}

fn pair_value(sc: &PoaScoring, a: u8, b: u8) -> (r: i64)
    ensures
        -POA_STEP <= r <= POA_STEP,
        r == pair_val(*sc, a, b),
{
    if a == b {
        sc.match_score as i64
    } else {
        sc.mismatch_score as i64
    }
}

/// Value of the virtual start row at query position `j`.
fn start_row(gap: i64, j: usize) -> (r: i64)
    requires
        -POA_STEP <= gap <= POA_STEP,
        j <= MAX_ALIGN_LEN,
    ensures
        -(j * POA_STEP) <= r <= j * POA_STEP,
        r == j * gap,
{
    assert(-(j * POA_STEP) <= j * gap <= j * POA_STEP) by (nonlinear_arith)
        requires
            -POA_STEP <= gap <= POA_STEP,
            0 <= j,
    ;
    assert(j * POA_STEP <= MAX_ALIGN_LEN * POA_STEP) by (nonlinear_arith)
        requires
            j <= MAX_ALIGN_LEN,
    ;
    (j as i64) * gap
}

/// The predecessor through which the traceback leaves node `v` at query position `j`: the
/// first one whose diagonal (`true`) or vertical (`false`) move gives the cell's value.
fn choose_pred(
    h: &Vec<Vec<i64>>,
    pv: &Vec<usize>,
    v: usize,
    j: usize,
    m: usize,
    s: i64,
    gap: i64,
    hv: i64,
    Ghost(bases): Ghost<Seq<u8>>,
    Ghost(edges): Ghost<Seq<PoaEdge>>,
    Ghost(seq): Ghost<Seq<u8>>,
    Ghost(sc): Ghost<PoaScoring>,
) -> (r: Option<(usize, bool)>)
    requires
        pv@ == preds_of(edges, v as nat),
        gap == sc.gap_score,
        m == seq.len(),
        forall|a: int, b: int|
            0 <= a < h@.len() && 0 <= b <= m ==> #[trigger] h@[a]@[b] == poa_h(
                bases,
                edges,
                seq,
                sc,
                a as nat,
                b as nat,
            ),
        v < h@.len(),
        j <= m,
        forall|y: int| 0 <= y < pv@.len() ==> #[trigger] pv@[y] < v,
        forall|a: int| 0 <= a < h@.len() ==> #[trigger] h@[a]@.len() == m + 1,
        forall|a: int, b: int|
            0 <= a < h@.len() && 0 <= b <= m ==> -((a + 1 + b) * POA_STEP) <= #[trigger] h@[a]@[b]
                <= (a + 1 + b) * POA_STEP,
        -POA_STEP <= gap <= POA_STEP,
        -POA_STEP <= s <= POA_STEP,
        h@.len() + m <= MAX_ALIGN_LEN,
    ensures
        r matches Some((p, diag)) ==> p < v && (diag ==> j >= 1),
        r == choose_spec(bases, edges, seq, sc, v as nat, j as nat, hv as int, s as int, 0),
{
    let mut x: usize = 0;
    while x < pv.len()
        invariant
            pv@ == preds_of(edges, v as nat),
            gap == sc.gap_score,
            m == seq.len(),
            forall|a: int, b: int|
                0 <= a < h@.len() && 0 <= b <= m ==> #[trigger] h@[a]@[b] == poa_h(
                    bases,
                    edges,
                    seq,
                    sc,
                    a as nat,
                    b as nat,
                ),
            choose_spec(bases, edges, seq, sc, v as nat, j as nat, hv as int, s as int, x as nat)
                == choose_spec(bases, edges, seq, sc, v as nat, j as nat, hv as int, s as int, 0),
            x <= pv@.len(),
            v < h@.len(),
            j <= m,
            forall|y: int| 0 <= y < pv@.len() ==> #[trigger] pv@[y] < v,
            forall|a: int| 0 <= a < h@.len() ==> #[trigger] h@[a]@.len() == m + 1,
            forall|a: int, b: int|
                0 <= a < h@.len() && 0 <= b <= m ==> -((a + 1 + b) * POA_STEP) <= #[trigger] h@[a]@[b]
                    <= (a + 1 + b) * POA_STEP,
            -POA_STEP <= gap <= POA_STEP,
            -POA_STEP <= s <= POA_STEP,
            h@.len() + m <= MAX_ALIGN_LEN,
        decreases pv@.len() - x,
    {
        let p = pv[x];
        if j >= 1 && hv == h[p][j - 1] + s {
            return Some((p, true));
        }
        if hv == h[p][j] + gap {
            return Some((p, false));
        }
        x = x + 1;
    }
    None
}

impl PoaGraph {
    /// Predecessor lists: `r[v]` holds the source of every edge into `v`.
    fn predecessors(&self) -> (r: Vec<Vec<usize>>)
        requires
            self.wf(),
        ensures
            r@.len() == self.bases@.len(),
            forall|v: int, x: int|
                0 <= v < r@.len() && 0 <= x < r@[v]@.len() ==> #[trigger] r@[v]@[x] < v,
            forall|v: int| 0 <= v < r@.len() ==> #[trigger] r@[v]@ == preds_of(self.edges@, v as nat),
    {
        let n = self.bases.len();
        let mut preds: Vec<Vec<usize>> = Vec::new();
        let mut v: usize = 0;
        while v < n
            invariant
                self.wf(),
                n == self.bases@.len(),
                v <= n,
                preds@.len() == v,
                forall|a: int, x: int|
                    0 <= a < v && 0 <= x < preds@[a]@.len() ==> #[trigger] preds@[a]@[x] < a,
                forall|a: int| 0 <= a < v ==> #[trigger] preds@[a]@ == preds_of(self.edges@, a as nat),
            decreases n - v,
        {
            let mut row: Vec<usize> = Vec::new();
            let mut k: usize = 0;
            while k < self.edges.len()
                invariant
                    self.wf(),
                    k <= self.edges@.len(),
                    forall|x: int| 0 <= x < row@.len() ==> #[trigger] row@[x] < v,
                    row@ == pred_list(self.edges@, v as nat, k as nat),
                decreases self.edges@.len() - k,
            {
                let e = self.edges[k];
                assert(self.edges@[k as int].from < self.edges@[k as int].to);
                if e.to == v {
                    row.push(e.from);
                }
                k = k + 1;
            }
            preds.push(row);
            v = v + 1;
        }
        preds
    }

    /// Aligns `seq` to the graph, globally over `seq`, along a path from a source node to a
    /// node without successors, and returns the columns from the last to the first.
    fn graph_columns(&self, seq: &[u8], sc: &PoaScoring) -> (r: Vec<GraphColumn>)
        requires
            self.wf(),
            self.bases@.len() + seq@.len() <= MAX_ALIGN_LEN,
        ensures
            query_columns(r@) == seq@.len(),
            r@ == graph_alignment(self.bases@, self.edges@, seq@, *sc),
            forall|x: int|
                0 <= x < r@.len() && (#[trigger] r@[x]).0 is Some ==> r@[x].0->Some_0 < self.bases@.len(),
            forall|x: int|
                0 <= x < r@.len() && (#[trigger] r@[x]).1 is Some ==> r@[x].1->Some_0 < seq@.len(),
    {
        let n = self.bases.len();
        let m = seq.len();
        let gap = sc.gap_score as i64;
        let preds = self.predecessors();
        let mut h: Vec<Vec<i64>> = Vec::new();
        let mut v: usize = 0;
        while v < n
            invariant
                n == self.bases@.len(),
                m == seq@.len(),
                n + m <= MAX_ALIGN_LEN,
                -POA_STEP <= gap <= POA_STEP,
                preds@.len() == n,
                forall|a: int, x: int|
                    0 <= a < n && 0 <= x < preds@[a]@.len() ==> #[trigger] preds@[a]@[x] < a,
                v <= n,
                h@.len() == v,
                forall|a: int| 0 <= a < v ==> #[trigger] h@[a]@.len() == m + 1,
                forall|a: int, b: int|
                    0 <= a < v && 0 <= b <= m ==> -((a + 1 + b) * POA_STEP) <= #[trigger] h@[a]@[b]
                        <= (a + 1 + b) * POA_STEP,
                forall|a: int| 0 <= a < n ==> #[trigger] preds@[a]@ == preds_of(self.edges@, a as nat),
                gap == sc.gap_score,
                forall|a: int, b: int|
                    0 <= a < v && 0 <= b <= m ==> #[trigger] h@[a]@[b] == poa_h(
                        self.bases@,
                        self.edges@,
                        seq@,
                        *sc,
                        a as nat,
                        b as nat,
                    ),
            decreases n - v,
        {
            let pv = &preds[v];
            let mut row: Vec<i64> = Vec::new();
            let mut j: usize = 0;
            while j <= m
                invariant
                    n == self.bases@.len(),
                    m == seq@.len(),
                    n + m <= MAX_ALIGN_LEN,
                    -POA_STEP <= gap <= POA_STEP,
                    v < n,
                    pv@ == preds@[v as int]@,
                    forall|x: int| 0 <= x < pv@.len() ==> #[trigger] pv@[x] < v,
                    h@.len() == v,
                    forall|a: int| 0 <= a < v ==> #[trigger] h@[a]@.len() == m + 1,
                    forall|a: int, b: int|
                        0 <= a < v && 0 <= b <= m ==> -((a + 1 + b) * POA_STEP) <= #[trigger] h@[a]@[b]
                            <= (a + 1 + b) * POA_STEP,
                    j <= m + 1,
                    row@.len() == j,
                    forall|b: int|
                        0 <= b < j ==> -((v + 1 + b) * POA_STEP) <= #[trigger] row@[b] <= (v + 1 + b)
                            * POA_STEP,
                    pv@ == preds_of(self.edges@, v as nat),
                    gap == sc.gap_score,
                    forall|a: int, b: int|
                        0 <= a < v && 0 <= b <= m ==> #[trigger] h@[a]@[b] == poa_h(
                            self.bases@,
                            self.edges@,
                            seq@,
                            *sc,
                            a as nat,
                            b as nat,
                        ),
                    forall|b: int|
                        0 <= b < j ==> #[trigger] row@[b] == poa_h(
                            self.bases@,
                            self.edges@,
                            seq@,
                            *sc,
                            v as nat,
                            b as nat,
                        ),
                decreases m + 1 - j,
            {
                let s = if j >= 1 {
                    pair_value(sc, self.bases[v], seq[j - 1])
                } else {
                    0
                };
                // from the virtual start, or from each predecessor
                let mut best: i64 = if pv.len() == 0 {
                    let up = start_row(gap, j) + gap;
                    if j >= 1 {
                        let diag = start_row(gap, j - 1) + s;
                        if diag > up { diag } else { up }
                    } else {
                        up
                    }
                } else {
                    let p0 = pv[0];
                    h[p0][j] + gap
                };
                let ghost first = best;
                assert(pv@.len() == 0 ==> first == (if j >= 1 {
                    let diag = (j - 1) * (gap as int) + s;
                    let up = j * (gap as int) + gap;
                    if diag > up { diag } else { up }
                } else {
                    j * (gap as int) + gap
                }));
                let mut x: usize = 0;
                while x < pv.len()
                    invariant
                        pv@.len() == 0 ==> best == first,
                        m == seq@.len(),
                        n + m <= MAX_ALIGN_LEN,
                        -POA_STEP <= gap <= POA_STEP,
                        -POA_STEP <= s <= POA_STEP,
                        v < n,
                        j <= m,
                        x <= pv@.len(),
                        forall|y: int| 0 <= y < pv@.len() ==> #[trigger] pv@[y] < v,
                        h@.len() == v,
                        forall|a: int| 0 <= a < v ==> #[trigger] h@[a]@.len() == m + 1,
                        forall|a: int, b: int|
                            0 <= a < v && 0 <= b <= m ==> -((a + 1 + b) * POA_STEP) <= #[trigger] h@[
                                a]@[b] <= (a + 1 + b) * POA_STEP,
                        -((v + 1 + j) * POA_STEP) <= best <= (v + 1 + j) * POA_STEP,
                        pv@ == preds_of(self.edges@, v as nat),
                        gap == sc.gap_score,
                        s == (if j >= 1 && v < self.bases@.len() && j <= seq@.len() {
                            pair_val(*sc, self.bases@[v as int], seq@[j - 1])
                        } else {
                            0
                        }),
                        forall|a: int, b: int|
                            0 <= a < v && 0 <= b <= m ==> #[trigger] h@[a]@[b] == poa_h(
                                self.bases@,
                                self.edges@,
                                seq@,
                                *sc,
                                a as nat,
                                b as nat,
                            ),
                        pv@.len() > 0 ==> best == poa_fold(
                            self.bases@,
                            self.edges@,
                            seq@,
                            *sc,
                            v as nat,
                            j as nat,
                            x as nat,
                            poa_h(self.bases@, self.edges@, seq@, *sc, pv@[0] as nat, j as nat) + gap,
                        ),
                    decreases pv@.len() - x,
                {
                    let p = pv[x];
                    let up = h[p][j] + gap;
                    if up > best {
                        best = up;
                    }
                    if j >= 1 {
                        let diag = h[p][j - 1] + s;
                        if diag > best {
                            best = diag;
                        }
                    }
                    x = x + 1;
                }
                proof {
                    if pv@.len() > 0 {
                        assert(pv@[0] < v);
                    }
                }
                assert(best == (if pv@.len() == 0 {
                    let up = j * (gap as int) + gap;
                    if j >= 1 {
                        let diag = (j - 1) * (gap as int) + s;
                        if diag > up { diag } else { up }
                    } else {
                        up
                    }
                } else {
                    poa_fold(
                        self.bases@,
                        self.edges@,
                        seq@,
                        *sc,
                        v as nat,
                        j as nat,
                        pv@.len(),
                        poa_h(self.bases@, self.edges@, seq@, *sc, pv@[0] as nat, j as nat) + gap,
                    )
                }));
                if j >= 1 {
                    let left = row[j - 1] + gap;
                    if left > best {
                        best = left;
                    }
                }
                assert(best == poa_h(self.bases@, self.edges@, seq@, *sc, v as nat, j as nat));
                row.push(best);
                j = j + 1;
            }
            h.push(row);
            v = v + 1;
        }
        // sinks: nodes without successors
        let mut has_succ: Vec<bool> = Vec::new();
        let mut a: usize = 0;
        while a < n
            invariant
                a <= n,
                has_succ@.len() == a,
                forall|x: int| 0 <= x < a ==> !(#[trigger] has_succ@[x]),
            decreases n - a,
        {
            has_succ.push(false);
            a = a + 1;
        }
        let mut k: usize = 0;
        while k < self.edges.len()
            invariant
                self.wf(),
                n == self.bases@.len(),
                has_succ@.len() == n,
                k <= self.edges@.len(),
                forall|x: int|
                    0 <= x < n ==> #[trigger] has_succ@[x] == exists|y: int|
                        0 <= y < k && self.edges@[y].from == x,
            decreases self.edges@.len() - k,
        {
            let e = self.edges[k];
            assert(self.edges@[k as int].from < self.edges@[k as int].to);
            let ghost before = has_succ@;
            has_succ.set(e.from, true);
            assert forall|x: int| 0 <= x < n implies #[trigger] has_succ@[x] == exists|y: int|
                0 <= y < k + 1 && self.edges@[y].from == x by {
                if x == e.from {
                    assert(self.edges@[k as int].from == x);
                } else {
                    assert(has_succ@[x] == before[x]);
                    if exists|y: int| 0 <= y < k + 1 && self.edges@[y].from == x {
                        let y = choose|y: int| 0 <= y < k + 1 && self.edges@[y].from == x;
                        assert(y != k);
                    }
                }
            }
            k = k + 1;
        }
        let mut cur: Option<usize> = None;
        let mut a: usize = 0;
        while a < n
            invariant
                a <= n,
                n == h@.len(),
                n == self.bases@.len(),
                m == seq@.len(),
                has_succ@.len() == n,
                forall|x: int| 0 <= x < n ==> #[trigger] h@[x]@.len() == m + 1,
                forall|x: int|
                    0 <= x < n ==> #[trigger] has_succ@[x] == has_succ_node(self.edges@, x as nat),
                forall|a: int, b: int|
                    0 <= a < n && 0 <= b <= m ==> #[trigger] h@[a]@[b] == poa_h(
                        self.bases@,
                        self.edges@,
                        seq@,
                        *sc,
                        a as nat,
                        b as nat,
                    ),
                cur matches Some(c) ==> c < n,
                end_from(self.bases@, self.edges@, seq@, *sc, a as nat, cur) == end_from(
                    self.bases@,
                    self.edges@,
                    seq@,
                    *sc,
                    0,
                    None,
                ),
            decreases n - a,
        {
            if !has_succ[a] {
                match cur {
                    None => {
                        cur = Some(a);
                    },
                    Some(c) => {
                        if h[a][m] > h[c][m] {
                            cur = Some(a);
                        }
                    },
                }
            }
            a = a + 1;
        }
        assert(cur == end_from(self.bases@, self.edges@, seq@, *sc, 0, None));
        assert(m == seq@.len());
        // walk back from the best sink
        let mut rev: Vec<GraphColumn> = Vec::new();
        let mut j: usize = m;
        loop
            invariant
                n == self.bases@.len(),
                m == seq@.len(),
                n + m <= MAX_ALIGN_LEN,
                -POA_STEP <= gap <= POA_STEP,
                preds@.len() == n,
                forall|a: int, x: int|
                    0 <= a < n && 0 <= x < preds@[a]@.len() ==> #[trigger] preds@[a]@[x] < a,
                h@.len() == n,
                forall|a: int| 0 <= a < n ==> #[trigger] h@[a]@.len() == m + 1,
                forall|a: int, b: int|
                    0 <= a < n && 0 <= b <= m ==> -((a + 1 + b) * POA_STEP) <= #[trigger] h@[a]@[b]
                        <= (a + 1 + b) * POA_STEP,
                j <= m,
                cur matches Some(c) ==> c < n,
                gap == sc.gap_score,
                forall|a: int| 0 <= a < n ==> #[trigger] preds@[a]@ == preds_of(self.edges@, a as nat),
                forall|a: int, b: int|
                    0 <= a < n && 0 <= b <= m ==> #[trigger] h@[a]@[b] == poa_h(
                        self.bases@,
                        self.edges@,
                        seq@,
                        *sc,
                        a as nat,
                        b as nat,
                    ),
                graph_trace(self.bases@, self.edges@, seq@, *sc, cur, j as nat, rev@)
                    == graph_alignment(self.bases@, self.edges@, seq@, *sc),
                query_columns(rev@) + j == m,
                forall|x: int|
                    0 <= x < rev@.len() && (#[trigger] rev@[x]).0 is Some ==> rev@[x].0->Some_0 < n,
                forall|x: int|
                    0 <= x < rev@.len() && (#[trigger] rev@[x]).1 is Some ==> rev@[x].1->Some_0 < m,
            ensures
                query_columns(rev@) == m,
                rev@ == graph_alignment(self.bases@, self.edges@, seq@, *sc),
                forall|x: int|
                    0 <= x < rev@.len() && (#[trigger] rev@[x]).0 is Some ==> rev@[x].0->Some_0 < n,
                forall|x: int|
                    0 <= x < rev@.len() && (#[trigger] rev@[x]).1 is Some ==> rev@[x].1->Some_0 < m,
            decreases (match cur {
                Some(c) => c + 1,
                None => 0,
            }), j,
        {
            let ghost before = rev@;
            match cur {
                None => {
                    if j == 0 {
                        break ;
                    }
                    rev.push((None, Some(j - 1)));
                    j = j - 1;
                },
                Some(v) => {
                    let hv = h[v][j];
                    let s = if j >= 1 {
                        pair_value(sc, self.bases[v], seq[j - 1])
                    } else {
                        0
                    };
                    let pv = &preds[v];
                    if pv.len() == 0 {
                        if j >= 1 && hv == start_row(gap, j - 1) + s {
                            rev.push((Some(v), Some(j - 1)));
                            cur = None;
                            j = j - 1;
                        } else if hv == start_row(gap, j) + gap {
                            rev.push((Some(v), None));
                            cur = None;
                        } else if j >= 1 {
                            rev.push((None, Some(j - 1)));
                            j = j - 1;
                        } else {
                            rev.push((Some(v), None));
                            cur = None;
                        }
                    } else {
                        match choose_pred(&h, pv, v, j, m, s, gap, hv, Ghost(self.bases@), Ghost(self.edges@), Ghost(seq@), Ghost(*sc)) {
                            Some((p, true)) => {
                                rev.push((Some(v), Some(j - 1)));
                                cur = Some(p);
                                j = j - 1;
                            },
                            Some((p, false)) => {
                                rev.push((Some(v), None));
                                cur = Some(p);
                            },
                            None => {
                                if j >= 1 {
                                    rev.push((None, Some(j - 1)));
                                    j = j - 1;
                                } else {
                                    rev.push((Some(v), None));
                                    cur = Some(pv[0]);
                                }
                            },
                        }
                    }
                },
            }
            assert(rev@.drop_last() =~= before);
        }
        rev
    }
}

impl PoaGraph {
    /// Adds one to the weight of the edge `from -> to`, or adds that edge with weight one.
    fn connect(&mut self, from: usize, to: usize)
        requires
            old(self).wf(),
            from < to < old(self).bases@.len(),
            old(self).counts@[to as int] >= 1,
            forall|x: int|
                0 <= x < old(self).edges@.len() && (#[trigger] old(self).edges@[x]).to == to
                    ==> old(self).edges@[x].weight < old(self).counts@[to as int],
        ensures
            final(self).wf(),
            final(self).bases@ == old(self).bases@,
            final(self).counts@ == old(self).counts@,
            final(self).edges@ == connected(old(self).edges@, from, to),
            final(self).total == old(self).total,
            final(self).n_sequences == old(self).n_sequences,
    {
        let mut x: usize = 0;
        while x < self.edges.len()
            invariant
                self.wf(),
                *self == *old(self),
                connect_from(self.edges@, from, to, x as nat) == connected(self.edges@, from, to),
                from < to < self.bases@.len(),
                self.counts@[to as int] >= 1,
                forall|y: int|
                    0 <= y < self.edges@.len() && (#[trigger] self.edges@[y]).to == to
                        ==> self.edges@[y].weight < self.counts@[to as int],
                x <= self.edges@.len(),
            decreases self.edges@.len() - x,
        {
            let e = self.edges[x];
            if e.from == from && e.to == to {
                assert(self.edges@[x as int].weight < self.counts@[to as int]);
                let ghost before = self.edges@;
                self.edges.set(x, PoaEdge { from, to, weight: e.weight + 1 });
                assert forall|y: int| 0 <= y < self.edges@.len() implies {
                    &&& #[trigger] self.edges@[y].from < self.edges@[y].to
                    &&& self.edges@[y].to < self.bases@.len()
                    &&& self.edges@[y].weight <= self.counts@[self.edges@[y].to as int]
                } by {
                    if y != x {
                        assert(self.edges@[y] == before[y]);
                    }
                }
                return;
            }
            x = x + 1;
        }
        let ghost before = self.edges@;
        self.edges.push(PoaEdge { from, to, weight: 1 });
        assert forall|y: int| 0 <= y < self.edges@.len() implies {
            &&& #[trigger] self.edges@[y].from < self.edges@[y].to
            &&& self.edges@[y].to < self.bases@.len()
            &&& self.edges@[y].weight <= self.counts@[self.edges@[y].to as int]
        } by {
            if y < before.len() {
                assert(self.edges@[y] == before[y]);
            }
        }
    }

    /// Inserts a node holding `base`, counted once, at index `pos`; edges are renumbered.
    fn insert_node(&mut self, pos: usize, base: u8)
        requires
            old(self).wf(),
            pos <= old(self).bases@.len(),
            old(self).bases@.len() < MAX_ALIGN_LEN,
            old(self).total < usize::MAX,
        ensures
            final(self).wf(),
            final(self).bases@ == old(self).bases@.insert(pos as int, base),
            final(self).counts@ == old(self).counts@.insert(pos as int, 1),
            final(self).total == old(self).total + 1,
            final(self).n_sequences == old(self).n_sequences,
            final(self).counts@[pos as int] == 1,
            final(self).edges@ == shifted_edges(old(self).edges@, pos),
            forall|x: int|
                0 <= x < final(self).edges@.len() ==> (#[trigger] final(self).edges@[x]).to != pos,
    {
        proof {
            lemma_sum_insert(self.counts@, pos as int, 1);
            self.counts@.insert_ensures(pos as int, 1);
            self.bases@.insert_ensures(pos as int, base);
        }
        let ghost old_counts = self.counts@;
        self.bases.insert(pos, base);
        self.counts.insert(pos, 1);
        self.total = self.total + 1;
        let ghost counts = self.counts@;
        let ghost bases = self.bases@;
        let ghost old_edges = self.edges@;
        assert(old_edges == old(self).edges@);
        assert(counts[pos as int] == 1);
        assert forall|y: int| 0 <= y < old_edges.len() implies {
            &&& (#[trigger] old_edges[y]).from < old_edges[y].to
            &&& old_edges[y].to + 1 < bases.len()
            &&& old_edges[y].weight <= counts[(if old_edges[y].to >= pos {
                old_edges[y].to + 1
            } else {
                old_edges[y].to as int
            })]
        } by {
            assert(old(self).edges@[y].from < old(self).edges@[y].to);
            let t = old_edges[y].to as int;
            if t >= pos {
                assert(counts[t + 1] == old_counts[t]);
            } else {
                assert(counts[t] == old_counts[t]);
            }
        }
        let mut x: usize = 0;
        while x < self.edges.len()
            invariant
                self.bases@.len() == self.counts@.len(),
                self.counts@ == counts,
                self.bases@ == bases,
                bases == old(self).bases@.insert(pos as int, base),
                self.total == sum(counts),
                self.total == old(self).total + 1,
                self.n_sequences == old(self).n_sequences,
                self.bases@.len() <= MAX_ALIGN_LEN,
                self.edges@.len() == old_edges.len(),
                pos < self.bases@.len(),
                x <= self.edges@.len(),
                forall|y: int|
                    0 <= y < old_edges.len() ==> {
                        &&& (#[trigger] old_edges[y]).from < old_edges[y].to
                        &&& old_edges[y].to + 1 < bases.len()
                        &&& old_edges[y].weight <= counts[(if old_edges[y].to >= pos {
                            old_edges[y].to + 1
                        } else {
                            old_edges[y].to as int
                        })]
                    },
                forall|y: int| x <= y < self.edges@.len() ==> #[trigger] self.edges@[y] == old_edges[y],
                forall|y: int| 0 <= y < x ==> #[trigger] self.edges@[y] == shifted_edges(old_edges, pos)[y],
                forall|y: int|
                    0 <= y < x ==> {
                        &&& (#[trigger] self.edges@[y]).from < self.edges@[y].to
                        &&& self.edges@[y].to < self.bases@.len()
                        &&& self.edges@[y].to != pos
                        &&& self.edges@[y].weight <= counts[self.edges@[y].to as int]
                    },
            decreases self.edges@.len() - x,
        {
            let e = self.edges[x];
            assert(e == old_edges[x as int]);
            let from = if e.from >= pos { e.from + 1 } else { e.from };
            let to = if e.to >= pos { e.to + 1 } else { e.to };
            self.edges.set(x, PoaEdge { from, to, weight: e.weight });
            x = x + 1;
        }
        assert(counts[pos as int] == 1);
        assert(self.edges@ =~= shifted_edges(old(self).edges@, pos));
    }

    /// Threads an aligned sequence into the graph: a residue aligned to a node adds to that
    /// node's count, an inserted residue becomes a new node placed right after the previous
    /// node of the sequence, and consecutive nodes of the sequence are joined by an edge
    /// (where it runs forward in the node order), whose weight grows by one.
    fn thread(&mut self, seq: &[u8], rev: &Vec<GraphColumn>)
        requires
            old(self).wf(),
            old(self).bases@.len() + seq@.len() <= MAX_ALIGN_LEN,
            old(self).total + seq@.len() <= usize::MAX,
            query_columns(rev@) == seq@.len(),
            forall|x: int|
                0 <= x < rev@.len() && (#[trigger] rev@[x]).0 is Some ==> rev@[x].0->Some_0
                    < old(self).bases@.len(),
            forall|x: int|
                0 <= x < rev@.len() && (#[trigger] rev@[x]).1 is Some ==> rev@[x].1->Some_0
                    < seq@.len(),
        ensures
            final(self).wf(),
            final(self).total == old(self).total + seq@.len(),
            final(self).bases@.len() >= old(self).bases@.len(),
            final(self).bases@.len() <= old(self).bases@.len() + seq@.len(),
            final(self).n_sequences == old(self).n_sequences,
            (final(self).bases@, final(self).counts@, final(self).edges@) == thread_from(
                (old(self).bases@, old(self).counts@, old(self).edges@),
                seq@,
                rev@,
                rev@.len(),
                None,
                0,
            ),
    {
        let n0 = self.bases.len();
        let t0 = self.total;
        let mut prev: Option<usize> = None;
        let mut inserted: usize = 0;
        let mut x: usize = rev.len();
        proof {
            assert(rev@.subrange(0, rev@.len() as int) =~= rev@);
        }
        while x > 0
            invariant
                self.wf(),
                x <= rev@.len(),
                n0 == old(self).bases@.len(),
                t0 == old(self).total,
                n0 + seq@.len() <= MAX_ALIGN_LEN,
                t0 + seq@.len() <= usize::MAX,
                self.bases@.len() == n0 + inserted,
                query_columns(rev@.subrange(0, x as int)) + (self.total - t0) == seq@.len(),
                self.total >= t0,
                inserted <= self.total - t0,
                self.n_sequences == old(self).n_sequences,
                thread_from(
                    (self.bases@, self.counts@, self.edges@),
                    seq@,
                    rev@,
                    x as nat,
                    prev,
                    inserted as nat,
                ) == thread_from(
                    (old(self).bases@, old(self).counts@, old(self).edges@),
                    seq@,
                    rev@,
                    rev@.len(),
                    None,
                    0,
                ),
                prev matches Some(p) ==> p < self.bases@.len(),
                forall|y: int|
                    0 <= y < rev@.len() && (#[trigger] rev@[y]).0 is Some ==> rev@[y].0->Some_0 < n0,
                forall|y: int|
                    0 <= y < rev@.len() && (#[trigger] rev@[y]).1 is Some ==> rev@[y].1->Some_0
                        < seq@.len(),
            decreases x,
        {
            let col = rev[x - 1];
            proof {
                assert(rev@.subrange(0, x as int).drop_last() =~= rev@.subrange(0, x - 1));
                assert(rev@.subrange(0, x as int).last() == col);
            }
            match col {
                (Some(v), Some(_)) => {
                    let idx = v + inserted;
                    proof {
                        lemma_sum_update(self.counts@, idx as int, (self.counts@[idx as int] + 1) as usize);
                    }
                    let c = self.counts[idx];
                    let ghost before = *self;
                    self.counts.set(idx, c + 1);
                    self.total = self.total + 1;
                    assert forall|y: int| 0 <= y < self.edges@.len() implies {
                        &&& (#[trigger] self.edges@[y]).from < self.edges@[y].to
                        &&& self.edges@[y].to < self.bases@.len()
                        &&& self.edges@[y].weight <= self.counts@[self.edges@[y].to as int]
                        &&& (self.edges@[y].to == idx ==> self.edges@[y].weight < self.counts@[idx as int])
                    } by {
                        assert(before.edges@[y] == self.edges@[y]);
                        assert(before.edges@[y].from < before.edges@[y].to);
                        let t = self.edges@[y].to as int;
                        assert(before.edges@[y].weight <= before.counts@[t]);
                        if t != idx {
                            assert(self.counts@[t] == before.counts@[t]);
                        }
                    }
                    if let Some(p) = prev {
                        if p < idx {
                            self.connect(p, idx);
                        }
                    }
                    prev = Some(idx);
                },
                (None, Some(j)) => {
                    let pos = match prev {
                        Some(p) => p + 1,
                        None => 0,
                    };
                    let b = seq[j];
                    self.insert_node(pos, b);
                    inserted = inserted + 1;
                    if let Some(p) = prev {
                        self.connect(p, pos);
                    }
                    prev = Some(pos);
                },
                _ => {},
            }
            x = x - 1;
        }
        assert(rev@.subrange(0, 0) =~= Seq::<GraphColumn>::empty());
    }

    /// Aligns `seq` to the graph and threads it in. The graph only grows: every residue of
    /// `seq` adds one to the count of exactly one node, old or new.
    pub fn add_sequence(&mut self, seq: &[u8], scoring: &PoaScoring) -> (r: Result<(), AlignError>)
        requires
            old(self).wf(),
            old(self).bases@.len() + seq@.len() <= MAX_ALIGN_LEN,
            old(self).total + seq@.len() <= usize::MAX,
            old(self).n_sequences < usize::MAX,
        ensures
            seq@.len() == 0 ==> r == Err::<(), AlignError>(AlignError::EmptyInput) && *final(self)
                == *old(self),
            seq@.len() > 0 ==> r is Ok && final(self).wf() && final(self).total == old(self).total
                + seq@.len() && final(self).n_sequences == old(self).n_sequences + 1
                && final(self).bases@.len() >= old(self).bases@.len() && final(self).bases@.len()
                <= old(self).bases@.len() + seq@.len() && (
                final(self).bases@,
                final(self).counts@,
                final(self).edges@,
            ) == added((old(self).bases@, old(self).counts@, old(self).edges@), seq@, *scoring),
    {
        if seq.len() == 0 {
            return Err(AlignError::EmptyInput);
        }
        let cols = self.graph_columns(seq, scoring);
        self.thread(seq, &cols);
        let ghost mid = *self;
        assert(mid.wf());
        self.n_sequences = self.n_sequences + 1;
        assert(self.bases == mid.bases && self.counts == mid.counts && self.edges == mid.edges && self.total == mid.total);
        Ok(())
    }
}

/// `r` is the consensus of `g`: the residues along its heaviest path (empty for an empty
/// graph).
pub open spec fn is_consensus_of(g: GraphView, r: Seq<u8>) -> bool {
    if g.0.len() == 0 {
        r.len() == 0
    } else {
        exists|v: nat| is_heaviest_end(g.2, g.0.len(), v) && r == path_bases(
            g.0,
            heaviest_path(g.2, v),
        )
    }
}

/// Total number of residues in a list of sequences.
pub open spec fn residues(seqs: Seq<Vec<u8>>) -> nat
    decreases seqs.len(),
{
    if seqs.len() == 0 {
        0
    } else {
        residues(seqs.drop_last()) + seqs.last()@.len()
    }
}

proof fn lemma_residues_prefix(seqs: Seq<Vec<u8>>, x: int)
    requires
        0 <= x < seqs.len(),
    ensures
        residues(seqs.subrange(0, x + 1)) == residues(seqs.subrange(0, x)) + seqs[x]@.len(),
        residues(seqs.subrange(0, x + 1)) <= residues(seqs),
    decreases seqs.len() - x,
{
    assert(seqs.subrange(0, x + 1).drop_last() =~= seqs.subrange(0, x));
    if x + 1 < seqs.len() {
        lemma_residues_prefix(seqs, x + 1);
    } else {
        assert(seqs.subrange(0, x + 1) =~= seqs);
    }
}

/// Builds a graph from the first sequence, threads every further one into it, and returns
/// its consensus.
pub fn poa_consensus(sequences: &[Vec<u8>], scoring: &PoaScoring) -> (r: Result<Vec<u8>, AlignError>)
    ensures
        sequences@.len() == 0 || (exists|x: int|
            1 <= x < sequences@.len() && (#[trigger] sequences@[x])@.len() == 0) ==> r == Err::<
            Vec<u8>,
            AlignError,
        >(AlignError::EmptyInput),
        !(sequences@.len() == 0 || (exists|x: int|
            1 <= x < sequences@.len() && (#[trigger] sequences@[x])@.len() == 0)) && residues(
            sequences@,
        ) > MAX_ALIGN_LEN ==> r == Err::<Vec<u8>, AlignError>(AlignError::TooLong),
        !(sequences@.len() == 0 || (exists|x: int|
            1 <= x < sequences@.len() && (#[trigger] sequences@[x])@.len() == 0)) && residues(
            sequences@,
        ) <= MAX_ALIGN_LEN ==> r is Ok && is_consensus_of(
            poa_build(sequences@, *scoring, sequences@.len()),
            r->Ok_0@,
        ),
{
    let n = sequences.len();
    if n == 0 {
        return Err(AlignError::EmptyInput);
    }
    let mut k: usize = 1;
    while k < n
        invariant
            n == sequences@.len(),
            1 <= k <= n,
            forall|y: int| 1 <= y < k ==> (#[trigger] sequences@[y])@.len() > 0,
        decreases n - k,
    {
        if sequences[k].len() == 0 {
            return Err(AlignError::EmptyInput);
        }
        k = k + 1;
    }
    let mut count: usize = 0;
    let mut k: usize = 0;
    while k < n
        invariant
            n == sequences@.len(),
            k <= n,
            count == residues(sequences@.subrange(0, k as int)),
            count <= MAX_ALIGN_LEN,
            forall|y: int| 1 <= y < n ==> (#[trigger] sequences@[y])@.len() > 0,
        decreases n - k,
    {
        proof {
            lemma_residues_prefix(sequences@, k as int);
        }
        let len = sequences[k].len();
        if len > MAX_ALIGN_LEN - count {
            proof {
                assert(residues(sequences@.subrange(0, k + 1)) > MAX_ALIGN_LEN);
            }
            return Err(AlignError::TooLong);
        }
        count = count + len;
        k = k + 1;
    }
    assert(sequences@.subrange(0, n as int) =~= sequences@);
    proof {
        lemma_residues_prefix(sequences@, 0);
        assert(sequences@.subrange(0, 0) =~= Seq::<Vec<u8>>::empty());
    }
    let mut graph = PoaGraph::from_sequence(sequences[0].as_slice());
    let mut i: usize = 1;
    while i < n
        invariant
            n == sequences@.len(),
            1 <= i <= n,
            residues(sequences@) <= MAX_ALIGN_LEN,
            graph.wf(),
            graph.total == residues(sequences@.subrange(0, i as int)),
            graph.bases@.len() <= graph.total,
            graph.n_sequences == i,
            forall|y: int| 1 <= y < i ==> (#[trigger] sequences@[y])@.len() > 0,
            (graph.bases@, graph.counts@, graph.edges@) == poa_build(sequences@, *scoring, i as nat),
        decreases n - i,
    {
        proof {
            lemma_residues_prefix(sequences@, i as int);
        }
        match graph.add_sequence(sequences[i].as_slice(), scoring) {
            Ok(()) => {},
            Err(e) => {
                return Err(e);
            },
        }
        i = i + 1;
    }
    assert(sequences@.subrange(0, n as int) =~= sequences@);
    let r = graph.consensus();
    let ghost g: GraphView = (graph.bases@, graph.counts@, graph.edges@);
    assert(g.0 == graph.bases@ && g.2 == graph.edges@);
    proof {
        if graph.bases@.len() > 0 {
            let v = choose|v: nat|
                is_heaviest_end(graph.edges@, graph.bases@.len(), v) && r@ == path_bases(
                    graph.bases@,
                    heaviest_path(graph.edges@, v),
                );
            assert(is_heaviest_end(g.2, g.0.len(), v) && r@ == path_bases(g.0, heaviest_path(g.2, v)));
        }
    }
    assert(is_consensus_of(g, r@));
    Ok(r)
}

} // verus!
