//! The classifier engine: one accumulated prototype per label, taught with
//! bipolar-normalized samples and queried for the best-matching label.

use vstd::prelude::*;

use crate::matrix::{norm_seq, normalize, Grid, Matrix};

verus! {

/// Largest observation count a prototype may reach, so that every score
/// computation fits comfortably in `i64`.
pub const COUNT_MAX: u64 = 0x7fff_ffff;

/// Largest number of cells an engine's shape may have, for the same reason.
pub const CELLS_MAX: usize = 0x7fff_ffff;

/// How an engine operation can fail.
#[derive(Clone, Copy, Debug, PartialEq, Eq, Structural)]
pub enum Error {
    /// The sample's shape differs from the engine's configured shape.
    ShapeMismatch,
    /// No prototype with at least one observation exists to score against.
    NoData,
    /// The bytes are not a valid encoding of an engine state.
    Deserialization,
}

/// One label's accumulated correlation template: the elementwise sum of all
/// normalized samples taught under the label, and how many there were.
#[derive(Debug)]
pub struct Prototype {
    pub acc: Matrix,
    pub count: u64,
}

/// What `guess` reports: the winning label together with the two integer
/// scores whose ratio is the confidence.  `raw_score` is the mean elementwise
/// correlation between the winner's accumulator and the normalized sample;
/// `ideal_score` is the maximum `raw_score` achievable by a sample agreeing
/// with the accumulator's sign on every cell.  The confidence ratio itself is
/// a quotient of these two and is left to the caller, since it is in general
/// not an integer.
#[derive(Clone, Copy, Debug, PartialEq, Eq, Structural)]
pub struct Guess {
    pub label: u64,
    pub raw_score: i64,
    pub ideal_score: i64,
}

/// The classifier engine: a mapping from label to prototype, kept sorted by
/// label so that iteration order is the labels' natural order, plus the fixed
/// shape that every accumulator and sample must have.
#[derive(Debug)]
pub struct Kohonen {
    pub rows: usize,
    pub cols: usize,
    pub protos: Vec<(u64, Prototype)>,
}

/// Elementwise sum of two equal-length integer sequences.
pub open spec fn seq_add(a: Seq<int>, b: Seq<int>) -> Seq<int> {
    Seq::new(a.len(), |k: int| a[k] + b[k])
}

/// The all-zero sequence of a given length.
pub open spec fn zeros(n: nat) -> Seq<int> {
    Seq::new(n, |k: int| 0int)
}

/// Dot product of two equal-length integer sequences.
pub open spec fn dot(a: Seq<int>, b: Seq<int>) -> int
    decreases a.len(),
{
    if a.len() == 0 {
        0
    } else {
        dot(a.drop_last(), b.drop_last()) + a.last() * b.last()
    }
}

/// Absolute value.
pub open spec fn abs_of(x: int) -> int {
    if x >= 0 {
        x
    } else {
        -x
    }
}

/// Sum of absolute values of an integer sequence.
pub open spec fn abs_sum(a: Seq<int>) -> int
    decreases a.len(),
{
    if a.len() == 0 {
        0
    } else {
        abs_sum(a.drop_last()) + abs_of(a.last())
    }
}

/// Integer division truncating toward zero, the semantics of the scoring
/// divisions.  (Spec-mode `/` is Euclidean; both branches here divide a
/// non-negative value, where the two semantics agree.)
pub open spec fn div_trunc(a: int, b: int) -> int {
    if a >= 0 {
        a / b
    } else {
        -((-a) / b)
    }
}

/// Abstract view of one prototype entry: label, accumulator cells, count.
pub type ProtoV = (u64, Seq<int>, nat);

/// Entries strictly sorted by label: unique labels, deterministic order.
pub open spec fn sorted_by_label(s: Seq<ProtoV>) -> bool {
    forall|i: int, j: int| 0 <= i < j < s.len() ==> (#[trigger] s[i]).0 < (#[trigger] s[j]).0
}

/// First index of `label` in an entry sequence, or `-1` when absent.
pub open spec fn find(s: Seq<ProtoV>, label: u64) -> int
    decreases s.len(),
{
    if s.len() == 0 {
        -1
    } else if s[0].0 == label {
        0
    } else {
        let r = find(s.drop_first(), label);
        if r == -1 {
            -1
        } else {
            r + 1
        }
    }
}

/// Where `label` would be inserted to keep the entries sorted: the length of
/// the prefix of entries with smaller labels.
pub open spec fn insert_pos(s: Seq<ProtoV>, label: u64) -> int
    decreases s.len(),
{
    if s.len() == 0 {
        0
    } else if s[0].0 < label {
        1 + insert_pos(s.drop_first(), label)
    } else {
        0
    }
}

/// The state transition of one `teach` call on the abstract view: bump the
/// label's entry if present, else insert a fresh entry at its sorted place.
pub open spec fn spec_teach(s: Seq<ProtoV>, label: u64, ns: Seq<int>) -> Seq<ProtoV> {
    let i = find(s, label);
    if i >= 0 {
        s.update(i, (label, seq_add(s[i].1, ns), (s[i].2 + 1) as nat))
    } else {
        s.insert(insert_pos(s, label), (label, ns, 1nat))
    }
}

/// Mean correlation of an entry's accumulator with a normalized sample.
pub open spec fn score(p: ProtoV, ns: Seq<int>) -> int {
    div_trunc(dot(p.1, ns), p.2 as int)
}

/// The entry's best achievable mean correlation.
pub open spec fn ideal(p: ProtoV) -> int {
    div_trunc(abs_sum(p.1), p.2 as int)
}

/// An entry takes part in guessing only once it has been taught.
pub open spec fn is_candidate(s: Seq<ProtoV>, i: int) -> bool {
    0 <= i < s.len() && s[i].2 > 0
}

/// Entry `i` wins the guess: it is a candidate, no candidate scores higher,
/// and every earlier candidate scores strictly lower (the first maximum in
/// iteration order wins, which under the sorted invariant is the smallest
/// label among the tied maxima).
pub open spec fn wins(s: Seq<ProtoV>, ns: Seq<int>, i: int) -> bool {
    &&& is_candidate(s, i)
    &&& forall|j: int| is_candidate(s, j) ==> score(s[j], ns) <= score(s[i], ns)
    &&& forall|j: int| is_candidate(s, j) && j < i ==> score(s[j], ns) < score(s[i], ns)
}

/// `find` returns the first index of `label`, or `-1` when no entry has it.
pub proof fn lemma_find_char(s: Seq<ProtoV>, label: u64)
    ensures
        find(s, label) == -1 ==> forall|i: int| 0 <= i < s.len() ==> (#[trigger] s[i]).0 != label,
        find(s, label) != -1 ==> {
            &&& 0 <= find(s, label) < s.len()
            &&& s[find(s, label)].0 == label
            &&& forall|i: int| 0 <= i < find(s, label) ==> (#[trigger] s[i]).0 != label
        },
    decreases s.len(),
{
    if s.len() > 0 && s[0].0 != label {
        lemma_find_char(s.drop_first(), label);
        assert(forall|i: int| 1 <= i < s.len() ==> (#[trigger] s[i]) == s.drop_first()[i - 1]);
    }
}

/// If some entry holds `label`, `find` succeeds.
pub proof fn lemma_find_some(s: Seq<ProtoV>, label: u64, i: int)
    requires
        0 <= i < s.len(),
        s[i].0 == label,
    ensures
        find(s, label) >= 0,
    decreases s.len(),
{
    if s[0].0 != label {
        assert(s.drop_first()[i - 1] == s[i]);
        lemma_find_some(s.drop_first(), label, i - 1);
    }
}

/// In label-sorted entries, an entry holding `label` sits exactly at `find`.
pub proof fn lemma_find_present_sorted(s: Seq<ProtoV>, label: u64, i: int)
    requires
        sorted_by_label(s),
        0 <= i < s.len(),
        s[i].0 == label,
    ensures
        find(s, label) == i,
{
    lemma_find_some(s, label, i);
    lemma_find_char(s, label);
    let f = find(s, label);
    if f < i {
        assert(s[f].0 < s[i].0);
    }
    if i < f {
        assert(s[i].0 < s[f].0);
    }
}

/// For label-sorted entries, `insert_pos` is the boundary between the labels
/// below `label` and those at or above it.
pub proof fn lemma_insert_pos_char(s: Seq<ProtoV>, label: u64)
    requires
        sorted_by_label(s),
    ensures
        0 <= insert_pos(s, label) <= s.len(),
        forall|i: int| 0 <= i < insert_pos(s, label) ==> (#[trigger] s[i]).0 < label,
        forall|i: int| insert_pos(s, label) <= i < s.len() ==> (#[trigger] s[i]).0 >= label,
    decreases s.len(),
{
    if s.len() > 0 {
        assert(forall|i: int| 1 <= i < s.len() ==> (#[trigger] s[i]) == s.drop_first()[i - 1]);
        if s[0].0 < label {
            lemma_insert_pos_char(s.drop_first(), label);
        } else {
            assert(forall|i: int| 0 < i < s.len() ==> (#[trigger] s[i]).0 > s[0].0);
        }
    }
}

/// Inserting an absent label at its sorted place keeps the entries sorted,
/// puts the new entry where `find` sees it, and leaves every other label's
/// presence and entry unchanged.
pub proof fn lemma_find_after_insert(s: Seq<ProtoV>, e: ProtoV, p: int)
    requires
        sorted_by_label(s),
        find(s, e.0) == -1,
        p == insert_pos(s, e.0),
    ensures
        sorted_by_label(s.insert(p, e)),
        find(s.insert(p, e), e.0) == p,
        forall|l: u64| l != e.0 ==> ((find(s.insert(p, e), l) >= 0) <==> (find(s, l) >= 0)),
        forall|l: u64|
            l != e.0 && find(s, l) >= 0 ==> s.insert(p, e)[find(s.insert(p, e), l)] == s[find(
                s,
                l,
            )],
{
    lemma_insert_pos_char(s, e.0);
    lemma_find_char(s, e.0);
    let s2 = s.insert(p, e);
    s.insert_ensures(p, e);
    assert forall|i: int, j: int| 0 <= i < j < s2.len() implies (#[trigger] s2[i]).0 < (
    #[trigger] s2[j]).0 by {
        if j < p {
        } else if j == p {
            assert(s2[i] == s[i]);
        } else {
            assert(s2[j] == s[j - 1]);
            assert(s[j - 1].0 >= e.0 && s[j - 1].0 != e.0);
            if i < p {
                assert(s2[i] == s[i]);
                assert(s[i].0 < e.0);
            } else if i == p {
            } else {
                assert(s2[i] == s[i - 1]);
            }
        }
    }
    lemma_find_present_sorted(s2, e.0, p);
    assert forall|l: u64| l != e.0 implies ((find(s2, l) >= 0) <==> (find(s, l) >= 0)) by {
        lemma_find_char(s2, l);
        lemma_find_char(s, l);
        if find(s, l) >= 0 {
            let f = find(s, l);
            if f < p {
                assert(s2[f] == s[f]);
                lemma_find_some(s2, l, f);
            } else {
                assert(s2[f + 1] == s[f]);
                lemma_find_some(s2, l, f + 1);
            }
        }
        if find(s2, l) >= 0 {
            let f2 = find(s2, l);
            assert(f2 != p);
            if f2 < p {
                assert(s2[f2] == s[f2]);
                lemma_find_some(s, l, f2);
            } else {
                assert(s2[f2] == s[f2 - 1]);
                lemma_find_some(s, l, f2 - 1);
            }
        }
    }
    assert forall|l: u64| l != e.0 && find(s, l) >= 0 implies s2[find(s2, l)] == s[find(s, l)] by {
        lemma_find_char(s, l);
        let f = find(s, l);
        if f < p {
            assert(s2[f] == s[f]);
            lemma_find_present_sorted(s2, l, f);
        } else {
            assert(s2[f + 1] == s[f]);
            lemma_find_present_sorted(s2, l, f + 1);
        }
    }
}

/// A fresh all-zero accumulator of the given shape.
fn zero_matrix(rows: usize, cols: usize) -> (m: Matrix)
    requires
        rows as int * cols as int <= CELLS_MAX as int,
    ensures
        m.wf(),
        m.rows == rows,
        m.cols == cols,
        m.data@.map_values(|c: i64| c as int) == zeros((rows as int * cols as int) as nat),
        forall|k: int| 0 <= k < m.data@.len() ==> m.data@[k] == 0,
{
    let n: usize = rows * cols;
    let mut data: Vec<i64> = Vec::new();
    let mut k: usize = 0;
    while k < n
        invariant
            k <= n,
            data@.len() == k,
            forall|j: int| 0 <= j < k ==> data@[j] == 0,
        decreases n - k,
    {
        data.push(0i64);
        k += 1;
    }
    proof {
        assert(data@.map_values(|c: i64| c as int) =~= zeros((rows as int * cols as int) as nat));
    }
    Matrix { rows, cols, data }
}

impl Kohonen {
    /// Abstract view: the entries in storage order, each as
    /// (label, accumulator cells, count).
    pub open spec fn av(&self) -> Seq<ProtoV> {
        self.protos@.map_values(
            |p: (u64, Prototype)|
                (p.0, p.1.acc.data@.map_values(|c: i64| c as int), p.1.count as nat),
        )
    }

    /// The configured shape.
    pub open spec fn spec_dim(&self) -> (nat, nat) {
        (self.rows as nat, self.cols as nat)
    }

    /// Number of cells of the configured shape.
    pub open spec fn cells(&self) -> int {
        self.rows as int * self.cols as int
    }

    /// Well-formedness: the shape is small enough for overflow-free scoring;
    /// entries are strictly sorted by label (so labels are unique and the
    /// iteration order is deterministic); every accumulator has the engine's
    /// shape; counts are bounded; and no accumulator cell can exceed in
    /// magnitude the number of samples summed into it.
    pub open spec fn wf(&self) -> bool {
        &&& self.rows <= CELLS_MAX
        &&& self.cols <= CELLS_MAX
        &&& self.cells() <= CELLS_MAX as int
        &&& sorted_by_label(self.av())
        &&& forall|i: int|
            0 <= i < self.protos@.len() ==> {
                &&& (#[trigger] self.protos@[i]).1.acc.wf()
                &&& self.protos@[i].1.acc.rows == self.rows
                &&& self.protos@[i].1.acc.cols == self.cols
                &&& self.protos@[i].1.count <= COUNT_MAX
                &&& forall|k: int|
                    0 <= k < self.protos@[i].1.acc.data@.len()
                        ==> abs_of(#[trigger] self.protos@[i].1.acc.data@[k] as int)
                        <= self.protos@[i].1.count as int
            }
    }

    /// Index at which `label` sits or would be inserted, and whether it is
    /// present (in which case the index is its `find` index).
    fn locate(&self, label: u64) -> (r: (usize, bool))
        requires
            self.wf(),
        ensures
            r.0 as int == insert_pos(self.av(), label),
            r.1 <==> find(self.av(), label) >= 0,
            r.1 ==> r.0 as int == find(self.av(), label),
    {
        let ghost s = self.av();
        let mut p: usize = 0;
        while p < self.protos.len() && self.protos[p].0 < label
            invariant
                self.wf(),
                s == self.av(),
                p <= self.protos@.len(),
                forall|i: int| 0 <= i < p ==> (#[trigger] s[i]).0 < label,
            decreases self.protos@.len() - p,
        {
            proof {
                assert(s[p as int].0 == self.protos@[p as int].0);
            }
            p += 1;
        }
        let present = p < self.protos.len() && self.protos[p].0 == label;
        proof {
            assert(s.len() == self.protos@.len());
            lemma_insert_pos_char(s, label);
            lemma_find_char(s, label);
            assert(p < self.protos@.len() ==> s[p as int].0 == self.protos@[p as int].0);
            let q = insert_pos(s, label);
            if q < p {
                assert(0 <= q < p);
                assert(s[q].0 < label);
                assert(q < s.len());
                assert(s[q].0 >= label);
            }
            if p < q {
                assert(s[p as int].0 < label);
            }
            if present {
                lemma_find_present_sorted(s, label, p as int);
            } else {
                if find(s, label) >= 0 {
                    let f = find(s, label);
                    assert(s[f].0 == label);
                    if f < p {
                        assert(s[f].0 < label);
                    }
                    if p < f {
                        assert(s[p as int].0 >= label && s[p as int].0 != label);
                        assert(s[p as int].0 < s[f].0);
                    }
                }
            }
        }
        (p, present)
    }

    /// Insert a fresh prototype for an absent `label` at its sorted place.
    fn insert_entry(&mut self, p: usize, label: u64, m: Matrix, count: u64)
        requires
            old(self).wf(),
            find(old(self).av(), label) == -1,
            p as int == insert_pos(old(self).av(), label),
            m.wf(),
            m.rows == old(self).rows,
            m.cols == old(self).cols,
            count <= COUNT_MAX,
            forall|k: int| 0 <= k < m.data@.len() ==> abs_of(m.data@[k] as int) <= count as int,
        ensures
            final(self).wf(),
            final(self).rows == old(self).rows,
            final(self).cols == old(self).cols,
            final(self).av() == old(self).av().insert(
                p as int,
                (label, m.data@.map_values(|c: i64| c as int), count as nat),
            ),
    {
        proof {
            lemma_insert_pos_char(old(self).av(), label);
        }
        let ghost s0 = self.av();
        let ghost pv0 = self.protos@;
        let ghost mv = m.data@.map_values(|c: i64| c as int);
        let ghost e: ProtoV = (label, mv, count as nat);
        self.protos.insert(p, (label, Prototype { acc: m, count }));
        proof {
            pv0.insert_ensures(p as int, self.protos@[p as int]);
            s0.insert_ensures(p as int, e);
            assert(self.av() =~= s0.insert(p as int, e)) by {
                assert forall|i: int| 0 <= i < self.av().len() implies self.av()[i] == s0.insert(
                    p as int,
                    e,
                )[i] by {
                    if i < p {
                        assert(self.protos@[i] == pv0[i]);
                    } else if i > p {
                        assert(self.protos@[i] == pv0[i - 1]);
                    }
                }
            }
            lemma_find_after_insert(s0, e, p as int);
            assert forall|i: int| 0 <= i < self.protos@.len() implies {
                &&& (#[trigger] self.protos@[i]).1.acc.wf()
                &&& self.protos@[i].1.acc.rows == self.rows
                &&& self.protos@[i].1.acc.cols == self.cols
                &&& self.protos@[i].1.count <= COUNT_MAX
                &&& forall|k: int|
                    0 <= k < self.protos@[i].1.acc.data@.len()
                        ==> abs_of(#[trigger] self.protos@[i].1.acc.data@[k] as int)
                        <= self.protos@[i].1.count as int
            } by {
                if i < p {
                    assert(self.protos@[i] == pv0[i]);
                } else if i > p {
                    assert(self.protos@[i] == pv0[i - 1]);
                }
            }
        }
    }

    /// A new engine of shape `dim` with one zeroed, zero-count prototype per
    /// label in `labels` (duplicates collapse).
    pub fn init(dim: (usize, usize), labels: &Vec<u64>) -> (r: Kohonen)
        requires
            dim.0 <= CELLS_MAX,
            dim.1 <= CELLS_MAX,
            dim.0 as int * dim.1 as int <= CELLS_MAX as int,
        ensures
            r.wf(),
            r.spec_dim() == (dim.0 as nat, dim.1 as nat),
            forall|l: u64| (find(r.av(), l) >= 0 <==> labels@.contains(l)),
            forall|i: int|
                0 <= i < r.av().len() ==> {
                    &&& (#[trigger] r.av()[i]).1 == zeros((dim.0 as int * dim.1 as int) as nat)
                    &&& r.av()[i].2 == 0
                },
    {
        let mut e = Kohonen { rows: dim.0, cols: dim.1, protos: Vec::new() };
        proof {
            assert(e.av() =~= Seq::<ProtoV>::empty());
        }
        let mut t: usize = 0;
        while t < labels.len()
            invariant
                e.wf(),
                e.rows == dim.0,
                e.cols == dim.1,
                t <= labels@.len(),
                forall|l: u64| (find(e.av(), l) >= 0 <==> labels@.take(t as int).contains(l)),
                forall|i: int|
                    0 <= i < e.av().len() ==> {
                        &&& (#[trigger] e.av()[i]).1 == zeros((dim.0 as int * dim.1 as int) as nat)
                        &&& e.av()[i].2 == 0
                    },
            decreases labels@.len() - t,
        {
            let label = labels[t];
            let ghost s0 = e.av();
            let (p, present) = e.locate(label);
            if !present {
                let m = zero_matrix(dim.0, dim.1);
                let ghost ne: ProtoV = (label, zeros((dim.0 as int * dim.1 as int) as nat), 0nat);
                proof {
                    lemma_find_char(s0, label);
                    lemma_insert_pos_char(s0, label);
                }
                e.insert_entry(p, label, m, 0);
                proof {
                    s0.insert_ensures(p as int, ne);
                    lemma_find_after_insert(s0, ne, p as int);
                    assert forall|i: int| 0 <= i < e.av().len() implies {
                        &&& (#[trigger] e.av()[i]).1 == zeros((dim.0 as int * dim.1 as int) as nat)
                        &&& e.av()[i].2 == 0
                    } by {
                        if i < p {
                            assert(e.av()[i] == s0[i]);
                        } else if i > p {
                            assert(e.av()[i] == s0[i - 1]);
                        }
                    }
                    lemma_find_present_sorted(e.av(), label, p as int);
                }
            } else {
                proof {
                    lemma_find_char(e.av(), label);
                }
            }
            proof {
                assert forall|l: u64| labels@.take(t as int + 1).contains(l) implies (find(
                    e.av(),
                    l,
                ) >= 0) by {
                    if l != labels@[t as int] {
                        let w = choose|w: int|
                            0 <= w < labels@.take(t as int + 1).len() && #[trigger] labels@.take(
                                t as int + 1,
                            )[w] == l;
                        assert(labels@.take(t as int)[w] == l);
                        assert(labels@.take(t as int).contains(l));
                    }
                }
                assert forall|l: u64| find(e.av(), l) >= 0 implies labels@.take(
                    t as int + 1,
                ).contains(l) by {
                    if l != labels@[t as int] {
                        assert(labels@.take(t as int).contains(l));
                        let w = choose|w: int|
                            0 <= w < labels@.take(t as int).len() && #[trigger] labels@.take(
                                t as int,
                            )[w] == l;
                        assert(labels@.take(t as int + 1)[w] == l);
                    } else {
                        assert(labels@.take(t as int + 1)[t as int] == l);
                    }
                }
            }
            t += 1;
        }
        proof {
            assert(labels@.take(labels@.len() as int) =~= labels@);
        }
        e
    }

    /// Fold one sample into `label`'s prototype: the accumulator gains the
    /// bipolar-normalized sample elementwise and the count grows by one; an
    /// absent label starts from a zeroed prototype.  A sample whose shape is
    /// not the engine's fails with `ShapeMismatch` and changes nothing.
    pub fn teach(&mut self, label: u64, sample: &Grid) -> (r: Result<(), Error>)
        requires
            old(self).wf(),
            sample.wf(),
            find(old(self).av(), label) >= 0 ==> old(self).av()[find(old(self).av(), label)].2
                < COUNT_MAX as nat,
        ensures
            final(self).wf(),
            final(self).rows == old(self).rows,
            final(self).cols == old(self).cols,
            if sample.rows == old(self).rows && sample.cols == old(self).cols {
                &&& r == Ok::<(), Error>(())
                &&& final(self).av() == spec_teach(old(self).av(), label, norm_seq(sample.data@))
            } else {
                &&& r == Err::<(), Error>(Error::ShapeMismatch)
                &&& final(self).protos@ == old(self).protos@
            },
    {
        if sample.rows != self.rows || sample.cols != self.cols {
            return Err(Error::ShapeMismatch);
        }
        let nm = normalize(sample);
        let ghost ns = norm_seq(sample.data@);
        let ghost s0 = self.av();
        let (p, present) = self.locate(label);
        if present {
            let ghost pv0 = self.protos@;
            proof {
                lemma_find_char(s0, label);
                assert(s0.len() == self.protos@.len());
                assert(0 <= p < self.protos@.len());
            }
            let (_, proto) = self.protos.remove(p);
            let mut data: Vec<i64> = Vec::new();
            let mut k: usize = 0;
            let n = proto.acc.data.len();
            proof {
                assert(s0[p as int].1 == proto.acc.data@.map_values(|c: i64| c as int));
                assert(s0[p as int].2 == proto.count as nat);
                assert(nm.data@.len() == n);
            }
            while k < n
                invariant
                    k <= n,
                    n == proto.acc.data@.len(),
                    nm.data@.len() == n,
                    data@.len() == k,
                    proto.count < COUNT_MAX,
                    forall|j: int|
                        0 <= j < n ==> abs_of(#[trigger] proto.acc.data@[j] as int)
                            <= proto.count as int,
                    forall|j: int| 0 <= j < n ==> -1 <= #[trigger] nm.data@[j] as int <= 1,
                    forall|j: int|
                        0 <= j < k ==> #[trigger] data@[j] as int == proto.acc.data@[j] as int
                            + nm.data@[j] as int,
                decreases n - k,
            {
                proof {
                    assert(abs_of(proto.acc.data@[k as int] as int) <= proto.count as int);
                }
                data.push(proto.acc.data[k] + nm.data[k]);
                k += 1;
            }
            let new_count = proto.count + 1;
            let new_acc = Matrix { rows: proto.acc.rows, cols: proto.acc.cols, data };
            let ghost pv1 = self.protos@;
            self.protos.insert(p, (label, Prototype { acc: new_acc, count: new_count }));
            proof {
                let ghost be: ProtoV = (label, seq_add(s0[p as int].1, ns), (s0[p as int].2
                    + 1) as nat);
                assert(self.protos@ == pv1.insert(p as int, self.protos@[p as int]));
                assert(pv1 == pv0.remove(p as int));
                pv0.remove_ensures(p as int);
                pv1.insert_ensures(p as int, self.protos@[p as int]);
                assert(self.protos@.len() == pv0.len());
                assert forall|i: int| 0 <= i < self.protos@.len() && i != p implies self.protos@[i]
                    == pv0[i] by {
                    if i < p {
                        assert(self.protos@[i] == pv1[i]);
                        assert(pv1[i] == pv0[i]);
                    } else {
                        assert(self.protos@[i] == pv1[i - 1]);
                        assert(pv1[i - 1] == pv0[i]);
                    }
                }
                assert(self.protos@[p as int].1.acc.data@ == new_acc.data@);
                assert(new_acc.data@.map_values(|c: i64| c as int) =~= seq_add(
                    s0[p as int].1,
                    ns,
                )) by {
                    assert forall|j: int| 0 <= j < new_acc.data@.len() implies new_acc.data@[j]
                        as int == s0[p as int].1[j] + ns[j] by {
                        assert(s0[p as int].1[j] == proto.acc.data@[j] as int);
                        assert(ns[j] == nm.data@[j] as int);
                    }
                }
                assert(self.av() =~~= s0.update(p as int, be)) by {
                    assert(self.av().len() == s0.len());
                    assert forall|i: int| 0 <= i < self.av().len() implies self.av()[i]
                        =~~= s0.update(p as int, be)[i] by {
                        if i != p {
                            assert(self.protos@[i] == pv0[i]);
                        }
                    }
                }
                assert(find(s0, label) == p as int);
                assert(self.av() == spec_teach(s0, label, ns));
                assert(sorted_by_label(self.av())) by {
                    assert forall|i: int, j: int| 0 <= i < j < self.av().len() implies (
                    #[trigger] self.av()[i]).0 < (#[trigger] self.av()[j]).0 by {
                        assert(s0[i].0 < s0[j].0);
                        assert(self.av()[i].0 == s0[i].0);
                        assert(self.av()[j].0 == s0[j].0);
                    }
                }
            }
            Ok(())
        } else {
            proof {
                lemma_find_char(s0, label);
                assert(find(s0, label) == -1);
                lemma_insert_pos_char(s0, label);
            }
            self.insert_entry(p, label, nm, 1);
            proof {
                assert(self.av() == spec_teach(s0, label, ns));
            }
            Ok(())
        }
    }
}

/// Dot product of an accumulator with a bipolar vector, with the magnitude
/// bound that rules out overflow.
fn dot_exec(a: &Vec<i64>, b: &Vec<i64>, bound: u64) -> (r: i64)
    requires
        a@.len() == b@.len(),
        a@.len() <= CELLS_MAX as int,
        bound <= COUNT_MAX,
        forall|k: int| 0 <= k < a@.len() ==> abs_of(#[trigger] a@[k] as int) <= bound as int,
        forall|k: int| 0 <= k < b@.len() ==> #[trigger] b@[k] == 1i64 || b@[k] == -1i64,
    ensures
        r as int == dot(a@.map_values(|c: i64| c as int), b@.map_values(|c: i64| c as int)),
        abs_of(r as int) <= bound as int * a@.len(),
        abs_of(r as int) <= 0x3fff_ffff_0000_0001,
{
    let ghost am = a@.map_values(|c: i64| c as int);
    let ghost bm = b@.map_values(|c: i64| c as int);
    let mut sum: i64 = 0;
    let mut k: usize = 0;
    proof {
        assert(bound as int * 0 == 0) by (nonlinear_arith);
        assert(am.take(0) =~= Seq::<int>::empty());
        assert(bm.take(0) =~= Seq::<int>::empty());
        assert(bound as int * a@.len() <= 0x7fff_ffff * 0x7fff_ffff) by (nonlinear_arith)
            requires
                0 <= bound as int <= 0x7fff_ffff,
                0 <= a@.len() <= 0x7fff_ffff,
        ;
    }
    while k < a.len()
        invariant
            a@.len() == b@.len(),
            a@.len() <= CELLS_MAX as int,
            k <= a@.len(),
            am == a@.map_values(|c: i64| c as int),
            bm == b@.map_values(|c: i64| c as int),
            bound <= COUNT_MAX,
            forall|j: int| 0 <= j < a@.len() ==> abs_of(#[trigger] a@[j] as int) <= bound as int,
            forall|j: int| 0 <= j < b@.len() ==> #[trigger] b@[j] == 1i64 || b@[j] == -1i64,
            sum as int == dot(am.take(k as int), bm.take(k as int)),
            abs_of(sum as int) <= bound as int * k,
            bound as int * k <= 0x3fff_ffff_0000_0001,
        decreases a@.len() - k,
    {
        proof {
            assert(bound as int * (k + 1) == bound as int * k + bound as int) by (nonlinear_arith);
            assert(bound as int * (k + 1) <= 0x7fff_ffff * 0x7fff_ffff) by (nonlinear_arith)
                requires
                    0 <= bound as int <= 0x7fff_ffff,
                    0 <= k + 1 <= 0x7fff_ffff,
            ;
        }
        let av = a[k];
        let bv = b[k];
        let prod = if bv == 1 {
            av
        } else {
            -av
        };
        proof {
            let x = am[k as int];
            let y = bm[k as int];
            assert(y == 1 ==> x * y == x) by (nonlinear_arith);
            assert(y == -1 ==> x * y == -x) by (nonlinear_arith);
            assert(prod as int == am[k as int] * bm[k as int]);
        }
        sum = sum + prod;
        k += 1;
        proof {
            assert(am.take(k as int).drop_last() =~= am.take(k as int - 1));
            assert(bm.take(k as int).drop_last() =~= bm.take(k as int - 1));
            assert(am.take(k as int).last() == am[k as int - 1]);
            assert(bm.take(k as int).last() == bm[k as int - 1]);
        }
    }
    proof {
        assert(am.take(a@.len() as int) =~= am);
        assert(bm.take(b@.len() as int) =~= bm);
    }
    sum
}

/// Sum of absolute cell values of an accumulator, bounded the same way.
fn abs_sum_exec(a: &Vec<i64>, bound: u64) -> (r: i64)
    requires
        a@.len() <= CELLS_MAX as int,
        bound <= COUNT_MAX,
        forall|k: int| 0 <= k < a@.len() ==> abs_of(#[trigger] a@[k] as int) <= bound as int,
    ensures
        r as int == abs_sum(a@.map_values(|c: i64| c as int)),
        0 <= r as int <= bound as int * a@.len(),
        r as int <= 0x3fff_ffff_0000_0001,
{
    let ghost am = a@.map_values(|c: i64| c as int);
    let mut sum: i64 = 0;
    let mut k: usize = 0;
    proof {
        assert(bound as int * 0 == 0) by (nonlinear_arith);
        assert(am.take(0) =~= Seq::<int>::empty());
        assert(bound as int * a@.len() <= 0x7fff_ffff * 0x7fff_ffff) by (nonlinear_arith)
            requires
                0 <= bound as int <= 0x7fff_ffff,
                0 <= a@.len() <= 0x7fff_ffff,
        ;
    }
    while k < a.len()
        invariant
            a@.len() <= CELLS_MAX as int,
            k <= a@.len(),
            am == a@.map_values(|c: i64| c as int),
            bound <= COUNT_MAX,
            forall|j: int| 0 <= j < a@.len() ==> abs_of(#[trigger] a@[j] as int) <= bound as int,
            sum as int == abs_sum(am.take(k as int)),
            0 <= sum as int <= bound as int * k,
            bound as int * k <= 0x3fff_ffff_0000_0001,
        decreases a@.len() - k,
    {
        proof {
            assert(bound as int * (k + 1) == bound as int * k + bound as int) by (nonlinear_arith);
            assert(bound as int * (k + 1) <= 0x7fff_ffff * 0x7fff_ffff) by (nonlinear_arith)
                requires
                    0 <= bound as int <= 0x7fff_ffff,
                    0 <= k + 1 <= 0x7fff_ffff,
            ;
            assert(abs_of(a@[k as int] as int) <= bound as int);
        }
        let av = a[k];
        let cell = if av >= 0 {
            av
        } else {
            -av
        };
        proof {
            assert(cell as int == abs_of(am[k as int]));
        }
        sum = sum + cell;
        k += 1;
        proof {
            assert(am.take(k as int).drop_last() =~= am.take(k as int - 1));
            assert(am.take(k as int).last() == am[k as int - 1]);
        }
    }
    proof {
        assert(am.take(a@.len() as int) =~= am);
    }
    sum
}

/// Division truncating toward zero, as the scoring formulas use it.
fn div_trunc_exec(a: i64, b: i64) -> (r: i64)
    requires
        b > 0,
        abs_of(a as int) <= 0x3fff_ffff_0000_0001,
    ensures
        r as int == div_trunc(a as int, b as int),
        abs_of(r as int) <= abs_of(a as int),
{
    if a >= 0 {
        let r = a / b;
        proof {
            assert(r as int == a as int / b as int);
            assert(0 <= a as int / b as int <= a as int) by (nonlinear_arith)
                requires
                    a as int >= 0,
                    b as int > 0,
            ;
        }
        r
    } else {
        let n = -a;
        let q = n / b;
        proof {
            assert(q as int == n as int / b as int);
            assert(0 <= n as int / b as int <= n as int) by (nonlinear_arith)
                requires
                    n as int >= 0,
                    b as int > 0,
            ;
        }
        -q
    }
}

impl Kohonen {
    /// Score the sample against every taught prototype and report the label
    /// of the best raw score; among tied maxima the first in label order
    /// wins.  Fails with `ShapeMismatch` on a wrongly shaped sample and with
    /// `NoData` when no prototype has been taught yet.
    pub fn guess(&self, sample: &Grid) -> (r: Result<Guess, Error>)
        requires
            self.wf(),
            sample.wf(),
        ensures
            match r {
                Ok(g) => {
                    &&& sample.rows == self.rows
                    &&& sample.cols == self.cols
                    &&& exists|i: int|
                        {
                            &&& #[trigger] wins(self.av(), norm_seq(sample.data@), i)
                            &&& g.label == self.av()[i].0
                            &&& g.raw_score as int == score(
                                self.av()[i],
                                norm_seq(sample.data@),
                            )
                            &&& g.ideal_score as int == ideal(self.av()[i])
                        }
                },
                Err(e) => {
                    &&& (e == Error::ShapeMismatch <==> (sample.rows != self.rows || sample.cols
                        != self.cols))
                    &&& (e == Error::NoData <==> (sample.rows == self.rows && sample.cols
                        == self.cols && forall|i: int| !is_candidate(self.av(), i)))
                    &&& (e == Error::ShapeMismatch || e == Error::NoData)
                },
            },
    {
        if sample.rows != self.rows || sample.cols != self.cols {
            return Err(Error::ShapeMismatch);
        }
        let nm = normalize(sample);
        let ghost ns = norm_seq(sample.data@);
        let ghost s = self.av();
        proof {
            assert(s.len() == self.protos@.len());
            assert(nm.data@.len() == self.cells());
            assert forall|k: int| 0 <= k < nm.data@.len() implies #[trigger] nm.data@[k] == 1i64
                || nm.data@[k] == -1i64 by {
                assert(nm.data@[k] == crate::matrix::normalize_cell(sample.data@[k]));
            }
        }
        let mut have: bool = false;
        let mut bi: usize = 0;
        let mut bs: i64 = 0;
        let mut i: usize = 0;
        while i < self.protos.len()
            invariant
                self.wf(),
                sample.wf(),
                s == self.av(),
                ns == norm_seq(sample.data@),
                sample.rows == self.rows,
                sample.cols == self.cols,
                nm.wf(),
                nm.rows == self.rows,
                nm.cols == self.cols,
                nm.data@.map_values(|c: i64| c as int) == ns,
                forall|k: int|
                    0 <= k < nm.data@.len() ==> #[trigger] nm.data@[k] == 1i64 || nm.data@[k]
                        == -1i64,
                i <= self.protos@.len(),
                !have ==> forall|j: int| 0 <= j < i ==> (#[trigger] s[j]).2 == 0,
                have ==> {
                    &&& 0 <= bi < i
                    &&& is_candidate(s, bi as int)
                    &&& bs as int == score(s[bi as int], ns)
                    &&& forall|j: int|
                        is_candidate(s, j) && j < i ==> score(#[trigger] s[j], ns) <= bs as int
                    &&& forall|j: int|
                        is_candidate(s, j) && j < bi ==> score(#[trigger] s[j], ns) < bs as int
                },
            decreases self.protos@.len() - i,
        {
            let count = self.protos[i].1.count;
            proof {
                assert(s[i as int].2 == count as nat);
                assert(s[i as int].1 == self.protos@[i as int].1.acc.data@.map_values(
                    |c: i64| c as int,
                ));
            }
            if count > 0 {
                let d = dot_exec(&self.protos[i].1.acc.data, &nm.data, count);
                let sc = div_trunc_exec(d, count as i64);
                proof {
                    assert(sc as int == score(s[i as int], ns));
                }
                if !have || sc > bs {
                    have = true;
                    bi = i;
                    bs = sc;
                }
            }
            i += 1;
        }
        if !have {
            proof {
                assert forall|j: int| !is_candidate(s, j) by {
                    if 0 <= j < s.len() {
                        assert(s[j].2 == 0);
                    }
                }
            }
            return Err(Error::NoData);
        }
        let count = self.protos[bi].1.count;
        let a = abs_sum_exec(&self.protos[bi].1.acc.data, count);
        let idl = div_trunc_exec(a, count as i64);
        proof {
            assert(s[bi as int].1 == self.protos@[bi as int].1.acc.data@.map_values(
                |c: i64| c as int,
            ));
            assert(idl as int == ideal(s[bi as int]));
            assert(wins(s, ns, bi as int));
        }
        Ok(Guess { label: self.protos[bi].0, raw_score: bs, ideal_score: idl })
    }

    /// The best achievable mean correlation for `label`'s prototype, or
    /// `None` when the label is absent or has no observations yet (the
    /// zero-count guard: no division by zero can occur).
    pub fn ideal_score(&self, label: u64) -> (r: Option<i64>)
        requires
            self.wf(),
        ensures
            match r {
                Some(v) => {
                    &&& find(self.av(), label) >= 0
                    &&& self.av()[find(self.av(), label)].2 > 0
                    &&& v as int == ideal(self.av()[find(self.av(), label)])
                },
                None => find(self.av(), label) == -1 || self.av()[find(self.av(), label)].2 == 0,
            },
    {
        let ghost s = self.av();
        let (p, present) = self.locate(label);
        if !present {
            proof {
                lemma_find_char(s, label);
            }
            return None;
        }
        proof {
            lemma_find_char(s, label);
            assert(s.len() == self.protos@.len());
        }
        let count = self.protos[p].1.count;
        if count == 0 {
            return None;
        }
        proof {
            assert(s[p as int].1 == self.protos@[p as int].1.acc.data@.map_values(
                |c: i64| c as int,
            ));
            assert(s[p as int].2 == count as nat);
        }
        let a = abs_sum_exec(&self.protos[p].1.acc.data, count);
        let idl = div_trunc_exec(a, count as i64);
        Some(idl)
    }

    /// The labels that currently have a prototype, in their natural order.
    pub fn labels(&self) -> (r: Vec<u64>)
        requires
            self.wf(),
        ensures
            r@.len() == self.av().len(),
            forall|i: int| 0 <= i < r@.len() ==> r@[i] == self.av()[i].0,
    {
        let mut r: Vec<u64> = Vec::new();
        let mut i: usize = 0;
        while i < self.protos.len()
            invariant
                self.wf(),
                i <= self.protos@.len(),
                r@.len() == i,
                forall|j: int| 0 <= j < i ==> r@[j] == self.av()[j].0,
            decreases self.protos@.len() - i,
        {
            r.push(self.protos[i].0);
            proof {
                assert(self.av()[i as int].0 == self.protos@[i as int].0);
            }
            i += 1;
        }
        proof {
            assert(self.av().len() == self.protos@.len());
        }
        r
    }

    /// The accumulator cells and the count of `label`'s prototype, or `None`
    /// when the label has none.
    pub fn prototype(&self, label: u64) -> (r: Option<(Vec<i64>, u64)>)
        requires
            self.wf(),
        ensures
            match r {
                Some(p) => {
                    &&& find(self.av(), label) >= 0
                    &&& p.0@.map_values(|c: i64| c as int) == self.av()[find(
                        self.av(),
                        label,
                    )].1
                    &&& p.1 as nat == self.av()[find(self.av(), label)].2
                },
                None => find(self.av(), label) == -1,
            },
    {
        let ghost s = self.av();
        let (p, present) = self.locate(label);
        proof {
            lemma_find_char(s, label);
        }
        if !present {
            return None;
        }
        proof {
            assert(s.len() == self.protos@.len());
        }
        let mut data: Vec<i64> = Vec::new();
        let mut k: usize = 0;
        let n = self.protos[p].1.acc.data.len();
        while k < n
            invariant
                self.wf(),
                p < self.protos@.len(),
                n == self.protos@[p as int].1.acc.data@.len(),
                k <= n,
                data@.len() == k,
                forall|j: int| 0 <= j < k ==> data@[j] == self.protos@[p as int].1.acc.data@[j],
            decreases n - k,
        {
            data.push(self.protos[p].1.acc.data[k]);
            k += 1;
        }
        proof {
            assert(s[p as int].1 == self.protos@[p as int].1.acc.data@.map_values(
                |c: i64| c as int,
            ));
            assert(data@.map_values(|c: i64| c as int) =~= s[p as int].1);
            assert(s[p as int].2 == self.protos@[p as int].1.count as nat);
        }
        Some((data, self.protos[p].1.count))
    }

    /// The configured shape.
    pub fn dim(&self) -> (r: (usize, usize))
        ensures
            r.0 as nat == self.spec_dim().0,
            r.1 as nat == self.spec_dim().1,
    {
        (self.rows, self.cols)
    }
}

} // verus!
