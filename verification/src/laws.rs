//! Engine-level laws: how repeated teaching accumulates, why a freshly
//! taught sample recognizes itself perfectly, and how the scoring division
//! rounds.

use vstd::prelude::*;

use crate::engine::{
    abs_sum, div_trunc, dot, find, ideal, insert_pos, is_candidate, lemma_find_after_insert,
    lemma_find_char, lemma_find_present_sorted, score, seq_add, sorted_by_label, spec_teach, wins,
    zeros, ProtoV,
};
use vstd::arithmetic::div_mod::lemma_fundamental_div_mod;

verus! {

/// Elementwise sum of a batch of normalized samples, all of length `len`.
pub open spec fn sum_norms(list: Seq<Seq<int>>, len: nat) -> Seq<int>
    decreases list.len(),
{
    if list.len() == 0 {
        zeros(len)
    } else {
        seq_add(sum_norms(list.drop_last(), len), list.last())
    }
}

/// The engine view after teaching `label` with each sample of `list` in turn.
pub open spec fn teach_all(s: Seq<ProtoV>, label: u64, list: Seq<Seq<int>>) -> Seq<ProtoV>
    decreases list.len(),
{
    if list.len() == 0 {
        s
    } else {
        spec_teach(teach_all(s, label, list.drop_last()), label, list.last())
    }
}

/// Updating an entry in place, keeping its label, keeps the entries sorted,
/// keeps `find` of that label at the same index, and touches nothing else.
pub proof fn lemma_find_after_update(s: Seq<ProtoV>, i: int, e: ProtoV)
    requires
        sorted_by_label(s),
        0 <= i < s.len(),
        e.0 == s[i].0,
    ensures
        sorted_by_label(s.update(i, e)),
        find(s.update(i, e), e.0) == i,
{
    let s2 = s.update(i, e);
    assert forall|a: int, b: int| 0 <= a < b < s2.len() implies (#[trigger] s2[a]).0 < (
    #[trigger] s2[b]).0 by {
        assert(s2[a].0 == s[a].0);
        assert(s2[b].0 == s[b].0);
    }
    lemma_find_present_sorted(s2, e.0, i);
}

/// Teach accumulation: teaching a never-taught label (absent, or still the
/// zeroed prototype it was initialized with) with `n` samples leaves its
/// prototype with `count == n` and the accumulator equal to the elementwise
/// sum of the normalized samples.
pub proof fn lemma_teach_accumulation(s: Seq<ProtoV>, label: u64, list: Seq<Seq<int>>, len: nat)
    requires
        sorted_by_label(s),
        find(s, label) == -1 || (s[find(s, label)].1 == zeros(len) && s[find(s, label)].2 == 0),
        list.len() > 0,
        forall|t: int| 0 <= t < list.len() ==> (#[trigger] list[t]).len() == len,
    ensures
        sorted_by_label(teach_all(s, label, list)),
        find(teach_all(s, label, list), label) >= 0,
        teach_all(s, label, list)[find(teach_all(s, label, list), label)].1 == sum_norms(
            list,
            len,
        ),
        teach_all(s, label, list)[find(teach_all(s, label, list), label)].2 == list.len(),
    decreases list.len(),
{
    let ns = list.last();
    if list.len() == 1 {
        assert(list.drop_last().len() == 0);
        assert(teach_all(s, label, list.drop_last()) == s);
        assert(teach_all(s, label, list) == spec_teach(s, label, ns));
        let f0 = find(s, label);
        if f0 >= 0 {
            lemma_find_char(s, label);
            let e: ProtoV = (label, seq_add(s[f0].1, ns), (s[f0].2 + 1) as nat);
            lemma_find_after_update(s, f0, e);
            assert(seq_add(zeros(len), ns) =~= ns);
        } else {
            lemma_find_char(s, label);
            assert(f0 == -1);
            let p = insert_pos(s, label);
            let e: ProtoV = (label, ns, 1nat);
            lemma_insert_pos_bounds(s, label);
            lemma_find_after_insert(s, e, p);
            s.insert_ensures(p, e);
        }
        assert(sum_norms(list, len) =~= ns) by {
            assert(sum_norms(list.drop_last(), len) == zeros(len));
        }
    } else {
        let prev = teach_all(s, label, list.drop_last());
        lemma_teach_accumulation(s, label, list.drop_last(), len);
        let f = find(prev, label);
        lemma_find_char(prev, label);
        let bumped: ProtoV = (label, seq_add(prev[f].1, ns), (prev[f].2 + 1) as nat);
        assert(teach_all(s, label, list) == prev.update(f, bumped));
        lemma_find_after_update(prev, f, bumped);
        assert(seq_add(sum_norms(list.drop_last(), len), ns) == sum_norms(list, len));
    }
}

/// `insert_pos` always lands inside the sequence bounds.
pub proof fn lemma_insert_pos_bounds(s: Seq<ProtoV>, label: u64)
    ensures
        0 <= insert_pos(s, label) <= s.len(),
    decreases s.len(),
{
    if s.len() > 0 && s[0].0 < label {
        lemma_insert_pos_bounds(s.drop_first(), label);
    }
}

/// Re-teach without deduplication: teaching the same normalized sample twice
/// raises the label's count by exactly 2 and its accumulator by the sample
/// added in twice.
pub proof fn lemma_reteach_twice(s: Seq<ProtoV>, label: u64, ns: Seq<int>)
    requires
        sorted_by_label(s),
        find(s, label) >= 0 ==> s[find(s, label)].1.len() == ns.len(),
    ensures
        find(spec_teach(spec_teach(s, label, ns), label, ns), label) >= 0,
        spec_teach(spec_teach(s, label, ns), label, ns)[find(
            spec_teach(spec_teach(s, label, ns), label, ns),
            label,
        )].2 == (if find(s, label) >= 0 {
            (s[find(s, label)].2 + 2) as nat
        } else {
            2nat
        }),
        spec_teach(spec_teach(s, label, ns), label, ns)[find(
            spec_teach(spec_teach(s, label, ns), label, ns),
            label,
        )].1 == seq_add(
            if find(s, label) >= 0 {
                s[find(s, label)].1
            } else {
                zeros(ns.len())
            },
            seq_add(ns, ns),
        ),
{
    let f0 = find(s, label);
    if f0 >= 0 {
        lemma_find_char(s, label);
        let e1: ProtoV = (label, seq_add(s[f0].1, ns), (s[f0].2 + 1) as nat);
        let s1 = s.update(f0, e1);
        assert(spec_teach(s, label, ns) == s1);
        lemma_find_after_update(s, f0, e1);
        let e2: ProtoV = (label, seq_add(s1[f0].1, ns), (s1[f0].2 + 1) as nat);
        let s2 = s1.update(f0, e2);
        assert(spec_teach(s1, label, ns) == s2);
        lemma_find_after_update(s1, f0, e2);
        assert(s2[f0] == e2);
        assert(seq_add(seq_add(s[f0].1, ns), ns) =~= seq_add(s[f0].1, seq_add(ns, ns)));
    } else {
        lemma_find_char(s, label);
        assert(find(s, label) == -1);
        let p = insert_pos(s, label);
        let e1: ProtoV = (label, ns, 1nat);
        lemma_insert_pos_bounds(s, label);
        lemma_find_after_insert(s, e1, p);
        let s1 = s.insert(p, e1);
        assert(spec_teach(s, label, ns) == s1);
        s.insert_ensures(p, e1);
        assert(s1[p] == e1);
        let e2: ProtoV = (label, seq_add(ns, ns), 2nat);
        let s2 = s1.update(p, e2);
        assert(spec_teach(s1, label, ns) == s2);
        lemma_find_after_update(s1, p, e2);
        assert(s2[p] == e2);
        assert(seq_add(zeros(ns.len()), seq_add(ns, ns)) =~= seq_add(ns, ns));
    }
}

/// A bipolar sequence correlates with itself exactly as strongly as it
/// possibly can: its self dot product and its absolute sum both equal its
/// length.
pub proof fn lemma_dot_self_bipolar(ns: Seq<int>)
    requires
        forall|k: int| 0 <= k < ns.len() ==> #[trigger] ns[k] == 1 || ns[k] == -1,
    ensures
        dot(ns, ns) == ns.len(),
        abs_sum(ns) == ns.len(),
    decreases ns.len(),
{
    if ns.len() > 0 {
        lemma_dot_self_bipolar(ns.drop_last());
        let x = ns.last();
        assert(x * x == 1) by (nonlinear_arith)
            requires
                x == 1 || x == -1,
        ;
    }
}

/// Self-recognition: when `label`'s prototype holds exactly one observation,
/// that normalized sample itself, and no other prototype has been taught,
/// guessing with that sample makes the entry win with its raw score equal to
/// its ideal score (confidence exactly one), both being the cell count.
pub proof fn lemma_self_recognition(s: Seq<ProtoV>, i: int, ns: Seq<int>)
    requires
        0 <= i < s.len(),
        s[i].1 == ns,
        s[i].2 == 1,
        forall|k: int| 0 <= k < ns.len() ==> #[trigger] ns[k] == 1 || ns[k] == -1,
        forall|j: int| is_candidate(s, j) ==> j == i,
    ensures
        wins(s, ns, i),
        score(s[i], ns) == ideal(s[i]),
        score(s[i], ns) == ns.len(),
{
    lemma_dot_self_bipolar(ns);
    assert(div_trunc(ns.len() as int, 1) == ns.len()) by {
        lemma_fundamental_div_mod(ns.len() as int, 1);
    }
    assert(score(s[i], ns) == ns.len());
    assert(ideal(s[i]) == ns.len());
}

/// The scoring division truncates toward zero: the quotient times the
/// divisor never overshoots the dividend, and misses it by less than the
/// divisor, on either side of zero.
pub proof fn lemma_div_trunc_truncates(a: int, b: int)
    requires
        b > 0,
    ensures
        a >= 0 ==> b * div_trunc(a, b) <= a < b * div_trunc(a, b) + b,
        a < 0 ==> b * div_trunc(a, b) - b < a <= b * div_trunc(a, b),
{
    if a >= 0 {
        lemma_fundamental_div_mod(a, b);
    } else {
        lemma_fundamental_div_mod(-a, b);
        let q = (-a) / b;
        assert(b * (-q) == -(b * q)) by (nonlinear_arith);
    }
}

} // verus!
