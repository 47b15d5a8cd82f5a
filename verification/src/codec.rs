//! Persistence codec: the whole engine state as a flat little-endian word
//! stream, with a decoder that accepts exactly the valid encodings.
//!
//! Layout, as 64-bit little-endian words: `rows`, `cols`, the number of
//! entries, then for every prototype in label order its label, its count and
//! its cells.  A cell is stored shifted by `CELL_OFFSET` so that every word
//! is non-negative.

use vstd::prelude::*;

use crate::engine::{abs_of, sorted_by_label, Error, Kohonen, ProtoV, CELLS_MAX, COUNT_MAX};
use crate::matrix::Matrix;
use vstd::bytes::{
    lemma_auto_spec_u64_to_from_le_bytes, spec_u64_from_le_bytes, spec_u64_to_le_bytes,
    u64_from_le_bytes, u64_to_le_bytes,
};
use vstd::slice::slice_subrange;

verus! {

/// The shift that maps a cell value onto a non-negative word.
pub const CELL_OFFSET: u64 = 0x7fff_ffff;

/// The word that stores cell value `c`.
pub open spec fn word_of_cell(c: int) -> u64 {
    (c + CELL_OFFSET) as u64
}

/// The cell value a word stores.
pub open spec fn cell_of_word(w: u64) -> int {
    w as int - CELL_OFFSET
}

/// The words of one entry: label, count, then the shifted cells.
pub open spec fn words_of_entry(p: ProtoV) -> Seq<u64> {
    seq![p.0, p.2 as u64] + p.1.map_values(|c: int| word_of_cell(c))
}

/// The words of all entries, in order.
pub open spec fn words_of_entries(s: Seq<ProtoV>) -> Seq<u64>
    decreases s.len(),
{
    if s.len() == 0 {
        Seq::empty()
    } else {
        words_of_entry(s[0]) + words_of_entries(s.drop_first())
    }
}

/// All words of an engine state with shape `rows x cols` and entries `s`.
pub open spec fn words_of_state(rows: nat, cols: nat, s: Seq<ProtoV>) -> Seq<u64> {
    seq![rows as u64, cols as u64, s.len() as u64] + words_of_entries(s)
}

/// A word sequence as bytes, each word little-endian.
pub open spec fn bytes_of_words(ws: Seq<u64>) -> Seq<u8>
    decreases ws.len(),
{
    if ws.len() == 0 {
        Seq::empty()
    } else {
        spec_u64_to_le_bytes(ws[0]) + bytes_of_words(ws.drop_first())
    }
}

/// The encoding of an engine state.
pub open spec fn spec_encode(rows: nat, cols: nat, s: Seq<ProtoV>) -> Seq<u8> {
    bytes_of_words(words_of_state(rows, cols, s))
}

/// A byte sequence, whose length is a multiple of eight, as words.
pub open spec fn words_of_bytes(bs: Seq<u8>) -> Seq<u64>
    decreases bs.len(),
{
    if bs.len() < 8 {
        Seq::empty()
    } else {
        seq![spec_u64_from_le_bytes(bs.take(8))] + words_of_bytes(bs.skip(8))
    }
}

/// Appending an entry appends its words.
pub proof fn lemma_woe_push(s: Seq<ProtoV>, e: ProtoV)
    ensures
        words_of_entries(s.push(e)) == words_of_entries(s) + words_of_entry(e),
    decreases s.len(),
{
    let t = s.push(e);
    if s.len() == 0 {
        assert(t.drop_first() =~= Seq::<ProtoV>::empty());
        assert(words_of_entries(t.drop_first()) == Seq::<u64>::empty());
        assert(t[0] == e);
        assert(words_of_entries(t) == words_of_entry(e) + Seq::<u64>::empty());
        assert(words_of_entries(t) =~= words_of_entries(s) + words_of_entry(e));
    } else {
        assert(t.drop_first() =~= s.drop_first().push(e));
        lemma_woe_push(s.drop_first(), e);
        assert(t[0] == s[0]);
        assert(words_of_entries(t) == words_of_entry(s[0]) + (words_of_entries(s.drop_first())
            + words_of_entry(e)));
        assert(words_of_entries(s) == words_of_entry(s[0]) + words_of_entries(s.drop_first()));
        assert(words_of_entries(t) =~= words_of_entries(s) + words_of_entry(e));
    }
}

/// Appending a word appends its eight bytes.
pub proof fn lemma_bow_push(ws: Seq<u64>, w: u64)
    ensures
        bytes_of_words(ws.push(w)) == bytes_of_words(ws) + spec_u64_to_le_bytes(w),
    decreases ws.len(),
{
    let t = ws.push(w);
    if ws.len() == 0 {
        assert(t.drop_first() =~= Seq::<u64>::empty());
        assert(bytes_of_words(t.drop_first()) == Seq::<u8>::empty());
        assert(t[0] == w);
        assert(bytes_of_words(t) == spec_u64_to_le_bytes(w) + Seq::<u8>::empty());
        assert(bytes_of_words(t) =~= bytes_of_words(ws) + spec_u64_to_le_bytes(w));
    } else {
        assert(t.drop_first() =~= ws.drop_first().push(w));
        lemma_bow_push(ws.drop_first(), w);
        assert(t[0] == ws[0]);
        assert(bytes_of_words(t) == spec_u64_to_le_bytes(ws[0]) + (bytes_of_words(
            ws.drop_first(),
        ) + spec_u64_to_le_bytes(w)));
        assert(bytes_of_words(ws) == spec_u64_to_le_bytes(ws[0]) + bytes_of_words(
            ws.drop_first(),
        ));
        assert(bytes_of_words(t) =~= bytes_of_words(ws) + spec_u64_to_le_bytes(w));
    }
}

/// Every word contributes exactly eight bytes.
pub proof fn lemma_bow_len(ws: Seq<u64>)
    ensures
        bytes_of_words(ws).len() == 8 * ws.len(),
    decreases ws.len(),
{
    lemma_auto_spec_u64_to_from_le_bytes();
    if ws.len() > 0 {
        lemma_bow_len(ws.drop_first());
    }
}

/// Reading words off a byte stream inverts writing them.
pub proof fn lemma_words_of_bytes_of_words(ws: Seq<u64>)
    ensures
        words_of_bytes(bytes_of_words(ws)) == ws,
    decreases ws.len(),
{
    lemma_auto_spec_u64_to_from_le_bytes();
    if ws.len() == 0 {
        assert(words_of_bytes(bytes_of_words(ws)) =~= ws);
    } else {
        let bs = bytes_of_words(ws);
        lemma_bow_len(ws.drop_first());
        assert(bs.take(8) =~= spec_u64_to_le_bytes(ws[0]));
        assert(bs.skip(8) =~= bytes_of_words(ws.drop_first()));
        lemma_words_of_bytes_of_words(ws.drop_first());
        assert(words_of_bytes(bs) =~= ws);
    }
}

/// Words come off a byte stream chunk by chunk: appending a whole number of
/// chunks appends their words.
pub proof fn lemma_wob_append(a: Seq<u8>, b: Seq<u8>)
    requires
        a.len() % 8 == 0,
    ensures
        words_of_bytes(a + b) == words_of_bytes(a) + words_of_bytes(b),
    decreases a.len(),
{
    if a.len() == 0 {
        assert(a + b =~= b);
        assert(words_of_bytes(a) == Seq::<u64>::empty());
        assert(words_of_bytes(a) + words_of_bytes(b) =~= words_of_bytes(b));
    } else {
        if a.len() < 8 {
            vstd::arithmetic::div_mod::lemma_small_mod(a.len(), 8);
        }
        assert(a.len() >= 8);
        let t = a + b;
        assert(t.take(8) =~= a.take(8));
        assert(t.skip(8) =~= a.skip(8) + b);
        assert((a.len() - 8) % 8 == 0) by (nonlinear_arith)
            requires
                a.len() % 8 == 0,
                a.len() >= 8,
        ;
        lemma_wob_append(a.skip(8), b);
        assert(words_of_bytes(t) == seq![spec_u64_from_le_bytes(a.take(8))] + (words_of_bytes(
            a.skip(8),
        ) + words_of_bytes(b)));
        assert(words_of_bytes(a) == seq![spec_u64_from_le_bytes(a.take(8))] + words_of_bytes(
            a.skip(8),
        ));
        assert(words_of_bytes(t) =~= words_of_bytes(a) + words_of_bytes(b));
    }
}

/// The cells of one entry, when every word respects the count bound.
pub open spec fn parse_cells(ws: Seq<u64>, count: nat) -> Option<Seq<int>> {
    if forall|k: int|
        0 <= k < ws.len() ==> abs_of(cell_of_word(#[trigger] ws[k])) <= count as int {
        Some(ws.map_values(|w: u64| cell_of_word(w)))
    } else {
        None
    }
}

/// Exactly `n` entries off the front of `ws`, consuming every word, with
/// labels strictly above `lo` and strictly increasing, counts bounded, and
/// every cell within its count.
pub open spec fn parse_entries(ws: Seq<u64>, cells: nat, lo: int, n: nat) -> Option<Seq<ProtoV>>
    decreases n,
{
    if n == 0 {
        if ws.len() == 0 {
            Some(Seq::empty())
        } else {
            None
        }
    } else if ws.len() < 2 + cells {
        None
    } else if ws[0] as int <= lo || ws[1] > COUNT_MAX {
        None
    } else {
        match parse_cells(ws.subrange(2, 2 + cells as int), ws[1] as nat) {
            Option::None => None,
            Option::Some(cs) => match parse_entries(
                ws.skip(2 + cells as int),
                cells,
                ws[0] as int,
                (n - 1) as nat,
            ) {
                Option::None => None,
                Option::Some(rest) => Some(seq![(ws[0], cs, ws[1] as nat)] + rest),
            },
        }
    }
}

/// A whole word stream as an engine state: shape header, then the entries.
pub open spec fn parse_words(ws: Seq<u64>) -> Option<(u64, u64, Seq<ProtoV>)> {
    if ws.len() < 3 {
        None
    } else if ws[0] > CELLS_MAX as u64 || ws[1] > CELLS_MAX as u64 || ws[0] as int * ws[1] as int
        > CELLS_MAX as int {
        None
    } else {
        match parse_entries(ws.skip(3), (ws[0] as int * ws[1] as int) as nat, -1, ws[2] as nat) {
            Option::None => None,
            Option::Some(s) => Some((ws[0], ws[1], s)),
        }
    }
}

/// A byte stream as an engine state.
pub open spec fn spec_decode(bs: Seq<u8>) -> Option<(u64, u64, Seq<ProtoV>)> {
    if bs.len() % 8 != 0 {
        None
    } else {
        parse_words(words_of_bytes(bs))
    }
}

/// The view-level conditions under which an engine state can be encoded and
/// decoded: a bounded shape, sorted labels, bounded counts, every
/// accumulator of the right size with cells within their counts.
pub open spec fn valid_view(rows: nat, cols: nat, s: Seq<ProtoV>) -> bool {
    &&& rows <= CELLS_MAX as nat
    &&& cols <= CELLS_MAX as nat
    &&& rows * cols <= CELLS_MAX as nat
    &&& s.len() <= usize::MAX as nat
    &&& sorted_by_label(s)
    &&& forall|t: int|
        0 <= t < s.len() ==> {
            &&& (#[trigger] s[t]).1.len() == rows * cols
            &&& s[t].2 <= COUNT_MAX as nat
            &&& forall|k: int|
                0 <= k < s[t].1.len() ==> abs_of(#[trigger] s[t].1[k]) <= s[t].2 as int
        }
}

/// Parsing the words of valid entries gives the entries back.
pub proof fn lemma_parse_entries_round_trip(s: Seq<ProtoV>, cells: nat, lo: int)
    requires
        sorted_by_label(s),
        s.len() > 0 ==> lo < s[0].0 as int,
        forall|t: int|
            0 <= t < s.len() ==> {
                &&& (#[trigger] s[t]).1.len() == cells
                &&& s[t].2 <= COUNT_MAX as nat
                &&& forall|k: int|
                    0 <= k < s[t].1.len() ==> abs_of(#[trigger] s[t].1[k]) <= s[t].2 as int
            },
    ensures
        parse_entries(words_of_entries(s), cells, lo, s.len()) == Some(s),
    decreases s.len(),
{
    let ws = words_of_entries(s);
    if s.len() == 0 {
        assert(ws =~= Seq::<u64>::empty());
        assert(Some(Seq::<ProtoV>::empty()) =~~= Some(s));
    } else {
        let e = s[0];
        let ew = words_of_entry(e);
        let rest_w = words_of_entries(s.drop_first());
        assert(ws == ew + rest_w);
        assert(ew.len() == 2 + cells);
        assert(ws[0] == e.0);
        assert(ws[1] == e.2 as u64);
        assert(e.2 as u64 <= COUNT_MAX);
        assert((e.2 as u64) as nat == e.2);
        let cw = ws.subrange(2, 2 + cells as int);
        assert(cw =~= e.1.map_values(|c: int| word_of_cell(c))) by {
            assert forall|k: int| 0 <= k < cells implies cw[k] == e.1.map_values(
                |c: int| word_of_cell(c),
            )[k] by {
                assert(cw[k] == ew[2 + k]);
            }
        }
        assert forall|k: int| 0 <= k < cw.len() implies abs_of(cell_of_word(#[trigger] cw[k]))
            <= e.2 as int by {
            let c = e.1[k];
            assert(abs_of(c) <= e.2 as int);
            assert(cw[k] == word_of_cell(c));
            assert(0 <= c + CELL_OFFSET <= 2 * CELL_OFFSET);
            assert(word_of_cell(c) as int == c + CELL_OFFSET);
            assert(cell_of_word(word_of_cell(c)) == c);
        }
        assert(parse_cells(cw, e.2) == Some(cw.map_values(|w: u64| cell_of_word(w))));
        assert(cw.map_values(|w: u64| cell_of_word(w)) =~= e.1) by {
            assert forall|k: int| 0 <= k < cells implies cw.map_values(|w: u64| cell_of_word(w))[k]
                == e.1[k] by {
                let c = e.1[k];
                assert(cw[k] == word_of_cell(c));
                assert(0 <= c + CELL_OFFSET <= 2 * CELL_OFFSET);
                assert(cell_of_word(word_of_cell(c)) == c);
            }
        }
        assert(ws.skip(2 + cells as int) =~= rest_w);
        assert forall|a: int, b: int|
            0 <= a < b < s.drop_first().len() implies (#[trigger] s.drop_first()[a]).0 < (
        #[trigger] s.drop_first()[b]).0 by {
            assert(s.drop_first()[a] == s[a + 1]);
            assert(s.drop_first()[b] == s[b + 1]);
        }
        assert(s.drop_first().len() > 0 ==> (e.0 as int) < s.drop_first()[0].0 as int) by {
            if s.len() > 1 {
                assert(s.drop_first()[0] == s[1]);
            }
        }
        assert forall|t: int| 0 <= t < s.drop_first().len() implies {
            &&& (#[trigger] s.drop_first()[t]).1.len() == cells
            &&& s.drop_first()[t].2 <= COUNT_MAX as nat
            &&& forall|k: int|
                0 <= k < s.drop_first()[t].1.len() ==> abs_of(#[trigger] s.drop_first()[t].1[k])
                    <= s.drop_first()[t].2 as int
        } by {
            assert(s.drop_first()[t] == s[t + 1]);
        }
        lemma_parse_entries_round_trip(s.drop_first(), cells, e.0 as int);
        assert(e.0 as int > lo);
        assert((ws[0], cw.map_values(|w: u64| cell_of_word(w)), ws[1] as nat) == e);
        assert(seq![e] + s.drop_first() =~= s);
        assert(parse_entries(ws, cells, lo, s.len()) == Some(seq![e] + s.drop_first()));
    }
}

/// Round trip: decoding the encoding of any valid engine state yields that
/// state back, exactly.
pub proof fn lemma_round_trip(rows: nat, cols: nat, s: Seq<ProtoV>)
    requires
        valid_view(rows, cols, s),
    ensures
        spec_decode(spec_encode(rows, cols, s)) == Some((rows as u64, cols as u64, s)),
{
    let ws = words_of_state(rows, cols, s);
    let bs = spec_encode(rows, cols, s);
    lemma_bow_len(ws);
    assert((8 * ws.len() as int) % 8 == 0) by (nonlinear_arith);
    lemma_words_of_bytes_of_words(ws);
    assert(words_of_bytes(bs) == ws);
    assert(ws.len() >= 3);
    assert(ws[0] == rows as u64);
    assert(ws[1] == cols as u64);
    assert(ws[2] == s.len() as u64);
    assert(rows as u64 <= CELLS_MAX as u64);
    assert(cols as u64 <= CELLS_MAX as u64);
    assert((rows as u64) as int * (cols as u64) as int == rows * cols);
    assert(ws.skip(3) =~= words_of_entries(s));
    lemma_parse_entries_round_trip(s, rows * cols, -1);
    assert((s.len() as u64) as nat == s.len());
    assert(parse_words(ws) == Some((rows as u64, cols as u64, s)));
}

/// Every well-formed engine's view is within the codec's bounds.
pub proof fn lemma_wf_valid_view(e: &Kohonen)
    requires
        e.wf(),
    ensures
        valid_view(e.spec_dim().0, e.spec_dim().1, e.av()),
{
    broadcast use vstd::std_specs::vec::axiom_spec_len;

    assert(e.av().len() == e.protos@.len());
    assert(vstd::std_specs::vec::spec_vec_len(&e.protos) == e.protos@.len());
    assert(e.protos@.len() <= usize::MAX);
    assert forall|t: int| 0 <= t < e.av().len() implies {
        &&& (#[trigger] e.av()[t]).1.len() == e.spec_dim().0 * e.spec_dim().1
        &&& e.av()[t].2 <= COUNT_MAX as nat
        &&& forall|k: int|
            0 <= k < e.av()[t].1.len() ==> abs_of(#[trigger] e.av()[t].1[k]) <= e.av()[t].2 as int
    } by {
        assert(e.av()[t].1 == e.protos@[t].1.acc.data@.map_values(|c: i64| c as int));
        assert(e.av()[t].2 == e.protos@[t].1.count as nat);
        assert(e.protos@[t].1.acc.wf());
        assert forall|k: int| 0 <= k < e.av()[t].1.len() implies abs_of(
            #[trigger] e.av()[t].1[k],
        ) <= e.av()[t].2 as int by {
            assert(e.av()[t].1[k] == e.protos@[t].1.acc.data@[k] as int);
            assert(abs_of(e.protos@[t].1.acc.data@[k] as int) <= e.protos@[t].1.count as int);
        }
    }
}

/// Round trip at engine level: decoding what a well-formed engine encodes
/// yields exactly its dimensions and its entries.
pub proof fn lemma_engine_round_trip(e: &Kohonen)
    requires
        e.wf(),
    ensures
        spec_decode(spec_encode(e.spec_dim().0, e.spec_dim().1, e.av())) == Some(
            (e.rows as u64, e.cols as u64, e.av()),
        ),
{
    lemma_wf_valid_view(e);
    lemma_round_trip(e.spec_dim().0, e.spec_dim().1, e.av());
}

/// The exclusive lower bound on the next label while decoding: no bound
/// before the first entry, afterwards the label last read.
pub open spec fn lo_of(done: u64, prev: u64) -> int {
    if done == 0 {
        -1
    } else {
        prev as int
    }
}

impl Kohonen {
    /// Encode the engine state into bytes.
    pub fn to_bytes(&self) -> (out: Vec<u8>)
        requires
            self.wf(),
        ensures
            out@ == spec_encode(self.spec_dim().0, self.spec_dim().1, self.av()),
    {
        let ghost s = self.av();
        let mut words: Vec<u64> = Vec::new();
        words.push(self.rows as u64);
        words.push(self.cols as u64);
        words.push(self.protos.len() as u64);
        let ghost header = seq![
            self.rows as u64,
            self.cols as u64,
            self.protos@.len() as u64,
        ];
        proof {
            assert(s.len() == self.protos@.len());
            assert(words@ =~= header + words_of_entries(s.take(0)));
        }
        let mut i: usize = 0;
        while i < self.protos.len()
            invariant
                self.wf(),
                s == self.av(),
                header == seq![self.rows as u64, self.cols as u64, self.protos@.len() as u64],
                i <= self.protos@.len(),
                words@ == header + words_of_entries(s.take(i as int)),
            decreases self.protos@.len() - i,
        {
            let ghost w0 = words@;
            let label = self.protos[i].0;
            let count = self.protos[i].1.count;
            words.push(label);
            words.push(count);
            proof {
                assert(s[i as int].0 == label);
                assert(s[i as int].2 == count as nat);
                assert(s[i as int].1 == self.protos@[i as int].1.acc.data@.map_values(
                    |c: i64| c as int,
                ));
            }
            let ghost cellws = s[i as int].1.map_values(|c: int| word_of_cell(c));
            let mut k: usize = 0;
            let n = self.protos[i].1.acc.data.len();
            while k < n
                invariant
                    self.wf(),
                    s == self.av(),
                    i < self.protos@.len(),
                    n == self.protos@[i as int].1.acc.data@.len(),
                    s[i as int].1 == self.protos@[i as int].1.acc.data@.map_values(
                        |c: i64| c as int,
                    ),
                    s[i as int].2 == self.protos@[i as int].1.count as nat,
                    cellws == s[i as int].1.map_values(|c: int| word_of_cell(c)),
                    k <= n,
                    words@ == w0 + seq![s[i as int].0, s[i as int].2 as u64] + cellws.take(
                        k as int,
                    ),
                decreases n - k,
            {
                let cell = self.protos[i].1.acc.data[k];
                proof {
                    assert(abs_of(self.protos@[i as int].1.acc.data@[k as int] as int)
                        <= self.protos@[i as int].1.count as int);
                    assert(self.protos@[i as int].1.count <= COUNT_MAX);
                }
                let w = (cell + (CELL_OFFSET as i64)) as u64;
                words.push(w);
                proof {
                    assert(s[i as int].1[k as int] == cell as int);
                    assert(w == word_of_cell(s[i as int].1[k as int]));
                    assert(cellws[k as int] == w);
                    assert(cellws.take(k as int + 1) =~= cellws.take(k as int).push(w));
                    assert(words@ =~= w0 + seq![s[i as int].0, s[i as int].2 as u64]
                        + cellws.take(k as int + 1));
                }
                k += 1;
            }
            proof {
                assert(cellws.take(n as int) =~= cellws);
                assert(words@ =~= w0 + words_of_entry(s[i as int]));
                lemma_woe_push(s.take(i as int), s[i as int]);
                assert(s.take(i as int).push(s[i as int]) =~= s.take(i as int + 1));
                assert(words@ =~= header + words_of_entries(s.take(i as int + 1)));
            }
            i += 1;
        }
        proof {
            assert(s.take(s.len() as int) =~= s);
            assert(words@ == words_of_state(self.spec_dim().0, self.spec_dim().1, s));
        }
        let mut out: Vec<u8> = Vec::new();
        let mut j: usize = 0;
        proof {
            assert(out@ =~= bytes_of_words(words@.take(0)));
        }
        while j < words.len()
            invariant
                j <= words@.len(),
                out@ == bytes_of_words(words@.take(j as int)),
            decreases words@.len() - j,
        {
            let mut bs = u64_to_le_bytes(words[j]);
            out.append(&mut bs);
            proof {
                lemma_bow_push(words@.take(j as int), words@[j as int]);
                assert(words@.take(j as int).push(words@[j as int]) =~= words@.take(j as int + 1));
            }
            j += 1;
        }
        proof {
            assert(words@.take(words@.len() as int) =~= words@);
        }
        out
    }
}

impl Kohonen {
    /// Decode bytes back into an engine.  Succeeds exactly on the valid
    /// encodings; anything else fails with `Deserialization`.
    pub fn from_bytes(bytes: &Vec<u8>) -> (r: Result<Kohonen, Error>)
        ensures
            match r {
                Ok(e2) => {
                    &&& e2.wf()
                    &&& spec_decode(bytes@) == Some((e2.rows as u64, e2.cols as u64, e2.av()))
                },
                Err(err) => {
                    &&& err == Error::Deserialization
                    &&& spec_decode(bytes@) == None::<(u64, u64, Seq<ProtoV>)>
                },
            },
    {
        if bytes.len() % 8 != 0 {
            return Err(Error::Deserialization);
        }
        let nw = bytes.len() / 8;
        let mut ws: Vec<u64> = Vec::new();
        let mut j: usize = 0;
        proof {
            assert(bytes@.take(0) =~= Seq::<u8>::empty());
            assert(words_of_bytes(bytes@.take(0)) =~= Seq::<u64>::empty());
        }
        while j < nw
            invariant
                bytes@.len() <= usize::MAX,
                bytes@.len() % 8 == 0,
                nw == bytes@.len() / 8,
                j <= nw,
                ws@.len() == j,
                ws@ == words_of_bytes(bytes@.take(8 * j as int)),
            decreases nw - j,
        {
            proof {
                vstd::arithmetic::div_mod::lemma_fundamental_div_mod(bytes@.len() as int, 8);
                assert(bytes@.len() as int == 8 * nw as int);
                assert(8 * j + 8 <= bytes@.len());
            }
            let chunk = slice_subrange(bytes.as_slice(), 8 * j, 8 * j + 8);
            let w = u64_from_le_bytes(chunk);
            let ghost pre = bytes@.take(8 * j as int);
            ws.push(w);
            proof {
                lemma_auto_spec_u64_to_from_le_bytes();
                let post = bytes@.take(8 * (j + 1) as int);
                assert(post.take(8 * j as int) =~= pre);
                assert(post.skip(8 * j as int) =~= chunk@);
                lemma_wob_append(pre, chunk@);
                assert(post =~= pre + chunk@);
                assert(words_of_bytes(chunk@) =~= seq![spec_u64_from_le_bytes(chunk@)]) by {
                    assert(chunk@.take(8) =~= chunk@);
                    assert(chunk@.skip(8) =~= Seq::<u8>::empty());
                    assert(words_of_bytes(chunk@.skip(8)) == Seq::<u64>::empty());
                }
                assert(spec_u64_to_le_bytes(w) =~= chunk@);
                assert(ws@ =~= words_of_bytes(post));
            }
            j += 1;
        }
        proof {
            vstd::arithmetic::div_mod::lemma_fundamental_div_mod(bytes@.len() as int, 8);
            assert(bytes@.take(8 * nw as int) =~= bytes@);
        }
        let ghost wsv = ws@;
        proof {
            assert(spec_decode(bytes@) == parse_words(wsv));
        }
        if ws.len() < 3 {
            return Err(Error::Deserialization);
        }
        let rows_w = ws[0];
        let cols_w = ws[1];
        let n_w = ws[2];
        if rows_w > CELLS_MAX as u64 || cols_w > CELLS_MAX as u64 {
            return Err(Error::Deserialization);
        }
        proof {
            assert(rows_w as int * cols_w as int <= 0x7fff_ffff * 0x7fff_ffff) by (
            nonlinear_arith)
                requires
                    0 <= rows_w as int <= 0x7fff_ffff,
                    0 <= cols_w as int <= 0x7fff_ffff,
            ;
        }
        let prod = rows_w * cols_w;
        if prod > CELLS_MAX as u64 {
            return Err(Error::Deserialization);
        }
        let rows = rows_w as usize;
        let cols = cols_w as usize;
        let cells = prod as usize;
        let ghost tail = wsv.skip(3);
        let ghost full = parse_entries(tail, cells as nat, -1, n_w as nat);
        let mut e = Kohonen { rows, cols, protos: Vec::new() };
        let mut pos: usize = 3;
        let mut done: u64 = 0;
        let mut prev_label: u64 = 0;
        proof {
            assert(e.av() =~= Seq::<ProtoV>::empty());
            assert(wsv.skip(pos as int) =~= tail);
            assert(full == match parse_entries(
                wsv.skip(pos as int),
                cells as nat,
                lo_of(done, prev_label),
                (n_w - done) as nat,
            ) {
                Option::None => None::<Seq<ProtoV>>,
                Option::Some(rest) => Some(e.av() + rest),
            }) by {
                if parse_entries(tail, cells as nat, -1, n_w as nat) is Some {
                    let rest = parse_entries(tail, cells as nat, -1, n_w as nat)->Some_0;
                    assert(e.av() + rest =~= rest);
                }
            }
        }
        while done < n_w
            invariant
                ws@ == wsv,
                wsv.len() <= usize::MAX,
                3 <= pos <= wsv.len(),
                done <= n_w,
                spec_decode(bytes@) == parse_words(wsv),
                wsv.len() >= 3,
                rows_w == wsv[0],
                cols_w == wsv[1],
                n_w == wsv[2],
                rows_w <= CELLS_MAX as u64,
                cols_w <= CELLS_MAX as u64,
                rows_w as int * cols_w as int <= CELLS_MAX as int,
                cells == rows_w as int * cols_w as int,
                full == parse_entries(wsv.skip(3), cells as nat, -1, n_w as nat),
                e.wf(),
                e.rows == rows,
                e.cols == cols,
                rows <= CELLS_MAX,
                cols <= CELLS_MAX,
                cells == rows as int * cols as int,
                cells <= CELLS_MAX,
                e.av().len() == done,
                done > 0 ==> forall|t: int|
                    0 <= t < e.av().len() ==> (#[trigger] e.av()[t]).0 <= prev_label,
                full == match parse_entries(
                    wsv.skip(pos as int),
                    cells as nat,
                    lo_of(done, prev_label),
                    (n_w - done) as nat,
                ) {
                    Option::None => None::<Seq<ProtoV>>,
                    Option::Some(rest) => Some(e.av() + rest),
                },
            decreases n_w - done,
        {
            let ghost suffix = wsv.skip(pos as int);
            let ghost curlo = lo_of(done, prev_label);
            let remaining = ws.len() - pos;
            if remaining < 2 + cells {
                proof {
                    assert(suffix.len() < 2 + cells as nat);
                    assert(parse_entries(suffix, cells as nat, curlo, (n_w - done) as nat)
                        is None);
                }
                return Err(Error::Deserialization);
            }
            let label = ws[pos];
            let count = ws[pos + 1];
            proof {
                assert(suffix[0] == wsv[pos as int]);
                assert(suffix[1] == wsv[pos as int + 1]);
            }
            if (done > 0 && label <= prev_label) || count > COUNT_MAX {
                proof {
                    assert(label as int <= curlo || count > COUNT_MAX);
                    assert(parse_entries(suffix, cells as nat, curlo, (n_w - done) as nat)
                        is None);
                }
                return Err(Error::Deserialization);
            }
            let mut data: Vec<i64> = Vec::new();
            let mut k: usize = 0;
            let mut bad: bool = false;
            proof {
                assert(wsv.len() == ws@.len());
            }
            while k < cells && !bad
                invariant
                    ws@ == wsv,
                    wsv.len() <= usize::MAX,
                    3 <= pos,
                    pos + 2 + cells <= wsv.len(),
                    k <= cells,
                    count <= COUNT_MAX,
                    bad ==> exists|t: int|
                        0 <= t < cells && abs_of(cell_of_word(#[trigger] wsv[pos + 2 + t]))
                            > count as int,
                    !bad ==> data@.len() == k,
                    !bad ==> forall|t: int|
                        0 <= t < k ==> #[trigger] data@[t] as int == cell_of_word(
                            wsv[pos + 2 + t],
                        ) && abs_of(data@[t] as int) <= count as int,
                decreases cells - k, (if bad { 0int } else { 1int }),
            {
                let w = ws[pos + 2 + k];
                if w < CELL_OFFSET - count || w > CELL_OFFSET + count {
                    bad = true;
                    proof {
                        assert(abs_of(cell_of_word(wsv[pos + 2 + k as int])) > count as int);
                    }
                } else {
                    let cell = (w as i64) - (CELL_OFFSET as i64);
                    data.push(cell);
                    k += 1;
                }
            }
            if bad {
                proof {
                    let cw = suffix.subrange(2, 2 + cells as int);
                    let t = choose|t: int|
                        0 <= t < cells && abs_of(cell_of_word(#[trigger] wsv[pos + 2 + t]))
                            > count as int;
                    assert(cw[t] == wsv[pos + 2 + t]);
                    assert(parse_cells(cw, count as nat) is None);
                    assert(parse_entries(suffix, cells as nat, curlo, (n_w - done) as nat)
                        is None);
                }
                return Err(Error::Deserialization);
            }
            let ghost dmap = data@.map_values(|c: i64| c as int);
            proof {
                let cw = suffix.subrange(2, 2 + cells as int);
                assert forall|t: int| 0 <= t < cw.len() implies abs_of(cell_of_word(
                    #[trigger] cw[t],
                )) <= count as int by {
                    assert(cw[t] == wsv[pos + 2 + t]);
                    assert(data@[t] as int == cell_of_word(wsv[pos + 2 + t]));
                }
                assert(parse_cells(cw, count as nat) == Some(cw.map_values(
                    |w: u64| cell_of_word(w),
                )));
                assert(dmap =~= cw.map_values(|w: u64| cell_of_word(w))) by {
                    assert forall|t: int| 0 <= t < cells implies dmap[t] == cw.map_values(
                        |w: u64| cell_of_word(w),
                    )[t] by {
                        assert(cw[t] == wsv[pos + 2 + t]);
                    }
                }
            }
            let ghost av0 = e.av();
            let ghost pv0 = e.protos@;
            let acc = Matrix { rows, cols, data };
            e.protos.push((label, crate::engine::Prototype { acc, count }));
            proof {
                let ghost entry: ProtoV = (label, dmap, count as nat);
                assert(e.protos@ == pv0.push(e.protos@[pv0.len() as int]));
                assert(e.av() =~= av0.push(entry)) by {
                    assert forall|t: int| 0 <= t < e.av().len() implies e.av()[t] == av0.push(
                        entry,
                    )[t] by {
                        if t < pv0.len() {
                            assert(e.protos@[t] == pv0[t]);
                        }
                    }
                }
                assert(sorted_by_label(e.av())) by {
                    assert forall|a: int, b: int| 0 <= a < b < e.av().len() implies (
                    #[trigger] e.av()[a]).0 < (#[trigger] e.av()[b]).0 by {
                        if b < av0.len() {
                            assert(e.av()[a] == av0[a]);
                            assert(e.av()[b] == av0[b]);
                        } else {
                            assert(e.av()[b] == entry);
                            if a < av0.len() {
                                assert(e.av()[a] == av0[a]);
                                if done > 0 {
                                    assert(av0[a].0 <= prev_label);
                                    assert(label > prev_label);
                                }
                            }
                        }
                    }
                }
                assert forall|t: int| 0 <= t < e.protos@.len() implies {
                    &&& (#[trigger] e.protos@[t]).1.acc.wf()
                    &&& e.protos@[t].1.acc.rows == e.rows
                    &&& e.protos@[t].1.acc.cols == e.cols
                    &&& e.protos@[t].1.count <= COUNT_MAX
                    &&& forall|q: int|
                        0 <= q < e.protos@[t].1.acc.data@.len() ==> abs_of(
                            #[trigger] e.protos@[t].1.acc.data@[q] as int,
                        ) <= e.protos@[t].1.count as int
                } by {
                    if t < pv0.len() {
                        assert(e.protos@[t] == pv0[t]);
                    }
                }
                // the spec parser takes the same step
                let rest_suffix = wsv.skip(pos + 2 + cells as int);
                assert(suffix.skip(2 + cells as int) =~= rest_suffix);
                let rest = parse_entries(
                    rest_suffix,
                    cells as nat,
                    label as int,
                    (n_w - done - 1) as nat,
                );
                assert(parse_entries(suffix, cells as nat, curlo, (n_w - done) as nat)
                    == match rest {
                    Option::None => None::<Seq<ProtoV>>,
                    Option::Some(r2) => Some(seq![entry] + r2),
                });
                if rest is Some {
                    let r2 = rest->Some_0;
                    assert(av0 + (seq![entry] + r2) =~= e.av() + r2);
                }
            }
            pos += 2 + cells;
            prev_label = label;
            done += 1;
        }
        if pos != ws.len() {
            proof {
                assert(wsv.skip(pos as int).len() > 0);
                assert(parse_entries(
                    wsv.skip(pos as int),
                    cells as nat,
                    lo_of(done, prev_label),
                    0,
                ) is None);
            }
            return Err(Error::Deserialization);
        }
        proof {
            assert(wsv.skip(pos as int) =~= Seq::<u64>::empty());
            assert(parse_entries(wsv.skip(pos as int), cells as nat, lo_of(done, prev_label), 0)
                == Some(Seq::<ProtoV>::empty()));
            assert(e.av() + Seq::<ProtoV>::empty() =~= e.av());
            assert(full == Some(e.av()));
            assert(parse_words(wsv) == Some((rows_w, cols_w, e.av())));
        }
        Ok(e)
    }
}

} // verus!
