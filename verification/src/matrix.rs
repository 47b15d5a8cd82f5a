//! Fixed-shape grids of raw intensities and of signed integers, and the
//! bipolar normalization that turns the former into the latter.

use vstd::prelude::*;

verus! {

/// A raw sample: a `rows x cols` grid of unsigned intensities, stored in
/// row-major order.  A cell is "ink" when its value is positive.
#[derive(Debug)]
pub struct Grid {
    pub rows: usize,
    pub cols: usize,
    pub data: Vec<u8>,
}

/// A signed integer matrix of the same layout, used both for normalized
/// samples (every cell `+1` or `-1`) and for prototype accumulators.
#[derive(Debug)]
pub struct Matrix {
    pub rows: usize,
    pub cols: usize,
    pub data: Vec<i64>,
}

impl Grid {
    /// The grid holds exactly one value per cell.
    pub open spec fn wf(&self) -> bool {
        self.data@.len() == self.rows as int * self.cols as int
    }
}

impl Matrix {
    /// The matrix holds exactly one value per cell.
    pub open spec fn wf(&self) -> bool {
        self.data@.len() == self.rows as int * self.cols as int
    }
}

/// Bipolar encoding of one raw cell: ink maps to `+1`, background to `-1`.
pub open spec fn normalize_cell(v: u8) -> int {
    if v > 0 {
        1int
    } else {
        -1int
    }
}

/// Bipolar encoding of a whole row-major cell sequence.
pub open spec fn norm_seq(s: Seq<u8>) -> Seq<int> {
    s.map_values(|v: u8| normalize_cell(v))
}

/// Bipolar normalization: each cell of the result is `+1` exactly when the
/// corresponding raw cell is positive, and `-1` otherwise; the shape is kept.
pub fn normalize(g: &Grid) -> (m: Matrix)
    requires
        g.wf(),
    ensures
        m.wf(),
        m.rows == g.rows,
        m.cols == g.cols,
        m.data@.map_values(|c: i64| c as int) == norm_seq(g.data@),
        forall|k: int| 0 <= k < m.data@.len() ==> m.data@[k] == normalize_cell(g.data@[k]),
{
    let mut data: Vec<i64> = Vec::new();
    let mut k: usize = 0;
    while k < g.data.len()
        invariant
            g.wf(),
            k <= g.data@.len(),
            data@.len() == k,
            forall|j: int| 0 <= j < k ==> data@[j] == normalize_cell(g.data@[j]),
        decreases g.data@.len() - k,
    {
        if g.data[k] > 0 {
            data.push(1i64);
        } else {
            data.push(-1i64);
        }
        k += 1;
    }
    proof {
        assert(data@.map_values(|c: i64| c as int) =~= norm_seq(g.data@));
    }
    Matrix { rows: g.rows, cols: g.cols, data }
}

} // verus!
