//! The support candidates of a query: every point stored in the block of
//! cells around the query's cell, in the grid's walk order.

use vstd::prelude::*;
use crate::grid::{all_below, cell_count, cell_index, checked_cell_count, is_monotone, lemma_cell_index_inside, linear_cell, MlsArena};

verus! {

/// Lower end of the cell window on one axis: `c - reach`, saturated at 0.
pub open spec fn window_lo(c: u32, reach: u32) -> u32 {
    if c >= reach { (c - reach) as u32 } else { 0 }
}

/// Upper end of the cell window on one axis: `c + reach`, clamped to the
/// last cell `dim - 1`.
pub open spec fn window_hi(c: u32, reach: u32, dim: u32) -> u32 {
    if c + reach < dim - 1 { (c + reach) as u32 } else { (dim - 1) as u32 }
}

impl MlsArena {
    /// The grid arrays are mutually consistent: one offset per cell plus one,
    /// starting at 0, monotone, ending at the number of stored indices, and
    /// every stored index naming a point.
    pub open spec fn spec_consistent(&self) -> bool {
        &&& self.dims[0] >= 1 && self.dims[1] >= 1 && self.dims[2] >= 1
        &&& cell_count(self.dims) < usize::MAX
        &&& self.cell_offsets@.len() == cell_count(self.dims) + 1
        &&& self.cell_offsets@[0] == 0
        &&& forall|i: int| 0 <= i < self.cell_offsets@.len() - 1 ==> #[trigger] self.cell_offsets@[i] <= self.cell_offsets@[i + 1]
        &&& self.cell_offsets@.last() == self.point_indices@.len()
        &&& self.points@.len() % 3 == 0
        &&& forall|k: int| 0 <= k < self.point_indices@.len() ==> #[trigger] self.point_indices@[k] < self.points@.len() / 3
    }

    /// The points stored in one cell.
    pub open spec fn cell_points(&self, cell: int) -> Seq<u32> {
        self.point_indices@.subrange(self.cell_offsets@[cell] as int, self.cell_offsets@[cell + 1] as int)
    }

    /// The points of cells `x0..=x1` of row `(y, z)`, x ascending.
    pub open spec fn row_points(&self, x0: int, x1: int, y: int, z: int) -> Seq<u32>
        decreases x1 - x0 + 1,
    {
        if x1 < x0 {
            Seq::empty()
        } else {
            self.row_points(x0, x1 - 1, y, z) + self.cell_points(cell_index(x1, y, z, self.dims))
        }
    }

    /// The points of rows `y0..=y1` of layer `z`, y ascending.
    pub open spec fn layer_points(&self, x0: int, x1: int, y0: int, y1: int, z: int) -> Seq<u32>
        decreases y1 - y0 + 1,
    {
        if y1 < y0 {
            Seq::empty()
        } else {
            self.layer_points(x0, x1, y0, y1 - 1, z) + self.row_points(x0, x1, y1, z)
        }
    }

    /// The points of the block of cells `lo..=hi`: z outermost, then y, then
    /// x, and within a cell in stored order.
    pub open spec fn block_points(&self, lo: [u32; 3], hi: [u32; 3], z1: int) -> Seq<u32>
        decreases z1 - lo[2] + 1,
    {
        if z1 < lo[2] {
            Seq::empty()
        } else {
            self.block_points(lo, hi, z1 - 1) + self.layer_points(lo[0] as int, hi[0] as int, lo[1] as int, hi[1] as int, z1)
        }
    }

    /// The support candidates of a query in cell `c`: the points of the
    /// cells at most `reach` cells away on every axis, within the grid.
    pub open spec fn spec_neighbour_candidates(&self, c: [u32; 3], reach: u32) -> Seq<u32> {
        let lo = [window_lo(c[0], reach), window_lo(c[1], reach), window_lo(c[2], reach)];
        let hi = [
            window_hi(c[0], reach, self.dims[0]),
            window_hi(c[1], reach, self.dims[1]),
            window_hi(c[2], reach, self.dims[2]),
        ];
        self.block_points(lo, hi, hi[2] as int)
    }

    /// Whether the grid arrays are mutually consistent (`spec_consistent`).
    pub fn is_consistent(&self) -> (r: bool)
        ensures
            r == self.spec_consistent(),
    {
        if self.dims[0] == 0 || self.dims[1] == 0 || self.dims[2] == 0 {
            return false;
        }
        let ncells = match checked_cell_count(self.dims) {
            Some(n) => n,
            None => return false,
        };
        if self.cell_offsets.len() != ncells + 1 || self.cell_offsets[0] != 0 {
            return false;
        }
        if !is_monotone(&self.cell_offsets) {
            return false;
        }
        if self.cell_offsets[ncells] as usize != self.point_indices.len() || self.points.len() % 3 != 0 {
            return false;
        }
        all_below(&self.point_indices, self.points.len() / 3)
    }

    /// Append the points of one cell.
    fn push_cell(&self, cell: usize, out: &mut Vec<u32>)
        requires
            self.spec_consistent(),
            cell < cell_count(self.dims),
        ensures
            final(out)@ == old(out)@ + self.cell_points(cell as int),
            (forall|k: int| 0 <= k < old(out)@.len() ==> #[trigger] old(out)@[k] < self.points@.len() / 3)
                ==> (forall|k: int| 0 <= k < final(out)@.len() ==> #[trigger] final(out)@[k] < self.points@.len() / 3),
    {
        let ghost start = out@;
        let begin = self.cell_offsets[cell] as usize;
        let end = self.cell_offsets[cell + 1] as usize;
        assert(self.cell_offsets@[cell as int] <= self.cell_offsets@[cell + 1]);
        assert(self.cell_offsets@[cell + 1] <= self.point_indices@.len()) by {
            lemma_offsets_bounded(self.cell_offsets@, cell + 1);
        }
        let mut s = begin;
        while s < end
            invariant
                begin <= s <= end <= self.point_indices@.len(),
                self.spec_consistent(),
                out@ == start + self.point_indices@.subrange(begin as int, s as int),
                (forall|k: int| 0 <= k < start.len() ==> #[trigger] start[k] < self.points@.len() / 3)
                    ==> (forall|k: int| 0 <= k < out@.len() ==> #[trigger] out@[k] < self.points@.len() / 3),
            decreases end - s,
        {
            assert(self.point_indices@[s as int] < self.points@.len() / 3);
            out.push(self.point_indices[s]);
            assert(self.point_indices@.subrange(begin as int, s + 1) =~= self.point_indices@.subrange(begin as int, s as int).push(self.point_indices@[s as int]));
            s += 1;
        }
    }

    /// The support candidates of a query in cell `c`, as point indices, in
    /// the grid's walk order.
    pub fn neighbour_candidates(&self, c: [u32; 3], reach: u32) -> (r: Vec<u32>)
        requires
            self.spec_consistent(),
            c[0] < self.dims[0] && c[1] < self.dims[1] && c[2] < self.dims[2],
        ensures
            r@ == self.spec_neighbour_candidates(c, reach),
            forall|k: int| 0 <= k < r@.len() ==> #[trigger] r@[k] < self.points@.len() / 3,
    {
        let (lo, hi) = neighbour_window(c, reach, self.dims);
        let mut out: Vec<u32> = Vec::new();
        let mut z = lo[2];
        while z <= hi[2]
            invariant
                self.spec_consistent(),
                hi[0] < self.dims[0] && hi[1] < self.dims[1] && hi[2] < self.dims[2],
                lo[0] <= hi[0] && lo[1] <= hi[1],
                lo[2] <= z <= hi[2] + 1,
                out@ == self.block_points(lo, hi, z - 1),
                forall|k: int| 0 <= k < out@.len() ==> #[trigger] out@[k] < self.points@.len() / 3,
            decreases hi[2] + 1 - z,
        {
            let mut y = lo[1];
            while y <= hi[1]
                invariant
                    self.spec_consistent(),
                    hi[0] < self.dims[0] && hi[1] < self.dims[1] && hi[2] < self.dims[2],
                    lo[0] <= hi[0],
                    lo[2] <= z <= hi[2],
                    lo[1] <= y <= hi[1] + 1,
                    out@ == self.block_points(lo, hi, z - 1) + self.layer_points(lo[0] as int, hi[0] as int, lo[1] as int, y - 1, z as int),
                    forall|k: int| 0 <= k < out@.len() ==> #[trigger] out@[k] < self.points@.len() / 3,
                decreases hi[1] + 1 - y,
            {
                let mut x = lo[0];
                while x <= hi[0]
                    invariant
                        self.spec_consistent(),
                        hi[0] < self.dims[0] && hi[1] < self.dims[1] && hi[2] < self.dims[2],
                        lo[2] <= z <= hi[2],
                        lo[1] <= y <= hi[1],
                        lo[0] <= x <= hi[0] + 1,
                        out@ == self.block_points(lo, hi, z - 1) + self.layer_points(lo[0] as int, hi[0] as int, lo[1] as int, y - 1, z as int)
                            + self.row_points(lo[0] as int, x - 1, y as int, z as int),
                        forall|k: int| 0 <= k < out@.len() ==> #[trigger] out@[k] < self.points@.len() / 3,
                    decreases hi[0] + 1 - x,
                {
                    proof {
                        lemma_cell_index_inside(x as int, y as int, z as int, self.dims);
                    }
                    let cell = linear_cell(x, y, z, self.dims);
                    let ghost before = out@;
                    self.push_cell(cell, &mut out);
                    assert(out@ =~= self.block_points(lo, hi, z - 1) + self.layer_points(lo[0] as int, hi[0] as int, lo[1] as int, y - 1, z as int)
                        + self.row_points(lo[0] as int, x as int, y as int, z as int));
                    x += 1;
                }
                assert(out@ =~= self.block_points(lo, hi, z - 1) + self.layer_points(lo[0] as int, hi[0] as int, lo[1] as int, y as int, z as int));
                y += 1;
            }
            assert(out@ =~= self.block_points(lo, hi, z as int));
            z += 1;
        }
        out
    }
}

/// Every offset is at most the last one.
proof fn lemma_offsets_bounded(off: Seq<u32>, i: int)
    requires
        0 <= i < off.len(),
        forall|k: int| 0 <= k < off.len() - 1 ==> #[trigger] off[k] <= off[k + 1],
    ensures
        off[i] <= off.last(),
    decreases off.len() - i,
{
    if i < off.len() - 1 {
        lemma_offsets_bounded(off, i + 1);
    }
}

/// The window of cells at most `reach` away from cell `c` on each axis,
/// within a grid of `dims` cells.
pub fn neighbour_window(c: [u32; 3], reach: u32, dims: [u32; 3]) -> (r: ([u32; 3], [u32; 3]))
    requires
        dims[0] >= 1 && dims[1] >= 1 && dims[2] >= 1,
    ensures
        r.0 == [window_lo(c[0], reach), window_lo(c[1], reach), window_lo(c[2], reach)],
        r.1 == [window_hi(c[0], reach, dims[0]), window_hi(c[1], reach, dims[1]), window_hi(c[2], reach, dims[2])],
{
    let mut lo = [0u32; 3];
    let mut hi = [0u32; 3];
    let mut a: usize = 0;
    while a < 3
        invariant
            a <= 3,
            dims[0] >= 1 && dims[1] >= 1 && dims[2] >= 1,
            forall|b: int| 0 <= b < a ==> #[trigger] lo[b] == window_lo(c[b], reach),
            forall|b: int| 0 <= b < a ==> #[trigger] hi[b] == window_hi(c[b], reach, dims[b]),
        decreases 3 - a,
    {
        lo[a] = c[a].saturating_sub(reach);
        let up = c[a].saturating_add(reach);
        let last = dims[a] - 1;
        hi[a] = if up < last { up } else { last };
        a += 1;
    }
    assert(lo =~= [window_lo(c[0], reach), window_lo(c[1], reach), window_lo(c[2], reach)]);
    assert(hi =~= [window_hi(c[0], reach, dims[0]), window_hi(c[1], reach, dims[1]), window_hi(c[2], reach, dims[2])]);
    (lo, hi)
}

} // verus!
