//! What the walk over a window of cells yields: each point once, and only
//! points whose cells lie in the window.

use vstd::prelude::*;
use crate::counting::seq_distinct;
use crate::grid::{cell_count, cell_index, cells_inside, lemma_cell_index_inside, MlsArena};
use crate::properties::{lemma_cell_index_injective, lemma_linear_cells_below, lemma_window_point_is_candidate};
use crate::counting::buckets_hold_their_cells;
use crate::grid::{geometry_fits, lemma_binned_arena_consistent, lemma_fault_free, linear_cells, points_fault, GridGeometry};
use crate::neighbours::{window_hi, window_lo};

verus! {

/// Every stored slot knows the cell coordinates (`pcs`) of its point, and the
/// stored points are distinct.
pub open spec fn slots_know_cells(a: MlsArena, pcs: Seq<[u32; 3]>) -> bool {
    &&& a.spec_consistent()
    &&& seq_distinct(a.point_indices@)
    &&& pcs.len() == a.points@.len() / 3
    &&& cells_inside(pcs, a.dims)
    &&& forall|d: int, k: int| #![trigger a.cell_offsets@[d], a.point_indices@[k]]
        0 <= d < cell_count(a.dims) && a.cell_offsets@[d] <= k < a.cell_offsets@[d + 1]
        ==> cell_index(pcs[a.point_indices@[k] as int][0] as int, pcs[a.point_indices@[k] as int][1] as int,
            pcs[a.point_indices@[k] as int][2] as int, a.dims) == d
}

/// Point `e` lies in the box of cells `[x0, x1] x [y0, y1] x [z0, z1]`.
pub open spec fn located(pcs: Seq<[u32; 3]>, e: u32, x0: int, x1: int, y0: int, y1: int, z0: int, z1: int) -> bool {
    &&& e < pcs.len()
    &&& x0 <= pcs[e as int][0] <= x1
    &&& y0 <= pcs[e as int][1] <= y1
    &&& z0 <= pcs[e as int][2] <= z1
}

proof fn lemma_offsets_ordered(off: Seq<u32>, i: int, j: int)
    requires
        0 <= i <= j < off.len(),
        forall|k: int| 0 <= k < off.len() - 1 ==> #[trigger] off[k] <= off[k + 1],
    ensures
        off[i] <= off[j],
    decreases j - i,
{
    if i < j {
        lemma_offsets_ordered(off, i, j - 1);
    }
}

/// The points of one in-grid cell: distinct, all located in that cell.
pub proof fn lemma_cell_walk(a: MlsArena, pcs: Seq<[u32; 3]>, x: int, y: int, z: int)
    requires
        slots_know_cells(a, pcs),
        0 <= x < a.dims[0] && 0 <= y < a.dims[1] && 0 <= z < a.dims[2],
    ensures
        a.cell_points(cell_index(x, y, z, a.dims)).no_duplicates(),
        forall|t: int| 0 <= t < a.cell_points(cell_index(x, y, z, a.dims)).len() ==>
            located(pcs, #[trigger] a.cell_points(cell_index(x, y, z, a.dims))[t], x, x, y, y, z, z),
{
    let d = cell_index(x, y, z, a.dims);
    lemma_cell_index_inside(x, y, z, a.dims);
    let off = a.cell_offsets@;
    let idx = a.point_indices@;
    lemma_offsets_ordered(off, d, d + 1);
    lemma_offsets_ordered(off, d + 1, off.len() - 1);
    let cp = a.cell_points(d);
    assert forall|t: int| 0 <= t < cp.len() implies located(pcs, #[trigger] cp[t], x, x, y, y, z, z) by {
        let k = off[d] + t;
        assert(cp[t] == idx[k]);
        assert(off[d] <= k < off[d + 1]);
        let e = idx[k] as int;
        assert(e < pcs.len());
        let p = pcs[e];
        assert(p[0] < a.dims[0] && p[1] < a.dims[1] && p[2] < a.dims[2]) by {
            assert(pcs[e][0] < a.dims[0]);
            assert(pcs[e][1] < a.dims[1]);
            assert(pcs[e][2] < a.dims[2]);
        }
        lemma_cell_index_injective(p[0] as int, p[1] as int, p[2] as int, x, y, z, a.dims);
    }
    assert forall|i: int, j: int| 0 <= i < cp.len() && 0 <= j < cp.len() && i != j implies cp[i] != cp[j] by {
        assert(cp[i] == idx[off[d] + i]);
        assert(cp[j] == idx[off[d] + j]);
    }
}

/// The walk over a row of cells: distinct points, located in the row.
pub proof fn lemma_row_walk(a: MlsArena, pcs: Seq<[u32; 3]>, x0: int, x1: int, y: int, z: int)
    requires
        slots_know_cells(a, pcs),
        0 <= x0,
        x1 < a.dims[0],
        0 <= y < a.dims[1] && 0 <= z < a.dims[2],
    ensures
        a.row_points(x0, x1, y, z).no_duplicates(),
        forall|t: int| 0 <= t < a.row_points(x0, x1, y, z).len() ==>
            located(pcs, #[trigger] a.row_points(x0, x1, y, z)[t], x0, x1, y, y, z, z),
    decreases x1 - x0 + 1,
{
    if x1 >= x0 {
        let head = a.row_points(x0, x1 - 1, y, z);
        let tail = a.cell_points(cell_index(x1, y, z, a.dims));
        lemma_row_walk(a, pcs, x0, x1 - 1, y, z);
        lemma_cell_walk(a, pcs, x1, y, z);
        assert forall|i: int, j: int| 0 <= i < head.len() && 0 <= j < tail.len() implies head[i] != tail[j] by {
            assert(located(pcs, head[i], x0, x1 - 1, y, y, z, z));
            assert(located(pcs, tail[j], x1, x1, y, y, z, z));
        }
        vstd::seq_lib::lemma_no_dup_in_concat(head, tail);
        assert(a.row_points(x0, x1, y, z) == head + tail);
        assert forall|t: int| 0 <= t < (head + tail).len() implies located(pcs, #[trigger] (head + tail)[t], x0, x1, y, y, z, z) by {
            if t < head.len() {
                assert(located(pcs, head[t], x0, x1 - 1, y, y, z, z));
            } else {
                assert(located(pcs, tail[t - head.len()], x1, x1, y, y, z, z));
            }
        }
    }
}

/// The walk over a layer of rows: distinct points, located in the layer.
pub proof fn lemma_layer_walk(a: MlsArena, pcs: Seq<[u32; 3]>, x0: int, x1: int, y0: int, y1: int, z: int)
    requires
        slots_know_cells(a, pcs),
        0 <= x0,
        x1 < a.dims[0],
        0 <= y0,
        y1 < a.dims[1],
        0 <= z < a.dims[2],
    ensures
        a.layer_points(x0, x1, y0, y1, z).no_duplicates(),
        forall|t: int| 0 <= t < a.layer_points(x0, x1, y0, y1, z).len() ==>
            located(pcs, #[trigger] a.layer_points(x0, x1, y0, y1, z)[t], x0, x1, y0, y1, z, z),
    decreases y1 - y0 + 1,
{
    if y1 >= y0 {
        let head = a.layer_points(x0, x1, y0, y1 - 1, z);
        let tail = a.row_points(x0, x1, y1, z);
        lemma_layer_walk(a, pcs, x0, x1, y0, y1 - 1, z);
        lemma_row_walk(a, pcs, x0, x1, y1, z);
        assert forall|i: int, j: int| 0 <= i < head.len() && 0 <= j < tail.len() implies head[i] != tail[j] by {
            assert(located(pcs, head[i], x0, x1, y0, y1 - 1, z, z));
            assert(located(pcs, tail[j], x0, x1, y1, y1, z, z));
        }
        vstd::seq_lib::lemma_no_dup_in_concat(head, tail);
        assert(a.layer_points(x0, x1, y0, y1, z) == head + tail);
        assert forall|t: int| 0 <= t < (head + tail).len() implies located(pcs, #[trigger] (head + tail)[t], x0, x1, y0, y1, z, z) by {
            if t < head.len() {
                assert(located(pcs, head[t], x0, x1, y0, y1 - 1, z, z));
            } else {
                assert(located(pcs, tail[t - head.len()], x0, x1, y1, y1, z, z));
            }
        }
    }
}

/// The walk over a block of layers: distinct points, located in the block.
pub proof fn lemma_block_walk(a: MlsArena, pcs: Seq<[u32; 3]>, lo: [u32; 3], hi: [u32; 3], z1: int)
    requires
        slots_know_cells(a, pcs),
        hi[0] < a.dims[0] && hi[1] < a.dims[1],
        z1 < a.dims[2],
    ensures
        a.block_points(lo, hi, z1).no_duplicates(),
        forall|t: int| 0 <= t < a.block_points(lo, hi, z1).len() ==>
            located(pcs, #[trigger] a.block_points(lo, hi, z1)[t], lo[0] as int, hi[0] as int, lo[1] as int, hi[1] as int, lo[2] as int, z1),
    decreases z1 - lo[2] + 1,
{
    if z1 >= lo[2] {
        let head = a.block_points(lo, hi, z1 - 1);
        let tail = a.layer_points(lo[0] as int, hi[0] as int, lo[1] as int, hi[1] as int, z1);
        lemma_block_walk(a, pcs, lo, hi, z1 - 1);
        lemma_layer_walk(a, pcs, lo[0] as int, hi[0] as int, lo[1] as int, hi[1] as int, z1);
        assert forall|i: int, j: int| 0 <= i < head.len() && 0 <= j < tail.len() implies head[i] != tail[j] by {
            assert(located(pcs, head[i], lo[0] as int, hi[0] as int, lo[1] as int, hi[1] as int, lo[2] as int, z1 - 1));
            assert(located(pcs, tail[j], lo[0] as int, hi[0] as int, lo[1] as int, hi[1] as int, z1, z1));
        }
        vstd::seq_lib::lemma_no_dup_in_concat(head, tail);
        assert(a.block_points(lo, hi, z1) == head + tail);
        assert forall|t: int| 0 <= t < (head + tail).len() implies
            located(pcs, #[trigger] (head + tail)[t], lo[0] as int, hi[0] as int, lo[1] as int, hi[1] as int, lo[2] as int, z1) by {
            if t < head.len() {
                assert(located(pcs, head[t], lo[0] as int, hi[0] as int, lo[1] as int, hi[1] as int, lo[2] as int, z1 - 1));
            } else {
                assert(located(pcs, tail[t - head.len()], lo[0] as int, hi[0] as int, lo[1] as int, hi[1] as int, z1, z1));
            }
        }
    }
}

/// In a binned arena, every slot knows the cell of its point.
#[verifier::rlimit(40)]
pub proof fn lemma_binned_slots_know_cells(a: MlsArena, points: Seq<[u32; 3]>, cell_size: u32, geometry: GridGeometry)
    requires
        geometry_fits(geometry, points.len() as int),
        points_fault(points, cell_size, geometry) is None,
        a.spec_bins(points, cell_size, geometry),
    ensures
        slots_know_cells(a, geometry.point_cells@),
{
    lemma_fault_free(points, cell_size, geometry);
    let dims = a.dims;
    let pcs = geometry.point_cells@;
    let cells = linear_cells(pcs, dims);
    lemma_linear_cells_below(geometry, dims);
    lemma_binned_arena_consistent(&a, points, cells);
    assert(buckets_hold_their_cells(a.point_indices@, a.cell_offsets@, cells, cell_count(dims)));
    assert forall|d: int, k: int| #![trigger a.cell_offsets@[d], a.point_indices@[k]]
        0 <= d < cell_count(dims) && a.cell_offsets@[d] <= k < a.cell_offsets@[d + 1] implies
        cell_index(pcs[a.point_indices@[k] as int][0] as int, pcs[a.point_indices@[k] as int][1] as int,
            pcs[a.point_indices@[k] as int][2] as int, dims) == d by {
        let e = a.point_indices@[k] as int;
        lemma_offsets_ordered(a.cell_offsets@, d + 1, a.cell_offsets@.len() - 1);
        assert(e < pcs.len());
        let p = pcs[e];
        assert(p[0] < dims[0] && p[1] < dims[1] && p[2] < dims[2]) by {
            assert(pcs[e][0] < dims[0]);
            assert(pcs[e][1] < dims[1]);
            assert(pcs[e][2] < dims[2]);
        }
        lemma_cell_index_inside(p[0] as int, p[1] as int, p[2] as int, dims);
        assert(cells[e] == d);
    }
}

/// The support candidates of a query in a binned arena are exactly the points
/// whose cells lie in the window around the query's cell, each listed once.
pub proof fn lemma_candidates_are_window_points(
    a: MlsArena,
    points: Seq<[u32; 3]>,
    cell_size: u32,
    geometry: GridGeometry,
    c: [u32; 3],
    reach: u32,
)
    requires
        geometry_fits(geometry, points.len() as int),
        points_fault(points, cell_size, geometry) is None,
        a.spec_bins(points, cell_size, geometry),
        c[0] < a.dims[0] && c[1] < a.dims[1] && c[2] < a.dims[2],
    ensures
        a.spec_neighbour_candidates(c, reach).no_duplicates(),
        forall|e: u32| a.spec_neighbour_candidates(c, reach).contains(e) <==> located(
            geometry.point_cells@, e,
            window_lo(c[0], reach) as int, window_hi(c[0], reach, a.dims[0]) as int,
            window_lo(c[1], reach) as int, window_hi(c[1], reach, a.dims[1]) as int,
            window_lo(c[2], reach) as int, window_hi(c[2], reach, a.dims[2]) as int,
        ),
{
    let dims = a.dims;
    let pcs = geometry.point_cells@;
    let lo = [window_lo(c[0], reach), window_lo(c[1], reach), window_lo(c[2], reach)];
    let hi = [window_hi(c[0], reach, dims[0]), window_hi(c[1], reach, dims[1]), window_hi(c[2], reach, dims[2])];
    lemma_binned_slots_know_cells(a, points, cell_size, geometry);
    lemma_block_walk(a, pcs, lo, hi, hi[2] as int);
    let cand = a.spec_neighbour_candidates(c, reach);
    assert(cand == a.block_points(lo, hi, hi[2] as int));
    assert forall|e: u32| cand.contains(e) <==> located(pcs, e, lo[0] as int, hi[0] as int, lo[1] as int, hi[1] as int, lo[2] as int, hi[2] as int) by {
        if cand.contains(e) {
            let t = choose|t: int| 0 <= t < cand.len() && cand[t] == e;
            assert(located(pcs, cand[t], lo[0] as int, hi[0] as int, lo[1] as int, hi[1] as int, lo[2] as int, hi[2] as int));
        }
        if located(pcs, e, lo[0] as int, hi[0] as int, lo[1] as int, hi[1] as int, lo[2] as int, hi[2] as int) {
            lemma_window_point_is_candidate(a, points, cell_size, geometry, c, reach, e as int);
        }
    }
}

/// Cell `a` is visited at or before cell `b` by the walk: z first, then y,
/// then x, each ascending.
pub open spec fn walk_at_or_before(a: [u32; 3], b: [u32; 3]) -> bool {
    a[2] < b[2] || (a[2] == b[2] && (a[1] < b[1] || (a[1] == b[1] && a[0] <= b[0])))
}

/// Point `e1` is stored in an earlier slot than point `e2`.
pub open spec fn stored_earlier(idx: Seq<u32>, e1: u32, e2: u32) -> bool {
    exists|k1: int, k2: int| 0 <= k1 < k2 < idx.len() && idx[k1] == e1 && idx[k2] == e2
}

/// `s` lists points cell by cell in walk order, and the points of one cell
/// in their stored order.
pub open spec fn in_walk_order(a: MlsArena, pcs: Seq<[u32; 3]>, s: Seq<u32>) -> bool {
    forall|p: int, q: int| #![trigger s[p], s[q]] 0 <= p < q < s.len() ==> {
        &&& walk_at_or_before(pcs[s[p] as int], pcs[s[q] as int])
        &&& (pcs[s[p] as int] == pcs[s[q] as int] ==> stored_earlier(a.point_indices@, s[p], s[q]))
    }
}

proof fn lemma_concat_in_walk_order(a: MlsArena, pcs: Seq<[u32; 3]>, h: Seq<u32>, t: Seq<u32>)
    requires
        in_walk_order(a, pcs, h),
        in_walk_order(a, pcs, t),
        forall|i: int, j: int| 0 <= i < h.len() && 0 <= j < t.len() ==>
            walk_at_or_before(pcs[#[trigger] h[i] as int], pcs[#[trigger] t[j] as int]) && pcs[h[i] as int] != pcs[t[j] as int],
    ensures
        in_walk_order(a, pcs, h + t),
{
    let s = h + t;
    assert forall|p: int, q: int| #![trigger s[p], s[q]] 0 <= p < q < s.len() implies {
        &&& walk_at_or_before(pcs[s[p] as int], pcs[s[q] as int])
        &&& (pcs[s[p] as int] == pcs[s[q] as int] ==> stored_earlier(a.point_indices@, s[p], s[q]))
    } by {
        if q < h.len() {
            assert(s[p] == h[p] && s[q] == h[q]);
        } else if p >= h.len() {
            assert(s[p] == t[p - h.len()] && s[q] == t[q - h.len()]);
        } else {
            assert(s[p] == h[p] && s[q] == t[q - h.len()]);
        }
    }
}

proof fn lemma_cell_in_walk_order(a: MlsArena, pcs: Seq<[u32; 3]>, x: int, y: int, z: int)
    requires
        slots_know_cells(a, pcs),
        0 <= x < a.dims[0] && 0 <= y < a.dims[1] && 0 <= z < a.dims[2],
    ensures
        in_walk_order(a, pcs, a.cell_points(cell_index(x, y, z, a.dims))),
{
    let d = cell_index(x, y, z, a.dims);
    let cp = a.cell_points(d);
    let off = a.cell_offsets@;
    lemma_cell_walk(a, pcs, x, y, z);
    lemma_cell_index_inside(x, y, z, a.dims);
    lemma_offsets_ordered(off, d, d + 1);
    lemma_offsets_ordered(off, d + 1, off.len() - 1);
    assert forall|p: int, q: int| #![trigger cp[p], cp[q]] 0 <= p < q < cp.len() implies {
        &&& walk_at_or_before(pcs[cp[p] as int], pcs[cp[q] as int])
        &&& (pcs[cp[p] as int] == pcs[cp[q] as int] ==> stored_earlier(a.point_indices@, cp[p], cp[q]))
    } by {
        assert(located(pcs, cp[p], x, x, y, y, z, z));
        assert(located(pcs, cp[q], x, x, y, y, z, z));
        assert(cp[p] == a.point_indices@[off[d] + p]);
        assert(cp[q] == a.point_indices@[off[d] + q]);
    }
}

proof fn lemma_row_in_walk_order(a: MlsArena, pcs: Seq<[u32; 3]>, x0: int, x1: int, y: int, z: int)
    requires
        slots_know_cells(a, pcs),
        0 <= x0,
        x1 < a.dims[0],
        0 <= y < a.dims[1] && 0 <= z < a.dims[2],
    ensures
        in_walk_order(a, pcs, a.row_points(x0, x1, y, z)),
    decreases x1 - x0 + 1,
{
    if x1 >= x0 {
        let head = a.row_points(x0, x1 - 1, y, z);
        let tail = a.cell_points(cell_index(x1, y, z, a.dims));
        lemma_row_in_walk_order(a, pcs, x0, x1 - 1, y, z);
        lemma_cell_in_walk_order(a, pcs, x1, y, z);
        lemma_row_walk(a, pcs, x0, x1 - 1, y, z);
        lemma_cell_walk(a, pcs, x1, y, z);
        assert forall|i: int, j: int| 0 <= i < head.len() && 0 <= j < tail.len() implies
            walk_at_or_before(pcs[#[trigger] head[i] as int], pcs[#[trigger] tail[j] as int]) && pcs[head[i] as int] != pcs[tail[j] as int] by {
            assert(located(pcs, head[i], x0, x1 - 1, y, y, z, z));
            assert(located(pcs, tail[j], x1, x1, y, y, z, z));
        }
        lemma_concat_in_walk_order(a, pcs, head, tail);
        assert(a.row_points(x0, x1, y, z) == head + tail);
    }
}

proof fn lemma_layer_in_walk_order(a: MlsArena, pcs: Seq<[u32; 3]>, x0: int, x1: int, y0: int, y1: int, z: int)
    requires
        slots_know_cells(a, pcs),
        0 <= x0,
        x1 < a.dims[0],
        0 <= y0,
        y1 < a.dims[1],
        0 <= z < a.dims[2],
    ensures
        in_walk_order(a, pcs, a.layer_points(x0, x1, y0, y1, z)),
    decreases y1 - y0 + 1,
{
    if y1 >= y0 {
        let head = a.layer_points(x0, x1, y0, y1 - 1, z);
        let tail = a.row_points(x0, x1, y1, z);
        lemma_layer_in_walk_order(a, pcs, x0, x1, y0, y1 - 1, z);
        lemma_row_in_walk_order(a, pcs, x0, x1, y1, z);
        lemma_layer_walk(a, pcs, x0, x1, y0, y1 - 1, z);
        lemma_row_walk(a, pcs, x0, x1, y1, z);
        assert forall|i: int, j: int| 0 <= i < head.len() && 0 <= j < tail.len() implies
            walk_at_or_before(pcs[#[trigger] head[i] as int], pcs[#[trigger] tail[j] as int]) && pcs[head[i] as int] != pcs[tail[j] as int] by {
            assert(located(pcs, head[i], x0, x1, y0, y1 - 1, z, z));
            assert(located(pcs, tail[j], x0, x1, y1, y1, z, z));
        }
        lemma_concat_in_walk_order(a, pcs, head, tail);
        assert(a.layer_points(x0, x1, y0, y1, z) == head + tail);
    }
}

proof fn lemma_block_in_walk_order(a: MlsArena, pcs: Seq<[u32; 3]>, lo: [u32; 3], hi: [u32; 3], z1: int)
    requires
        slots_know_cells(a, pcs),
        hi[0] < a.dims[0] && hi[1] < a.dims[1],
        z1 < a.dims[2],
    ensures
        in_walk_order(a, pcs, a.block_points(lo, hi, z1)),
    decreases z1 - lo[2] + 1,
{
    if z1 >= lo[2] {
        let head = a.block_points(lo, hi, z1 - 1);
        let tail = a.layer_points(lo[0] as int, hi[0] as int, lo[1] as int, hi[1] as int, z1);
        lemma_block_in_walk_order(a, pcs, lo, hi, z1 - 1);
        lemma_layer_in_walk_order(a, pcs, lo[0] as int, hi[0] as int, lo[1] as int, hi[1] as int, z1);
        lemma_block_walk(a, pcs, lo, hi, z1 - 1);
        lemma_layer_walk(a, pcs, lo[0] as int, hi[0] as int, lo[1] as int, hi[1] as int, z1);
        assert forall|i: int, j: int| 0 <= i < head.len() && 0 <= j < tail.len() implies
            walk_at_or_before(pcs[#[trigger] head[i] as int], pcs[#[trigger] tail[j] as int]) && pcs[head[i] as int] != pcs[tail[j] as int] by {
            assert(located(pcs, head[i], lo[0] as int, hi[0] as int, lo[1] as int, hi[1] as int, lo[2] as int, z1 - 1));
            assert(located(pcs, tail[j], lo[0] as int, hi[0] as int, lo[1] as int, hi[1] as int, z1, z1));
        }
        lemma_concat_in_walk_order(a, pcs, head, tail);
        assert(a.block_points(lo, hi, z1) == head + tail);
    }
}

/// The support candidates of a query in a binned arena come in walk order:
/// a candidate listed before another lies in a cell at or before the other's
/// cell in (z, y, x) order, and two candidates of the same cell keep the
/// order in which the cell stores them.
pub proof fn lemma_candidates_in_walk_order(
    a: MlsArena,
    points: Seq<[u32; 3]>,
    cell_size: u32,
    geometry: GridGeometry,
    c: [u32; 3],
    reach: u32,
)
    requires
        geometry_fits(geometry, points.len() as int),
        points_fault(points, cell_size, geometry) is None,
        a.spec_bins(points, cell_size, geometry),
        c[0] < a.dims[0] && c[1] < a.dims[1] && c[2] < a.dims[2],
    ensures
        forall|p: int, q: int|
            #![trigger a.spec_neighbour_candidates(c, reach)[p], a.spec_neighbour_candidates(c, reach)[q]]
            0 <= p < q < a.spec_neighbour_candidates(c, reach).len() ==> {
                let e1 = a.spec_neighbour_candidates(c, reach)[p];
                let e2 = a.spec_neighbour_candidates(c, reach)[q];
                let c1 = geometry.point_cells@[e1 as int];
                let c2 = geometry.point_cells@[e2 as int];
                &&& (c1[2] < c2[2] || (c1[2] == c2[2] && (c1[1] < c2[1] || (c1[1] == c2[1] && c1[0] <= c2[0]))))
                &&& (c1 == c2 ==> exists|k1: int, k2: int| 0 <= k1 < k2 < a.point_indices@.len()
                    && a.point_indices@[k1] == e1 && a.point_indices@[k2] == e2)
            },
{
    let dims = a.dims;
    let pcs = geometry.point_cells@;
    let lo = [window_lo(c[0], reach), window_lo(c[1], reach), window_lo(c[2], reach)];
    let hi = [window_hi(c[0], reach, dims[0]), window_hi(c[1], reach, dims[1]), window_hi(c[2], reach, dims[2])];
    lemma_binned_slots_know_cells(a, points, cell_size, geometry);
    lemma_block_in_walk_order(a, pcs, lo, hi, hi[2] as int);
    let cand = a.spec_neighbour_candidates(c, reach);
    assert(cand == a.block_points(lo, hi, hi[2] as int));
    assert(in_walk_order(a, pcs, cand));
}

} // verus!
