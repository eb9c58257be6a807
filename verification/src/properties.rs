//! Properties that relate the grid's operations to one another.

use vstd::prelude::*;
use crate::counting::{buckets_hold_their_cells, buckets_sorted, range_sorted, lemma_bucket_of, lemma_prefix_shape, cells_below};
use crate::grid::{
    cell_count, cell_index, geometry_fits, grid_fault, lemma_binned_arena_consistent,
    lemma_cell_index_inside, lemma_fault_free, linear_cells, points_fault, triple_finite, first_non_finite_at,
    GridGeometry, MlsArena,
};
use crate::neighbours::{window_hi, window_lo};
use crate::permutation::lemma_slot_of;
use crate::backend::{backend_from_id, spec_auto_backend, spec_backend_id, spec_runnable_backend, Backend, CompiledBackends};
use crate::names::{ascii_lower, backend_named, bench_backend_named, lemma_backend_spellings_distinct, is_white_space, normalize, spec_backend_name, trim_end, trim_start};

verus! {

/// `a + d * b` determines `a` and `b` when `0 <= a < d` and `b >= 0`.
proof fn lemma_mixed_radix_unique(a1: int, b1: int, a2: int, b2: int, d: int)
    requires
        0 <= a1 < d,
        0 <= a2 < d,
        0 <= b1,
        0 <= b2,
        a1 + d * b1 == a2 + d * b2,
    ensures
        a1 == a2,
        b1 == b2,
{
    if b1 > b2 {
        assert(d * b1 >= d * b2 + d) by (nonlinear_arith)
            requires b1 >= b2 + 1, d >= 0;
    } else if b2 > b1 {
        assert(d * b2 >= d * b1 + d) by (nonlinear_arith)
            requires b2 >= b1 + 1, d >= 0;
    }
}

/// Distinct cells inside the grid have distinct linear indices: the linear
/// index is a one-to-one numbering of the grid's cells.
pub proof fn lemma_cell_index_injective(x1: int, y1: int, z1: int, x2: int, y2: int, z2: int, dims: [u32; 3])
    requires
        0 <= x1 < dims[0] && 0 <= y1 < dims[1] && 0 <= z1 < dims[2],
        0 <= x2 < dims[0] && 0 <= y2 < dims[1] && 0 <= z2 < dims[2],
        cell_index(x1, y1, z1, dims) == cell_index(x2, y2, z2, dims),
    ensures
        x1 == x2 && y1 == y2 && z1 == z2,
{
    lemma_cell_index_inside(x1, y1, z1, dims);
    lemma_cell_index_inside(x2, y2, z2, dims);
    lemma_mixed_radix_unique(x1, y1 + dims[1] * z1, x2, y2 + dims[1] * z2, dims[0] as int);
    lemma_mixed_radix_unique(y1, z1, y2, z2, dims[1] as int);
}

/// If some point has a non-finite coordinate, there is a first such point.
proof fn lemma_first_non_finite_exists(points: Seq<[u32; 3]>, i: int)
    requires
        0 <= i < points.len(),
        !triple_finite(points[i]),
    ensures
        exists|f: int| first_non_finite_at(points, f),
    decreases i,
{
    if forall|j: int| 0 <= j < i ==> #[trigger] triple_finite(points[j]) {
        assert(first_non_finite_at(points, i));
    } else {
        let j = choose|j: int| 0 <= j < i && !triple_finite(#[trigger] points[j]);
        lemma_first_non_finite_exists(points, j);
    }
}

/// Exporting the grid of a binned arena and importing it again succeeds:
/// whatever `from_points` builds, `from_grid` accepts.
pub proof fn lemma_binned_grid_reimports(a: MlsArena, points: Seq<[u32; 3]>, cell_size: u32, geometry: GridGeometry)
    requires
        geometry_fits(geometry, points.len() as int),
        points_fault(points, cell_size, geometry) is None,
        a.spec_bins(points, cell_size, geometry),
    ensures
        grid_fault(a.points@, a.cell_offsets@, a.point_indices@, a.dims, a.origin, a.cell_size) is None,
{
    lemma_fault_free(points, cell_size, geometry);
    let dims = geometry.dims.unwrap();
    let ncells = cell_count(dims);
    let cells = linear_cells(geometry.point_cells@, dims);
    assert(cells_below(cells, ncells)) by {
        assert forall|j: int| 0 <= j < cells.len() implies #[trigger] cells[j] < ncells by {
            let pc = geometry.point_cells@[j];
            assert(pc[0] < dims[0] && pc[1] < dims[1] && pc[2] < dims[2]) by {
                assert(geometry.point_cells@[j][0] < dims[0]);
                assert(geometry.point_cells@[j][1] < dims[1]);
                assert(geometry.point_cells@[j][2] < dims[2]);
            }
            lemma_cell_index_inside(pc[0] as int, pc[1] as int, pc[2] as int, dims);
        }
    }
    lemma_binned_arena_consistent(&a, points, cells);
    lemma_all_triples_finite(points);
    lemma_flat_finite(points, a.points@);
    assert forall|j: int, k: int| 0 <= j < k < a.point_indices@.len() implies
        #[trigger] a.point_indices@[j] != #[trigger] a.point_indices@[k] by {}
}

/// Without a first non-finite point, every point is finite.
proof fn lemma_all_triples_finite(points: Seq<[u32; 3]>)
    requires
        !(exists|f: int| first_non_finite_at(points, f)),
    ensures
        forall|i: int| 0 <= i < points.len() ==> #[trigger] triple_finite(points[i]),
{
    assert forall|i: int| 0 <= i < points.len() implies #[trigger] triple_finite(points[i]) by {
        if !triple_finite(points[i]) {
            lemma_first_non_finite_exists(points, i);
        }
    }
}

/// The flat layout of finite triples holds only finite values.
proof fn lemma_flat_finite(points: Seq<[u32; 3]>, flat: Seq<u32>)
    requires
        crate::grid::flat_triples(points, flat),
        forall|i: int| 0 <= i < points.len() ==> #[trigger] triple_finite(points[i]),
    ensures
        crate::grid::all_finite(flat),
{
    assert forall|k: int| 0 <= k < flat.len() implies #[trigger] crate::binary32::spec_is_finite(flat[k]) by {
        let i = k / 3;
        let c = k % 3;
        assert(flat[3 * i + c] == points[i][c]);
        assert(triple_finite(points[i]));
    }
}

/// The points of cell `(x, y, z)` are among the points of row `(y, z)`
/// from `x0` to `x1` when `x0 <= x <= x1`.
proof fn lemma_row_holds_cell(a: &MlsArena, x0: int, x1: int, x: int, y: int, z: int, e: u32)
    requires
        x0 <= x <= x1,
        a.cell_points(cell_index(x, y, z, a.dims)).contains(e),
    ensures
        a.row_points(x0, x1, y, z).contains(e),
    decreases x1 - x0,
{
    let head = a.row_points(x0, x1 - 1, y, z);
    let tail = a.cell_points(cell_index(x1, y, z, a.dims));
    assert(a.row_points(x0, x1, y, z) == head + tail);
    if x == x1 {
        let w = choose|w: int| 0 <= w < tail.len() && tail[w] == e;
        assert((head + tail)[head.len() + w] == e);
    } else {
        lemma_row_holds_cell(a, x0, x1 - 1, x, y, z, e);
        let w = choose|w: int| 0 <= w < head.len() && head[w] == e;
        assert((head + tail)[w] == e);
    }
}

proof fn lemma_layer_holds_cell(a: &MlsArena, x0: int, x1: int, y0: int, y1: int, x: int, y: int, z: int, e: u32)
    requires
        x0 <= x <= x1,
        y0 <= y <= y1,
        a.cell_points(cell_index(x, y, z, a.dims)).contains(e),
    ensures
        a.layer_points(x0, x1, y0, y1, z).contains(e),
    decreases y1 - y0,
{
    let head = a.layer_points(x0, x1, y0, y1 - 1, z);
    let tail = a.row_points(x0, x1, y1, z);
    assert(a.layer_points(x0, x1, y0, y1, z) == head + tail);
    if y == y1 {
        lemma_row_holds_cell(a, x0, x1, x, y, z, e);
        let w = choose|w: int| 0 <= w < tail.len() && tail[w] == e;
        assert((head + tail)[head.len() + w] == e);
    } else {
        lemma_layer_holds_cell(a, x0, x1, y0, y1 - 1, x, y, z, e);
        let w = choose|w: int| 0 <= w < head.len() && head[w] == e;
        assert((head + tail)[w] == e);
    }
}

proof fn lemma_block_holds_cell(a: &MlsArena, lo: [u32; 3], hi: [u32; 3], z1: int, x: int, y: int, z: int, e: u32)
    requires
        lo[0] <= x <= hi[0],
        lo[1] <= y <= hi[1],
        lo[2] <= z <= z1,
        a.cell_points(cell_index(x, y, z, a.dims)).contains(e),
    ensures
        a.block_points(lo, hi, z1).contains(e),
    decreases z1 - lo[2],
{
    let head = a.block_points(lo, hi, z1 - 1);
    let tail = a.layer_points(lo[0] as int, hi[0] as int, lo[1] as int, hi[1] as int, z1);
    assert(a.block_points(lo, hi, z1) == head + tail);
    if z == z1 {
        lemma_layer_holds_cell(a, lo[0] as int, hi[0] as int, lo[1] as int, hi[1] as int, x, y, z, e);
        let w = choose|w: int| 0 <= w < tail.len() && tail[w] == e;
        assert((head + tail)[head.len() + w] == e);
    } else {
        lemma_block_holds_cell(a, lo, hi, z1 - 1, x, y, z, e);
        let w = choose|w: int| 0 <= w < head.len() && head[w] == e;
        assert((head + tail)[w] == e);
    }
}

/// The linear cells of in-grid cell coordinates lie below the cell count.
pub proof fn lemma_linear_cells_below(geometry: GridGeometry, dims: [u32; 3])
    requires
        crate::grid::cells_inside(geometry.point_cells@, dims),
    ensures
        cells_below(linear_cells(geometry.point_cells@, dims), cell_count(dims)),
{
    let cells = linear_cells(geometry.point_cells@, dims);
    assert forall|i: int| 0 <= i < cells.len() implies #[trigger] cells[i] < cell_count(dims) by {
        let pc = geometry.point_cells@[i];
        assert(pc[0] < dims[0] && pc[1] < dims[1] && pc[2] < dims[2]) by {
            assert(geometry.point_cells@[i][0] < dims[0]);
            assert(geometry.point_cells@[i][1] < dims[1]);
            assert(geometry.point_cells@[i][2] < dims[2]);
        }
        lemma_cell_index_inside(pc[0] as int, pc[1] as int, pc[2] as int, dims);
    }
}

/// In a binned arena, every point is stored among the points of its own cell.
#[verifier::spinoff_prover]
pub proof fn lemma_point_in_own_cell(a: MlsArena, points: Seq<[u32; 3]>, cell_size: u32, geometry: GridGeometry, j: int)
    requires
        geometry_fits(geometry, points.len() as int),
        points_fault(points, cell_size, geometry) is None,
        a.spec_bins(points, cell_size, geometry),
        0 <= j < points.len(),
    ensures
        ({
            let pc = geometry.point_cells@[j];
            a.cell_points(cell_index(pc[0] as int, pc[1] as int, pc[2] as int, a.dims)).contains(j as u32)
        }),
{
    lemma_fault_free(points, cell_size, geometry);
    let dims = a.dims;
    let ncells = cell_count(dims);
    let cells = linear_cells(geometry.point_cells@, dims);
    let n = points.len() as int;
    let off = a.cell_offsets@;
    let idx = a.point_indices@;
    lemma_linear_cells_below(geometry, dims);
    lemma_prefix_shape(off, cells, ncells);
    let k = lemma_slot_of(idx, n, j);
    let d = lemma_bucket_of(off, ncells, 0, k);
    assert(buckets_hold_their_cells(idx, off, cells, ncells));
    assert(cells[idx[k] as int] == d);
    let pc = geometry.point_cells@[j];
    assert(pc[0] < dims[0] && pc[1] < dims[1] && pc[2] < dims[2]) by {
        assert(geometry.point_cells@[j][0] < dims[0]);
        assert(geometry.point_cells@[j][1] < dims[1]);
        assert(geometry.point_cells@[j][2] < dims[2]);
    }
    lemma_cell_index_inside(pc[0] as int, pc[1] as int, pc[2] as int, dims);
    assert(cells[j] == cell_index(pc[0] as int, pc[1] as int, pc[2] as int, dims));
    let cp = a.cell_points(d);
    assert(cp[k - off[d]] == idx[k]);
}

/// Every point of a binned arena whose cell lies in the window around a
/// query's cell is one of the query's support candidates: the walk over the
/// window misses no point.
pub proof fn lemma_window_point_is_candidate(
    a: MlsArena,
    points: Seq<[u32; 3]>,
    cell_size: u32,
    geometry: GridGeometry,
    c: [u32; 3],
    reach: u32,
    j: int,
)
    requires
        geometry_fits(geometry, points.len() as int),
        points_fault(points, cell_size, geometry) is None,
        a.spec_bins(points, cell_size, geometry),
        c[0] < a.dims[0] && c[1] < a.dims[1] && c[2] < a.dims[2],
        0 <= j < points.len(),
        window_lo(c[0], reach) <= geometry.point_cells@[j][0] <= window_hi(c[0], reach, a.dims[0]),
        window_lo(c[1], reach) <= geometry.point_cells@[j][1] <= window_hi(c[1], reach, a.dims[1]),
        window_lo(c[2], reach) <= geometry.point_cells@[j][2] <= window_hi(c[2], reach, a.dims[2]),
    ensures
        a.spec_neighbour_candidates(c, reach).contains(j as u32),
{
    let dims = a.dims;
    lemma_point_in_own_cell(a, points, cell_size, geometry, j);
    let pc = geometry.point_cells@[j];
    let lo = [window_lo(c[0], reach), window_lo(c[1], reach), window_lo(c[2], reach)];
    let hi = [window_hi(c[0], reach, dims[0]), window_hi(c[1], reach, dims[1]), window_hi(c[2], reach, dims[2])];
    lemma_block_holds_cell(&a, lo, hi, hi[2] as int, pc[0] as int, pc[1] as int, pc[2] as int, j as u32);
}

/// Reading back the id of a backend gives the backend.
pub proof fn lemma_backend_id_round_trip(b: Backend)
    ensures
        backend_from_id(spec_backend_id(b)) == Ok::<Backend, crate::grid::ArenaError>(b),
{
}

/// A name without surrounding white space and without ASCII capitals is its
/// own normal form.
proof fn lemma_plain_name_is_normal(s: Seq<char>)
    requires
        s.len() > 0,
        !is_white_space(s[0]),
        !is_white_space(s.last()),
        forall|i: int| 0 <= i < s.len() ==> !('A' <= #[trigger] s[i] <= 'Z'),
    ensures
        normalize(s) == s,
{
    assert(trim_start(s) == s);
    assert(trim_end(s) == s);
    assert(ascii_lower(s) =~= s);
}

/// The display name of every backend id selects that backend again, and the
/// name of an unknown id selects none: the name table and the id table agree.
pub proof fn lemma_backend_name_round_trip(id: u32)
    ensures
        id <= 3 ==> (backend_named(normalize(spec_backend_name(id))) matches Some(b) && spec_backend_id(b) == id),
        id > 3 ==> backend_named(normalize(spec_backend_name(id))) is None,
{
    reveal_strlit("auto");
    reveal_strlit("rust");
    reveal_strlit("rust-cpu");
    reveal_strlit("cpu");
    reveal_strlit("cube-cpu");
    reveal_strlit("cubecl-cpu");
    reveal_strlit("hip");
    reveal_strlit("cube-hip");
    reveal_strlit("cubecl-hip");
    reveal_strlit("unknown");
    let s = spec_backend_name(id);
    lemma_plain_name_is_normal(s);
}

/// The benchmark command line accepts the display name of every concrete
/// backend and selects that backend.
pub proof fn lemma_bench_parses_display_names(id: u32)
    requires
        1 <= id <= 3,
    ensures
        bench_backend_named(spec_backend_name(id)) matches Some(b) && spec_backend_id(b) == id,
{
    lemma_backend_spellings_distinct();
}

/// Whatever runtimes a build carries, the backend `Auto` resolves to is one
/// it can run, and requesting `Auto` runs it.
pub proof fn lemma_auto_backend_runs(compiled: CompiledBackends)
    ensures
        spec_runnable_backend(spec_auto_backend(compiled), compiled) == Ok::<Backend, Backend>(spec_auto_backend(compiled)),
        spec_runnable_backend(Backend::Auto, compiled) == Ok::<Backend, Backend>(spec_auto_backend(compiled)),
{
}

/// A concrete backend is refused exactly when its own runtime is missing.
pub proof fn lemma_backend_refused_only_without_runtime(b: Backend, compiled: CompiledBackends)
    requires
        b != Backend::Auto,
    ensures
        spec_runnable_backend(b, compiled) is Err <==> ((b == Backend::CubeCpu && !compiled.cubecl_cpu)
            || (b == Backend::CubeHip && !compiled.cubecl_hip)),
        spec_runnable_backend(b, compiled) is Ok ==> spec_runnable_backend(b, compiled) == Ok::<Backend, Backend>(b),
        spec_runnable_backend(b, compiled) is Err ==> spec_runnable_backend(b, compiled) == Err::<Backend, Backend>(b),
{
}

/// Inside every cell of a binned arena, a point is stored before another
/// exactly in the order of their z coordinates (IEEE total order), then of
/// their y coordinates, then of their x coordinates, then of their indices.
pub proof fn lemma_binned_cells_ordered_z_y_x(a: MlsArena, points: Seq<[u32; 3]>, cell_size: u32, geometry: GridGeometry)
    requires
        a.spec_bins(points, cell_size, geometry),
    ensures
        forall|c: int, k1: int, k2: int|
            #![trigger a.cell_offsets@[c], a.point_indices@[k1], a.point_indices@[k2]]
            0 <= c < cell_count(a.dims) && a.cell_offsets@[c] <= k1 < k2 < a.cell_offsets@[c + 1] ==> {
                let p = points[a.point_indices@[k1] as int];
                let q = points[a.point_indices@[k2] as int];
                ||| crate::binary32::total_key(p[2]) < crate::binary32::total_key(q[2])
                ||| crate::binary32::total_key(p[2]) == crate::binary32::total_key(q[2])
                    && crate::binary32::total_key(p[1]) < crate::binary32::total_key(q[1])
                ||| crate::binary32::total_key(p[2]) == crate::binary32::total_key(q[2])
                    && crate::binary32::total_key(p[1]) == crate::binary32::total_key(q[1])
                    && crate::binary32::total_key(p[0]) < crate::binary32::total_key(q[0])
                ||| crate::binary32::total_key(p[2]) == crate::binary32::total_key(q[2])
                    && crate::binary32::total_key(p[1]) == crate::binary32::total_key(q[1])
                    && crate::binary32::total_key(p[0]) == crate::binary32::total_key(q[0])
                    && a.point_indices@[k1] < a.point_indices@[k2]
            },
{
    reveal(buckets_sorted);
    assert forall|c: int, k1: int, k2: int|
        #![trigger a.cell_offsets@[c], a.point_indices@[k1], a.point_indices@[k2]]
        0 <= c < cell_count(a.dims) && a.cell_offsets@[c] <= k1 < k2 < a.cell_offsets@[c + 1] implies {
            let p = points[a.point_indices@[k1] as int];
            let q = points[a.point_indices@[k2] as int];
            ||| crate::binary32::total_key(p[2]) < crate::binary32::total_key(q[2])
            ||| crate::binary32::total_key(p[2]) == crate::binary32::total_key(q[2])
                && crate::binary32::total_key(p[1]) < crate::binary32::total_key(q[1])
            ||| crate::binary32::total_key(p[2]) == crate::binary32::total_key(q[2])
                && crate::binary32::total_key(p[1]) == crate::binary32::total_key(q[1])
                && crate::binary32::total_key(p[0]) < crate::binary32::total_key(q[0])
            ||| crate::binary32::total_key(p[2]) == crate::binary32::total_key(q[2])
                && crate::binary32::total_key(p[1]) == crate::binary32::total_key(q[1])
                && crate::binary32::total_key(p[0]) == crate::binary32::total_key(q[0])
                && a.point_indices@[k1] < a.point_indices@[k2]
        } by {
        assert(range_sorted(a.point_indices@, points, a.cell_offsets@[c] as int, a.cell_offsets@[c + 1] as int));
        assert(crate::counting::support_before(points, a.point_indices@[k1] as int, a.point_indices@[k2] as int));
    }
}

} // verus!
