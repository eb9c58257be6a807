//! The counting-sort cell grid.

use vstd::prelude::*;
use crate::backend::Backend;
use crate::binary32::{greater_than, is_finite, is_positive, spec_is_finite, spec_is_positive, value_gt};
use crate::counting::{group_by_cell, is_cell_grouping, cells_below, lemma_prefix_shape};

verus! {

/// Tag stored in every arena built by this library ("MLSCUBE1").
pub const ARENA_MAGIC: u64 = 0x4D4C_5343_5542_4531;

/// Layout version stored in every arena built by this library.
pub const ARENA_VERSION: u32 = 1;

/// Why an arena could not be built or a backend id not be read.
#[derive(Debug)]
pub enum ArenaError {
    EmptyPoints,
    NonFinitePoint { index: usize },
    /// Holds the binary32 encoding of the rejected cell size.
    InvalidCellSize(u32),
    GridTooLarge,
    InvalidGrid(&'static str),
    InvalidBackend(u32),
}

/// Linear index of cell `(x, y, z)` in a grid of `dims` cells, x fastest.
pub open spec fn cell_index(x: int, y: int, z: int, dims: [u32; 3]) -> int {
    x + dims[0] as int * (y + dims[1] as int * z)
}

/// Row-major (x fastest, then y, then z) linear cell index.
pub fn linear_cell(x: u32, y: u32, z: u32, dims: [u32; 3]) -> (cell: usize)
    requires
        y + dims[1] * z <= usize::MAX,
        cell_index(x as int, y as int, z as int, dims) <= usize::MAX,
    ensures
        cell == cell_index(x as int, y as int, z as int, dims),
{
    let inner = (y as usize) + (dims[1] as usize) * (z as usize);
    assert(dims[0] * inner <= cell_index(x as int, y as int, z as int, dims));
    (x as usize) + (dims[0] as usize) * inner
}



/// Rust-owned arena consumed by the static-support projection.
///
/// `points` holds flat xyz triples of binary32 encodings. `cell_offsets` is a
/// counting-sort prefix array of length `cell count + 1`, and `point_indices`
/// stores the point indices grouped by cell: the points of cell `c` are
/// `point_indices[cell_offsets[c] .. cell_offsets[c + 1]]`.
#[derive(Debug)]
pub struct MlsArena {
    pub magic: u64,
    pub version: u32,
    pub backend: Backend,
    pub points: Vec<u32>,
    pub cell_offsets: Vec<u32>,
    pub point_indices: Vec<u32>,
    pub dims: [u32; 3],
    /// Binary32 encodings of the grid's lower corner.
    pub origin: [u32; 3],
    /// Binary32 encoding of the cell edge length.
    pub cell_size: u32,
}

/// Number of cells of a grid with `dims` cells per axis.
pub open spec fn cell_count(dims: [u32; 3]) -> int {
    dims[0] as int * dims[1] as int * dims[2] as int
}

pub open spec fn all_finite(s: Seq<u32>) -> bool {
    forall|i: int| 0 <= i < s.len() ==> #[trigger] spec_is_finite(s[i])
}

pub open spec fn origin_finite(origin: [u32; 3]) -> bool {
    spec_is_finite(origin[0]) && spec_is_finite(origin[1]) && spec_is_finite(origin[2])
}

/// Each offset is at most the next one.
pub open spec fn offsets_monotone(off: Seq<u32>) -> bool {
    forall|i: int| 0 <= i < off.len() - 1 ==> #[trigger] off[i] <= off[i + 1]
}

pub open spec fn indices_in_range(idx: Seq<u32>, n: int) -> bool {
    forall|k: int| 0 <= k < idx.len() ==> #[trigger] idx[k] < n
}

/// Point `j` is stored in some slot.
pub open spec fn stores_point(idx: Seq<u32>, j: int) -> bool {
    exists|k: int| 0 <= k < idx.len() && idx[k] == j
}

/// No point index occurs twice.
pub open spec fn indices_distinct(idx: Seq<u32>) -> bool {
    forall|j: int, k: int| 0 <= j < k < idx.len() ==> #[trigger] idx[j] != #[trigger] idx[k]
}

/// The first reason, in the order the checks run, why a supplied grid is
/// refused; `None` when it is accepted.
pub open spec fn grid_fault(
    points: Seq<u32>,
    offsets: Seq<u32>,
    indices: Seq<u32>,
    dims: [u32; 3],
    origin: [u32; 3],
    cell_size: u32,
) -> Option<ArenaError> {
    if points.len() == 0 || points.len() % 3 != 0 {
        Some(ArenaError::InvalidGrid("points must contain one or more xyz triples"))
    } else if !all_finite(points) {
        Some(ArenaError::InvalidGrid("points contain a non-finite value"))
    } else if !spec_is_positive(cell_size) {
        Some(ArenaError::InvalidCellSize(cell_size))
    } else if !origin_finite(origin) || dims[0] == 0 || dims[1] == 0 || dims[2] == 0 {
        Some(ArenaError::InvalidGrid("origin/dimensions are invalid"))
    } else if cell_count(dims) >= usize::MAX {
        Some(ArenaError::GridTooLarge)
    } else if offsets.len() != cell_count(dims) + 1 {
        Some(ArenaError::InvalidGrid("cell_offsets length must equal cell count + 1"))
    } else if offsets[0] != 0 {
        Some(ArenaError::InvalidGrid("cell_offsets must start at zero"))
    } else if !offsets_monotone(offsets) {
        Some(ArenaError::InvalidGrid("cell_offsets must be monotonic"))
    } else if offsets.last() != indices.len() {
        Some(ArenaError::InvalidGrid("last cell offset must equal point_indices length"))
    } else if indices.len() != points.len() / 3 {
        Some(ArenaError::InvalidGrid("point_indices must contain every point exactly once"))
    } else if !indices_in_range(indices, (points.len() / 3) as int) {
        Some(ArenaError::InvalidGrid("point_indices contains an out-of-range index"))
    } else if !indices_distinct(indices) {
        Some(ArenaError::InvalidGrid("point_indices contains a duplicate index"))
    } else {
        None
    }
}

/// Number of cells as a `usize`, or `None` when `cell count + 1` does not fit.
pub(crate) fn checked_cell_count(dims: [u32; 3]) -> (r: Option<usize>)
    requires
        dims[0] >= 1 && dims[1] >= 1 && dims[2] >= 1,
    ensures
        match r {
            Some(n) => n == cell_count(dims) && cell_count(dims) < usize::MAX,
            None => cell_count(dims) >= usize::MAX,
        },
{
    let d0 = dims[0] as u64;
    let d1 = dims[1] as u64;
    let d2 = dims[2] as u64;
    assert(d0 * d1 * d2 == cell_count(dims));
    match d0.checked_mul(d1) {
        None => {
            assert(d0 * d1 * d2 >= d0 * d1) by (nonlinear_arith)
                requires d2 >= 1, d0 * d1 >= 0;
            None
        }
        Some(d01) => match d01.checked_mul(d2) {
            None => None,
            Some(total) => {
                if total >= usize::MAX as u64 {
                    None
                } else {
                    Some(total as usize)
                }
            }
        }
    }
}

impl MlsArena {
    /// Number of points: one per xyz triple.
    pub open spec fn spec_npoints(&self) -> int {
        (self.points@.len() / 3) as int
    }

    /// Number of points (xyz triples) held by the arena.
    pub fn npoints(&self) -> (n: usize)
        ensures
            n == self.spec_npoints(),
    {
        self.points.len() / 3
    }

    /// The arena carries this library's tag and layout version.
    pub open spec fn spec_tag_valid(&self) -> bool {
        self.magic == ARENA_MAGIC && self.version == ARENA_VERSION
    }

    /// Whether the arena carries this library's tag and layout version.
    pub fn validate_tag(&self) -> (r: bool)
        ensures
            r == self.spec_tag_valid(),
    {
        self.magic == ARENA_MAGIC && self.version == ARENA_VERSION
    }

    /// Import an existing counting-sort cell grid. Every structural property
    /// the projection relies on is checked; the first violated one is
    /// reported.
    pub fn from_grid(
        points: Vec<u32>,
        cell_offsets: Vec<u32>,
        point_indices: Vec<u32>,
        dims: [u32; 3],
        origin: [u32; 3],
        cell_size: u32,
    ) -> (r: Result<MlsArena, ArenaError>)
        ensures
            match grid_fault(points@, cell_offsets@, point_indices@, dims, origin, cell_size) {
                Some(e) => r == Err::<MlsArena, ArenaError>(e),
                None => r matches Ok(a) && a.magic == ARENA_MAGIC && a.version == ARENA_VERSION
                    && a.backend == Backend::Auto && a.points@ == points@
                    && a.cell_offsets@ == cell_offsets@ && a.point_indices@ == point_indices@
                    && a.dims == dims && a.origin == origin && a.cell_size == cell_size
                    && a.spec_consistent(),
            },
            r matches Ok(a) ==> a.point_indices@.len() == a.points@.len() / 3,
            r matches Ok(a) ==> forall|j: int| 0 <= j < a.points@.len() / 3 ==> #[trigger] stores_point(a.point_indices@, j),
    {
        if points.len() == 0 || points.len() % 3 != 0 {
            return Err(ArenaError::InvalidGrid("points must contain one or more xyz triples"));
        }
        if !all_encodings_finite(&points) {
            return Err(ArenaError::InvalidGrid("points contain a non-finite value"));
        }
        if !is_positive(cell_size) {
            return Err(ArenaError::InvalidCellSize(cell_size));
        }
        if !is_finite(origin[0]) || !is_finite(origin[1]) || !is_finite(origin[2]) || dims[0] == 0
            || dims[1] == 0 || dims[2] == 0 {
            return Err(ArenaError::InvalidGrid("origin/dimensions are invalid"));
        }
        let ncells = match checked_cell_count(dims) {
            Some(n) => n,
            None => return Err(ArenaError::GridTooLarge),
        };
        if cell_offsets.len() != ncells + 1 {
            return Err(ArenaError::InvalidGrid("cell_offsets length must equal cell count + 1"));
        }
        if cell_offsets[0] != 0 {
            return Err(ArenaError::InvalidGrid("cell_offsets must start at zero"));
        }
        if !is_monotone(&cell_offsets) {
            return Err(ArenaError::InvalidGrid("cell_offsets must be monotonic"));
        }
        if cell_offsets[ncells] as usize != point_indices.len() {
            return Err(ArenaError::InvalidGrid("last cell offset must equal point_indices length"));
        }
        let npoints = points.len() / 3;
        if point_indices.len() != npoints {
            return Err(ArenaError::InvalidGrid("point_indices must contain every point exactly once"));
        }
        if !all_below(&point_indices, npoints) {
            return Err(ArenaError::InvalidGrid("point_indices contains an out-of-range index"));
        }
        if !all_distinct(&point_indices, npoints) {
            return Err(ArenaError::InvalidGrid("point_indices contains a duplicate index"));
        }
        proof {
            assert forall|j: int| 0 <= j < npoints implies #[trigger] stores_point(point_indices@, j) by {
                assert forall|x: int, y: int| 0 <= x < point_indices@.len() && 0 <= y < point_indices@.len() && x != y
                    implies #[trigger] point_indices@[x] != #[trigger] point_indices@[y] by {
                    if x < y {
                        assert(point_indices@[x] != point_indices@[y]);
                    } else {
                        assert(point_indices@[y] != point_indices@[x]);
                    }
                }
                let k = crate::permutation::lemma_slot_of(point_indices@, npoints as int, j);
                assert(point_indices@[k] == j);
            }
        }
        Ok(MlsArena {
            magic: ARENA_MAGIC,
            version: ARENA_VERSION,
            backend: Backend::Auto,
            points,
            cell_offsets,
            point_indices,
            dims,
            origin,
            cell_size,
        })
    }
}

/// Whether every encoding is finite.
fn all_encodings_finite(s: &Vec<u32>) -> (r: bool)
    ensures
        r == all_finite(s@),
{
    let mut i: usize = 0;
    while i < s.len()
        invariant
            i <= s.len(),
            forall|k: int| 0 <= k < i ==> #[trigger] spec_is_finite(s@[k]),
        decreases s.len() - i,
    {
        if !is_finite(s[i]) {
            assert(!spec_is_finite(s@[i as int]));
            return false;
        }
        i += 1;
    }
    true
}

/// Whether each element is at most the next one.
pub(crate) fn is_monotone(s: &Vec<u32>) -> (r: bool)
    ensures
        r == offsets_monotone(s@),
{
    if s.len() == 0 {
        return true;
    }
    let mut c: usize = 0;
    while c + 1 < s.len()
        invariant
            c < s.len(),
            forall|k: int| 0 <= k < c ==> #[trigger] s@[k] <= s@[k + 1],
        decreases s.len() - c,
    {
        if s[c] > s[c + 1] {
            assert(!(s@[c as int] <= s@[c + 1]));
            return false;
        }
        c += 1;
    }
    true
}

/// Whether every element is below `n`.
pub(crate) fn all_below(s: &Vec<u32>, n: usize) -> (r: bool)
    ensures
        r == indices_in_range(s@, n as int),
{
    let mut k: usize = 0;
    while k < s.len()
        invariant
            k <= s.len(),
            forall|j: int| 0 <= j < k ==> #[trigger] s@[j] < n,
        decreases s.len() - k,
    {
        if s[k] as usize >= n {
            assert(!(s@[k as int] < n));
            return false;
        }
        k += 1;
    }
    true
}

/// Whether no element occurs twice, for elements all below `n`.
fn all_distinct(s: &Vec<u32>, n: usize) -> (r: bool)
    requires
        indices_in_range(s@, n as int),
    ensures
        r == indices_distinct(s@),
{
    let mut seen: Vec<bool> = vec![false; n];
    let mut k: usize = 0;
    while k < s.len()
        invariant
            k <= s.len(),
            seen.len() == n,
            indices_in_range(s@, n as int),
            forall|j1: int, j2: int| 0 <= j1 < j2 < k ==> #[trigger] s@[j1] != #[trigger] s@[j2],
            forall|p: int| 0 <= p < n ==> (#[trigger] seen@[p] <==> exists|j: int| 0 <= j < k && s@[j] == p),
        decreases s.len() - k,
    {
        let slot = s[k] as usize;
        assert(s@[k as int] < n);
        if seen[slot] {
            let ghost j = choose|j: int| 0 <= j < k && s@[j] == slot;
            assert(s@[j] == s@[k as int]);
            return false;
        }
        seen.set(slot, true);
        proof {
            assert forall|p: int| 0 <= p < n implies (#[trigger] seen@[p] <==> exists|j: int| 0 <= j < k + 1 && s@[j] == p) by {
                if p == slot {
                    assert(s@[k as int] == p);
                }
            }
        }
        k += 1;
    }
    true
}



/// Cell geometry of a point cloud, computed from its coordinates by the
/// caller: the grid origin, the number of cells per axis (`None` when an
/// axis's span is not representable), and the cell coordinates of each point.
pub struct GridGeometry {
    /// Binary32 encodings of the grid's lower corner.
    pub origin: [u32; 3],
    pub dims: Option<[u32; 3]>,
    pub point_cells: Vec<[u32; 3]>,
}

/// The three coordinates are finite.
pub open spec fn triple_finite(p: [u32; 3]) -> bool {
    spec_is_finite(p[0]) && spec_is_finite(p[1]) && spec_is_finite(p[2])
}

/// Point `i` is the first with a non-finite coordinate.
pub open spec fn first_non_finite_at(points: Seq<[u32; 3]>, i: int) -> bool {
    &&& 0 <= i < points.len()
    &&& !triple_finite(points[i])
    &&& forall|j: int| 0 <= j < i ==> #[trigger] triple_finite(points[j])
}

/// Some coordinate of the origin lies above the same coordinate of a point.
pub open spec fn origin_above_a_point(points: Seq<[u32; 3]>, origin: [u32; 3]) -> bool {
    exists|i: int, a: int| 0 <= i < points.len() && 0 <= a < 3 && value_gt(origin[a], #[trigger] points[i][a])
}

/// The linear cell of each point, from its cell coordinates.
pub open spec fn linear_cells(point_cells: Seq<[u32; 3]>, dims: [u32; 3]) -> Seq<usize> {
    Seq::new(point_cells.len(), |i: int| cell_index(point_cells[i][0] as int, point_cells[i][1] as int, point_cells[i][2] as int, dims) as usize)
}

/// The cell coordinates lie inside the grid.
pub open spec fn cells_inside(point_cells: Seq<[u32; 3]>, dims: [u32; 3]) -> bool {
    forall|i: int, a: int| 0 <= i < point_cells.len() && 0 <= a < 3 ==> #[trigger] point_cells[i][a] < dims[a]
}

/// What the caller's geometry must satisfy: positive cell counts, and one
/// in-grid cell per point.
pub open spec fn geometry_fits(geometry: GridGeometry, npoints: int) -> bool {
    geometry.dims matches Some(d) ==> {
        &&& d[0] >= 1 && d[1] >= 1 && d[2] >= 1
        &&& geometry.point_cells@.len() == npoints
        &&& cells_inside(geometry.point_cells@, d)
    }
}

impl GridGeometry {
    /// Whether this geometry can accompany `npoints` points into
    /// `MlsArena::from_points` (`geometry_fits`).
    pub fn fits(&self, npoints: usize) -> (r: bool)
        ensures
            r == geometry_fits(*self, npoints as int),
    {
        match self.dims {
            None => true,
            Some(d) => {
                if d[0] == 0 || d[1] == 0 || d[2] == 0 || self.point_cells.len() != npoints {
                    return false;
                }
                let mut i: usize = 0;
                while i < self.point_cells.len()
                    invariant
                        i <= self.point_cells@.len() == npoints,
                        self.dims == Some(d),
                        d[0] != 0 && d[1] != 0 && d[2] != 0,
                        forall|j: int, a: int| 0 <= j < i && 0 <= a < 3 ==> #[trigger] self.point_cells@[j][a] < d[a],
                    decreases self.point_cells@.len() - i,
                {
                    let c = self.point_cells[i];
                    if c[0] >= d[0] || c[1] >= d[1] || c[2] >= d[2] {
                        proof {
                            if c[0] >= d[0] {
                                assert(!(self.point_cells@[i as int][0] < d[0]));
                            } else if c[1] >= d[1] {
                                assert(!(self.point_cells@[i as int][1] < d[1]));
                            } else {
                                assert(!(self.point_cells@[i as int][2] < d[2]));
                            }
                        }
                        return false;
                    }
                    proof {
                        assert forall|j: int, a: int| 0 <= j < i + 1 && 0 <= a < 3 implies #[trigger] self.point_cells@[j][a] < d[a] by {
                            if j == i {
                                assert(self.point_cells@[j] == c);
                            }
                        }
                    }
                    i += 1;
                }
                true
            }
        }
    }
}

/// The first reason, in the order the checks run, why a point cloud cannot
/// be binned; `None` when it can.
#[verifier::opaque]
pub open spec fn points_fault(points: Seq<[u32; 3]>, cell_size: u32, geometry: GridGeometry) -> Option<ArenaError> {
    if points.len() == 0 {
        Some(ArenaError::EmptyPoints)
    } else if !spec_is_positive(cell_size) {
        Some(ArenaError::InvalidCellSize(cell_size))
    } else if exists|i: int| first_non_finite_at(points, i) {
        Some(ArenaError::NonFinitePoint { index: (choose|i: int| first_non_finite_at(points, i)) as usize })
    } else if !origin_finite(geometry.origin) {
        Some(ArenaError::InvalidGrid("origin contains a non-finite value"))
    } else if origin_above_a_point(points, geometry.origin) {
        Some(ArenaError::InvalidGrid("origin must not lie above the minimum point coordinate"))
    } else if geometry.dims is None {
        Some(ArenaError::GridTooLarge)
    } else if cell_count(geometry.dims.unwrap()) > u32::MAX - 1 {
        Some(ArenaError::GridTooLarge)
    } else if points.len() > u32::MAX {
        Some(ArenaError::GridTooLarge)
    } else {
        None
    }
}

/// What a point cloud that can be binned satisfies.
pub proof fn lemma_fault_free(points: Seq<[u32; 3]>, cell_size: u32, geometry: GridGeometry)
    requires
        points_fault(points, cell_size, geometry) is None,
    ensures
        0 < points.len() <= u32::MAX,
        spec_is_positive(cell_size),
        !(exists|f: int| first_non_finite_at(points, f)),
        origin_finite(geometry.origin),
        !origin_above_a_point(points, geometry.origin),
        geometry.dims is Some,
        cell_count(geometry.dims.unwrap()) <= u32::MAX - 1,
{
    reveal(points_fault);
}

/// The flat xyz layout of a list of triples.
pub open spec fn flat_triples(points: Seq<[u32; 3]>, flat: Seq<u32>) -> bool {
    &&& flat.len() == 3 * points.len()
    &&& forall|i: int, a: int| #![trigger points[i][a]] 0 <= i < points.len() && 0 <= a < 3 ==> flat[3 * i + a] == points[i][a]
}

/// A cell coordinate inside the grid has a linear index inside the grid.
pub proof fn lemma_cell_index_inside(x: int, y: int, z: int, dims: [u32; 3])
    requires
        0 <= x < dims[0],
        0 <= y < dims[1],
        0 <= z < dims[2],
    ensures
        0 <= y + dims[1] * z < dims[1] * dims[2],
        dims[1] * dims[2] <= cell_count(dims),
        0 <= cell_index(x, y, z, dims) < cell_count(dims),
{
    let d0 = dims[0] as int;
    let d1 = dims[1] as int;
    let d2 = dims[2] as int;
    assert(0 <= y + d1 * z < d1 * d2) by (nonlinear_arith)
        requires 0 <= y < d1, 0 <= z < d2;
    assert(0 <= x + d0 * (y + d1 * z) < d0 * d1 * d2) by (nonlinear_arith)
        requires 0 <= x < d0, 0 <= y + d1 * z < d1 * d2;
    assert(d1 * d2 <= d0 * d1 * d2) by (nonlinear_arith)
        requires 1 <= d0, 0 <= d1, 0 <= d2;
}

/// Index of the first point with a non-finite coordinate, if any.
fn first_non_finite(points: &[[u32; 3]]) -> (r: Option<usize>)
    ensures
        match r {
            Some(i) => first_non_finite_at(points@, i as int),
            None => forall|j: int| 0 <= j < points@.len() ==> #[trigger] triple_finite(points@[j]),
        },
{
    let mut i: usize = 0;
    while i < points.len()
        invariant
            i <= points@.len(),
            forall|j: int| 0 <= j < i ==> #[trigger] triple_finite(points@[j]),
        decreases points@.len() - i,
    {
        let p = points[i];
        if !is_finite(p[0]) || !is_finite(p[1]) || !is_finite(p[2]) {
            return Some(i);
        }
        i += 1;
    }
    None
}

/// Whether some coordinate of `origin` lies above that of a point.
fn origin_above_some_point(points: &[[u32; 3]], origin: [u32; 3]) -> (r: bool)
    ensures
        r == origin_above_a_point(points@, origin),
{
    let mut i: usize = 0;
    while i < points.len()
        invariant
            i <= points@.len(),
            forall|j: int, a: int| 0 <= j < i && 0 <= a < 3 ==> !value_gt(origin[a], #[trigger] points@[j][a]),
        decreases points@.len() - i,
    {
        let p = points[i];
        let mut a: usize = 0;
        while a < 3
            invariant
                a <= 3,
                i < points@.len(),
                p == points@[i as int],
                forall|b: int| 0 <= b < a ==> !value_gt(origin[b], #[trigger] p[b]),
            decreases 3 - a,
        {
            if greater_than(origin[a], p[a]) {
                assert(value_gt(origin[a as int], points@[i as int][a as int]));
                return true;
            }
            a += 1;
        }
        i += 1;
    }
    false
}

/// The linear cell index of every point.
fn linear_cells_of(point_cells: &Vec<[u32; 3]>, dims: [u32; 3]) -> (r: Vec<usize>)
    requires
        dims[0] >= 1 && dims[1] >= 1 && dims[2] >= 1,
        cell_count(dims) <= u32::MAX,
        cells_inside(point_cells@, dims),
    ensures
        r@ == linear_cells(point_cells@, dims),
        cells_below(r@, cell_count(dims)),
{
    let mut r: Vec<usize> = Vec::new();
    let mut i: usize = 0;
    while i < point_cells.len()
        invariant
            i <= point_cells.len(),
            cell_count(dims) <= u32::MAX,
            cells_inside(point_cells@, dims),
            r@ == linear_cells(point_cells@, dims).take(i as int),
            forall|j: int| 0 <= j < i ==> #[trigger] r@[j] < cell_count(dims),
        decreases point_cells.len() - i,
    {
        let c = point_cells[i];
        assert(c[0] < dims[0] && c[1] < dims[1] && c[2] < dims[2]) by {
            assert(point_cells@[i as int][0] < dims[0]);
            assert(point_cells@[i as int][1] < dims[1]);
            assert(point_cells@[i as int][2] < dims[2]);
        }
        proof {
            lemma_cell_index_inside(c[0] as int, c[1] as int, c[2] as int, dims);
        }
        let cell = linear_cell(c[0], c[1], c[2], dims);
        r.push(cell);
        assert(r@ =~= linear_cells(point_cells@, dims).take(i + 1));
        i += 1;
    }
    assert(r@ =~= linear_cells(point_cells@, dims));
    r
}

/// Flat xyz layout of a list of triples.
fn flatten(points: &[[u32; 3]]) -> (flat: Vec<u32>)
    ensures
        flat_triples(points@, flat@),
{
    let mut flat: Vec<u32> = Vec::new();
    let mut i: usize = 0;
    while i < points.len()
        invariant
            i <= points@.len(),
            flat@.len() == 3 * i,
            forall|j: int, a: int| #![trigger points@[j][a]] 0 <= j < i && 0 <= a < 3 ==> flat@[3 * j + a] == points@[j][a],
        decreases points@.len() - i,
    {
        let p = points[i];
        flat.push(p[0]);
        flat.push(p[1]);
        flat.push(p[2]);
        i += 1;
    }
    flat
}

impl MlsArena {
    /// This arena is the binning of `points` with `cell_size` and `geometry`:
    /// tagged, on the `Auto` backend, holding the points' flat layout, and
    /// holding their counting-sort grouping by cell.
    pub open spec fn spec_bins(&self, points: Seq<[u32; 3]>, cell_size: u32, geometry: GridGeometry) -> bool {
        let dims = geometry.dims.unwrap();
        &&& self.magic == ARENA_MAGIC && self.version == ARENA_VERSION
        &&& self.backend == Backend::Auto
        &&& self.dims == dims && self.origin == geometry.origin && self.cell_size == cell_size
        &&& flat_triples(points, self.points@)
        &&& is_cell_grouping(self.cell_offsets@, self.point_indices@,
                linear_cells(geometry.point_cells@, dims), points, cell_count(dims))
    }

    /// Bin a point cloud (xyz triples of binary32 encodings) into a
    /// counting-sort grid of cubic cells of edge `cell_size`.
    ///
    /// `geometry` carries what only floating-point arithmetic on the
    /// coordinates yields: the grid origin (the caller's, or one cell below
    /// the minimum corner), the cells per axis (`ceil(span / cell_size) + 2`,
    /// `None` when a span is not finite or too large), and the clamped cell
    /// coordinates of each point.
    pub fn from_points(points: &[[u32; 3]], cell_size: u32, geometry: &GridGeometry) -> (r: Result<MlsArena, ArenaError>)
        requires
            geometry_fits(*geometry, points@.len() as int),
        ensures
            match points_fault(points@, cell_size, *geometry) {
                Some(e) => r == Err::<MlsArena, ArenaError>(e),
                None => r matches Ok(a) && a.spec_bins(points@, cell_size, *geometry) && a.spec_consistent(),
            },
    {
        proof {
            reveal(points_fault);
        }
        if points.len() == 0 {
            return Err(ArenaError::EmptyPoints);
        }
        if !is_positive(cell_size) {
            return Err(ArenaError::InvalidCellSize(cell_size));
        }
        match first_non_finite(points) {
            Some(index) => {
                proof {
                    let w = choose|i: int| first_non_finite_at(points@, i);
                    if w < index {
                        assert(triple_finite(points@[w]));
                    } else if w > index {
                        assert(triple_finite(points@[index as int]));
                    }
                }
                return Err(ArenaError::NonFinitePoint { index });
            },
            None => {},
        }
        assert(!exists|i: int| first_non_finite_at(points@, i));
        let origin = geometry.origin;
        if !is_finite(origin[0]) || !is_finite(origin[1]) || !is_finite(origin[2]) {
            return Err(ArenaError::InvalidGrid("origin contains a non-finite value"));
        }
        if origin_above_some_point(points, origin) {
            return Err(ArenaError::InvalidGrid("origin must not lie above the minimum point coordinate"));
        }
        let dims = match geometry.dims {
            Some(d) => d,
            None => return Err(ArenaError::GridTooLarge),
        };
        let ncells = match checked_cell_count(dims) {
            Some(n) => n,
            None => return Err(ArenaError::GridTooLarge),
        };
        if ncells > (u32::MAX - 1) as usize {
            return Err(ArenaError::GridTooLarge);
        }
        if points.len() > u32::MAX as usize {
            return Err(ArenaError::GridTooLarge);
        }
        let cells = linear_cells_of(&geometry.point_cells, dims);
        let (cell_offsets, point_indices) = group_by_cell(&cells, ncells, points);
        let flat = flatten(points);
        let arena = MlsArena {
            magic: ARENA_MAGIC,
            version: ARENA_VERSION,
            backend: Backend::Auto,
            points: flat,
            cell_offsets,
            point_indices,
            dims,
            origin,
            cell_size,
        };
        proof {
            lemma_binned_arena_consistent(&arena, points@, cells@);
        }
        Ok(arena)
    }
}

/// An arena whose arrays are the cell grouping of its points is consistent.
pub proof fn lemma_binned_arena_consistent(a: &MlsArena, points: Seq<[u32; 3]>, cells: Seq<usize>)
    requires
        a.dims[0] >= 1 && a.dims[1] >= 1 && a.dims[2] >= 1,
        cell_count(a.dims) <= u32::MAX - 1,
        cells_below(cells, cell_count(a.dims)),
        cells.len() == points.len(),
        flat_triples(points, a.points@),
        is_cell_grouping(a.cell_offsets@, a.point_indices@, cells, points, cell_count(a.dims)),
    ensures
        a.spec_consistent(),
{
    lemma_prefix_shape(a.cell_offsets@, cells, cell_count(a.dims));
    assert forall|i: int| 0 <= i < a.cell_offsets@.len() - 1 implies #[trigger] a.cell_offsets@[i] <= a.cell_offsets@[i + 1] by {
        assert(a.cell_offsets@[i] <= a.cell_offsets@[i + 1]);
    }
    assert(a.points@.len() / 3 == points.len());
    assert(a.cell_offsets@.last() == a.point_indices@.len());
    assert forall|k: int| 0 <= k < a.point_indices@.len() implies #[trigger] a.point_indices@[k] < a.points@.len() / 3 by {
        assert(a.point_indices@[k] < cells.len());
    }
}

} // verus!
