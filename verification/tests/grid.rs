use herculaneum_mls_cubecl::grid::{GridGeometry, MlsArena, ARENA_MAGIC, ARENA_VERSION};
use herculaneum_mls_cubecl::neighbours::neighbour_window;
use herculaneum_mls_cubecl::{linear_cell, ArenaError, Backend};

fn bits(p: [f32; 3]) -> [u32; 3] {
    [p[0].to_bits(), p[1].to_bits(), p[2].to_bits()]
}

/// Cell coordinates as the float geometry computes them (floor, clamped).
fn coords(p: [f32; 3], origin: [f32; 3], cell_size: f32, dims: [u32; 3]) -> [u32; 3] {
    let mut out = [0u32; 3];
    for axis in 0..3 {
        let raw = ((p[axis] - origin[axis]) / cell_size).floor();
        out[axis] = if raw <= 0.0 {
            0
        } else if raw >= (dims[axis] - 1) as f32 {
            dims[axis] - 1
        } else {
            raw as u32
        };
    }
    out
}

fn geometry(points: &[[f32; 3]], origin: [f32; 3], cell_size: f32, dims: [u32; 3]) -> GridGeometry {
    GridGeometry {
        origin: bits(origin),
        dims: Some(dims),
        point_cells: points.iter().map(|p| coords(*p, origin, cell_size, dims)).collect(),
    }
}

fn build(points: &[[f32; 3]], origin: [f32; 3], cell_size: f32, dims: [u32; 3]) -> Result<MlsArena, ArenaError> {
    let b: Vec<[u32; 3]> = points.iter().map(|p| bits(*p)).collect();
    MlsArena::from_points(&b, cell_size.to_bits(), &geometry(points, origin, cell_size, dims))
}

#[test]
fn linear_cell_is_x_fastest() {
    assert_eq!(linear_cell(1, 2, 3, [4, 5, 6]), 69);
    assert_eq!(linear_cell(0, 0, 0, [4, 5, 6]), 0);
    assert_eq!(linear_cell(3, 4, 5, [4, 5, 6]), 119);
    assert_eq!(linear_cell(1, 0, 0, [4, 5, 6]), 1);
    assert_eq!(linear_cell(0, 1, 0, [4, 5, 6]), 4);
    assert_eq!(linear_cell(0, 0, 1, [4, 5, 6]), 20);
}

#[test]
fn linear_cell_numbers_every_cell_once() {
    let dims = [3u32, 4, 5];
    let mut seen = vec![false; 60];
    for z in 0..5 {
        for y in 0..4 {
            for x in 0..3 {
                let c = linear_cell(x, y, z, dims);
                assert!(c < 60);
                assert!(!seen[c]);
                seen[c] = true;
            }
        }
    }
    assert!(seen.iter().all(|s| *s));
}

#[test]
fn backend_ids_round_trip() {
    for id in 0..4u32 {
        let b = Backend::try_from(id).unwrap();
        assert_eq!(b.id(), id);
    }
    assert_eq!(Backend::try_from(0).unwrap(), Backend::Auto);
    assert_eq!(Backend::try_from(3).unwrap(), Backend::CubeHip);
    assert!(matches!(Backend::try_from(4), Err(ArenaError::InvalidBackend(4))));
}

#[test]
fn from_points_groups_points_by_cell_in_zyx_order() {
    let points = [
        [0.5_f32, 0.5, 0.5],
        [1.5, 0.5, 0.5],
        [0.2, 0.5, 0.9],
        [0.9, 0.1, 0.3],
        [0.9, 0.1, 0.3],
        [1.1, 1.1, 1.1],
    ];
    let origin = [0.0_f32, 0.0, 0.0];
    let dims = [2u32, 2, 2];
    let arena = build(&points, origin, 1.0, dims).unwrap();
    assert_eq!(arena.magic, ARENA_MAGIC);
    assert_eq!(arena.version, ARENA_VERSION);
    assert!(arena.validate_tag());
    assert_eq!(arena.backend, Backend::Auto);
    assert_eq!(arena.npoints(), 6);
    assert_eq!(arena.dims, dims);
    assert_eq!(arena.cell_size, 1.0_f32.to_bits());
    assert_eq!(arena.points.len(), 18);
    assert_eq!(arena.points[3], 1.5_f32.to_bits());
    // cell 0 holds points 0, 2, 3, 4; cell 1 point 1; cell 7 point 5
    assert_eq!(arena.cell_offsets, vec![0, 4, 5, 5, 5, 5, 5, 5, 6]);
    // inside cell 0: z ascending (0.3, 0.3, 0.5, 0.9), ties by index
    assert_eq!(arena.point_indices, vec![3, 4, 0, 2, 1, 5]);
}

#[test]
fn from_points_orders_by_z_then_y_then_x() {
    let points = [
        [0.7_f32, 0.2, 0.5],
        [0.1, 0.2, 0.5],
        [0.1, 0.1, 0.5],
        [-0.0, 0.1, 0.4],
        [0.0, 0.1, 0.4],
    ];
    let origin = [-1.0_f32, -1.0, -1.0];
    let arena = build(&points, origin, 2.0, [1, 1, 1]).unwrap();
    assert_eq!(arena.cell_offsets, vec![0, 5]);
    // -0.0 sorts before +0.0 in the total order
    assert_eq!(arena.point_indices, vec![3, 4, 2, 1, 0]);
}

#[test]
fn from_points_reports_each_error() {
    let origin = [0.0_f32; 3];
    assert!(matches!(build(&[], origin, 1.0, [2, 2, 2]), Err(ArenaError::EmptyPoints)));
    let one = [[0.5_f32, 0.5, 0.5]];
    match build(&one, origin, 0.0, [2, 2, 2]) {
        Err(ArenaError::InvalidCellSize(v)) => assert_eq!(v, 0.0_f32.to_bits()),
        other => panic!("{other:?}"),
    }
    assert!(matches!(build(&one, origin, f32::NAN, [2, 2, 2]), Err(ArenaError::InvalidCellSize(_))));
    assert!(matches!(build(&one, origin, -1.0, [2, 2, 2]), Err(ArenaError::InvalidCellSize(_))));
    let bad = [[0.5_f32, 0.5, 0.5], [0.5, f32::INFINITY, 0.5], [f32::NAN, 0.0, 0.0]];
    assert!(matches!(build(&bad, origin, 1.0, [2, 2, 2]), Err(ArenaError::NonFinitePoint { index: 1 })));
    match build(&one, [f32::NAN, 0.0, 0.0], 1.0, [2, 2, 2]) {
        Err(ArenaError::InvalidGrid(m)) => assert_eq!(m, "origin contains a non-finite value"),
        other => panic!("{other:?}"),
    }
    match build(&one, [0.0, 0.6, 0.0], 1.0, [2, 2, 2]) {
        Err(ArenaError::InvalidGrid(m)) => assert_eq!(m, "origin must not lie above the minimum point coordinate"),
        other => panic!("{other:?}"),
    }
    // an origin equal to the minimum is accepted, also across the sign of zero
    let zero = [[0.0_f32, 0.0, 0.0]];
    assert!(build(&zero, [-0.0, -0.0, -0.0], 1.0, [2, 2, 2]).is_ok());
    let g = GridGeometry { origin: bits(origin), dims: None, point_cells: Vec::new() };
    assert!(matches!(MlsArena::from_points(&[bits([0.5, 0.5, 0.5])], 1.0_f32.to_bits(), &g), Err(ArenaError::GridTooLarge)));
    let g = GridGeometry { origin: bits(origin), dims: Some([65536, 65536, 1]), point_cells: vec![[0, 0, 0]] };
    assert!(matches!(MlsArena::from_points(&[bits([0.5, 0.5, 0.5])], 1.0_f32.to_bits(), &g), Err(ArenaError::GridTooLarge)));
    let g = GridGeometry { origin: bits(origin), dims: Some([u32::MAX, u32::MAX, u32::MAX]), point_cells: vec![[0, 0, 0]] };
    assert!(matches!(MlsArena::from_points(&[bits([0.5, 0.5, 0.5])], 1.0_f32.to_bits(), &g), Err(ArenaError::GridTooLarge)));
}

#[test]
fn binned_grid_is_accepted_by_from_grid() {
    let mut points = Vec::new();
    for y in -3..=3 {
        for x in -3..=3 {
            points.push([x as f32, y as f32, 0.1 * x as f32]);
        }
    }
    let origin = [-4.0_f32, -4.0, -4.0];
    let arena = build(&points, origin, 2.0, [6, 6, 4]).unwrap();
    let again = MlsArena::from_grid(
        arena.points.clone(),
        arena.cell_offsets.clone(),
        arena.point_indices.clone(),
        arena.dims,
        arena.origin,
        arena.cell_size,
    )
    .unwrap();
    assert_eq!(again.point_indices, arena.point_indices);
    assert_eq!(again.cell_offsets, arena.cell_offsets);
    let mut sorted = arena.point_indices.clone();
    sorted.sort();
    assert_eq!(sorted, (0..49u32).collect::<Vec<_>>());
}

fn grid_err(points: Vec<f32>, offsets: Vec<u32>, indices: Vec<u32>, dims: [u32; 3], origin: [f32; 3], cell: f32) -> String {
    match MlsArena::from_grid(
        points.iter().map(|v| v.to_bits()).collect(),
        offsets,
        indices,
        dims,
        [origin[0].to_bits(), origin[1].to_bits(), origin[2].to_bits()],
        cell.to_bits(),
    ) {
        Ok(_) => "ok".to_string(),
        Err(ArenaError::InvalidGrid(m)) => m.to_string(),
        Err(e) => format!("{e:?}"),
    }
}

#[test]
fn from_grid_reports_each_error() {
    let p = vec![0.0_f32, 0.0, 0.0, 1.0, 1.0, 1.0];
    let o = [0.0_f32; 3];
    assert_eq!(grid_err(p.clone(), vec![0, 1, 2], vec![1, 0], [2, 1, 1], o, 1.0), "ok");
    assert_eq!(grid_err(vec![], vec![0, 0], vec![], [1, 1, 1], o, 1.0), "points must contain one or more xyz triples");
    assert_eq!(grid_err(vec![0.0, 1.0], vec![0, 0], vec![], [1, 1, 1], o, 1.0), "points must contain one or more xyz triples");
    assert_eq!(grid_err(vec![0.0, f32::NAN, 1.0], vec![0, 1], vec![0], [1, 1, 1], o, 1.0), "points contain a non-finite value");
    assert_eq!(grid_err(p.clone(), vec![0, 1, 2], vec![1, 0], [2, 1, 1], o, -2.0), format!("InvalidCellSize({})", (-2.0_f32).to_bits()));
    assert_eq!(grid_err(p.clone(), vec![0, 1, 2], vec![1, 0], [2, 0, 1], o, 1.0), "origin/dimensions are invalid");
    assert_eq!(grid_err(p.clone(), vec![0, 1, 2], vec![1, 0], [2, 1, 1], [0.0, f32::INFINITY, 0.0], 1.0), "origin/dimensions are invalid");
    assert_eq!(grid_err(p.clone(), vec![0, 2], vec![1, 0], [2, 1, 1], o, 1.0), "cell_offsets length must equal cell count + 1");
    assert_eq!(grid_err(p.clone(), vec![1, 1, 2], vec![1, 0], [2, 1, 1], o, 1.0), "cell_offsets must start at zero");
    assert_eq!(grid_err(p.clone(), vec![0, 2, 1], vec![1, 0], [2, 1, 1], o, 1.0), "cell_offsets must be monotonic");
    assert_eq!(grid_err(p.clone(), vec![0, 1, 1], vec![1, 0], [2, 1, 1], o, 1.0), "last cell offset must equal point_indices length");
    assert_eq!(grid_err(p.clone(), vec![0, 1, 3], vec![1, 0, 0], [2, 1, 1], o, 1.0), "point_indices must contain every point exactly once");
    assert_eq!(grid_err(p.clone(), vec![0, 1, 2], vec![1, 2], [2, 1, 1], o, 1.0), "point_indices contains an out-of-range index");
    assert_eq!(grid_err(p.clone(), vec![0, 1, 2], vec![1, 1], [2, 1, 1], o, 1.0), "point_indices contains a duplicate index");
    assert_eq!(grid_err(p, vec![0, 2], vec![1, 0], [u32::MAX, u32::MAX, u32::MAX], o, 1.0), "GridTooLarge");
}

#[test]
fn neighbour_candidates_walk_the_window() {
    // a 3 x 3 x 1 grid of unit cells, one point per cell, origin at 0
    let mut points = Vec::new();
    for y in 0..3 {
        for x in 0..3 {
            points.push([x as f32 + 0.5, y as f32 + 0.5, 0.5]);
        }
    }
    let arena = build(&points, [0.0, 0.0, 0.0], 1.0, [3, 3, 1]).unwrap();
    assert_eq!(arena.neighbour_candidates([0, 0, 0], 1), vec![0, 1, 3, 4]);
    assert_eq!(arena.neighbour_candidates([1, 1, 0], 1), vec![0, 1, 2, 3, 4, 5, 6, 7, 8]);
    assert_eq!(arena.neighbour_candidates([2, 1, 0], 1), vec![1, 2, 4, 5, 7, 8]);
    assert_eq!(arena.neighbour_candidates([2, 2, 0], 0), vec![8]);
    assert_eq!(arena.neighbour_candidates([1, 0, 0], u32::MAX), vec![0, 1, 2, 3, 4, 5, 6, 7, 8]);
}

#[test]
fn neighbour_window_saturates_and_clamps() {
    assert_eq!(neighbour_window([0, 5, 9], 2, [10, 10, 10]), ([0, 3, 7], [2, 7, 9]));
    assert_eq!(neighbour_window([3, 3, 3], u32::MAX, [4, 5, 6]), ([0, 0, 0], [3, 4, 5]));
}

#[test]
fn candidates_are_exactly_the_window_points_each_once() {
    // a deterministic scattered cloud
    let mut points = Vec::new();
    let mut state = 12345_u32;
    for _ in 0..300 {
        let mut next = || {
            state = state.wrapping_mul(1_103_515_245).wrapping_add(12_345);
            (state >> 8) as f32 / (1 << 24) as f32 * 9.0
        };
        points.push([next(), next(), next()]);
    }
    let origin = [0.0_f32; 3];
    let dims = [5u32, 5, 5];
    let g = geometry(&points, origin, 2.0, dims);
    let b: Vec<[u32; 3]> = points.iter().map(|p| bits(*p)).collect();
    let arena = MlsArena::from_points(&b, 2.0_f32.to_bits(), &g).unwrap();
    for c in [[0u32, 0, 0], [2, 2, 2], [4, 1, 3], [4, 4, 4]] {
        for reach in [0u32, 1, 2] {
            let (lo, hi) = neighbour_window(c, reach, dims);
            let cand = arena.neighbour_candidates(c, reach);
            let mut expected: Vec<u32> = (0..points.len() as u32)
                .filter(|&j| (0..3).all(|a| lo[a] <= g.point_cells[j as usize][a] && g.point_cells[j as usize][a] <= hi[a]))
                .collect();
            let mut got = cand.clone();
            got.sort();
            expected.sort();
            assert_eq!(got, expected, "cell {c:?} reach {reach}");
        }
    }
}

#[test]
fn geometry_fit_check() {
    let g = GridGeometry { origin: [0; 3], dims: Some([2, 2, 2]), point_cells: vec![[1, 1, 1], [0, 0, 0]] };
    assert!(g.fits(2));
    assert!(!g.fits(3));
    let g = GridGeometry { origin: [0; 3], dims: Some([2, 2, 2]), point_cells: vec![[1, 2, 1]] };
    assert!(!g.fits(1));
    let g = GridGeometry { origin: [0; 3], dims: Some([0, 2, 2]), point_cells: vec![] };
    assert!(!g.fits(0));
    let g = GridGeometry { origin: [0; 3], dims: None, point_cells: vec![] };
    assert!(g.fits(5));
}
