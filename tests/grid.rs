use numeric_laplace::grid::{convert_coordinates, stamp, Rect};
use numeric_laplace::{FixedBox, Grid, GridError, Scale, Stencil};
use rand::{ChaChaRng, Rng, SeedableRng};

struct Sor {
    omega: f64,
    tolerance: f64,
}

impl Stencil<f64> for Sor {
    fn step(&self, centre: f64, top: f64, left: f64, right: f64, bottom: f64) -> (f64, bool) {
        let new_value = (top + left + right + bottom) / 4.0;
        let delta = centre - new_value;
        (centre - self.omega * delta, delta.abs() <= self.tolerance)
    }

    fn relax(&self, centre: f64, top: f64, left: f64, right: f64, bottom: f64) -> (f64, bool) {
        self.step(centre, top, left, right, bottom)
    }
}

fn unit_scale() -> Scale {
    Scale { nodes_per_unit: 1, x_offset: 0, y_offset: 0, invert_x: false, invert_y: false }
}

fn seeded(grid: &mut Grid<f64>, seed: [u8; 32]) {
    let mut random = ChaChaRng::from_seed(seed);
    let noise: Vec<f64> =
        grid.dynamic_indices().iter().map(|_| random.gen_range(0.0, 100.0)).collect();
    grid.fill_dynamic(&noise);
}

#[test]
fn border_leaves_interior_dynamic() {
    let grid = Grid::new(5, 5, &vec![], &unit_scale(), 0.0).unwrap();
    assert_eq!(grid.width(), 5);
    assert_eq!(grid.height(), 5);
    assert_eq!(grid.nodes().len(), 25);
    assert_eq!(grid.dynamic_indices(), &vec![6, 7, 8, 11, 12, 13, 16, 17, 18]);
}

#[test]
fn dynamic_indices_partition_the_buffer() {
    let boxes = vec![FixedBox { x: 2, y: 3, width: 2, height: 1, potential: 7.0 }];
    let grid = Grid::new(7, 6, &boxes, &unit_scale(), 0.0).unwrap();
    let w = grid.width();
    let n = grid.nodes().len();
    let dynamic = grid.dynamic_indices();
    for k in 1..dynamic.len() {
        assert!(dynamic[k - 1] < dynamic[k]);
    }
    for &i in dynamic.iter() {
        assert!(i >= w && i + w < n);
        assert!(i % w >= 1 && i % w + 1 < w);
    }
    for i in 0..n {
        let (row, col) = (i / w, i % w);
        let border = row == 0 || row == 5 || col == 0 || col == 6;
        let in_box = row == 3 && (col == 2 || col == 3);
        assert_eq!(dynamic.contains(&i), !(border || in_box));
    }
    assert_eq!(grid.nodes()[3 * 7 + 2], 7.0);
    assert_eq!(grid.nodes()[3 * 7 + 3], 7.0);
    assert_eq!(dynamic.len(), 4 * 5 - 2);
}

#[test]
fn later_region_overwrites_earlier() {
    let boxes = vec![
        FixedBox { x: 1, y: 1, width: 2, height: 2, potential: 1.0 },
        FixedBox { x: 2, y: 2, width: 2, height: 2, potential: 2.0 },
    ];
    let grid = Grid::new(6, 6, &boxes, &unit_scale(), 0.0).unwrap();
    let nodes = grid.nodes();
    assert_eq!(nodes[6 + 1], 1.0);
    assert_eq!(nodes[2 * 6 + 2], 2.0);
    assert_eq!(nodes[3 * 6 + 3], 2.0);
    assert_eq!(grid.dynamic_indices().len(), 16 - 7);
}

#[test]
fn region_reaching_right_edge_is_out_of_bounds() {
    let boxes = vec![FixedBox { x: 8, y: 2, width: 3, height: 2, potential: 100.0 }];
    let r = Grid::new(10, 10, &boxes, &unit_scale(), 0.0);
    assert_eq!(r.err(), Some(GridError::OutOfBounds));
}

#[test]
fn region_on_border_column_is_out_of_bounds() {
    let boxes = vec![FixedBox { x: 7, y: 2, width: 3, height: 2, potential: 100.0 }];
    let r = Grid::new(10, 10, &boxes, &unit_scale(), 0.0);
    assert_eq!(r.err(), Some(GridError::OutOfBounds));
    let boxes = vec![FixedBox { x: 0, y: 2, width: 1, height: 1, potential: 100.0 }];
    assert!(Grid::new(10, 10, &boxes, &unit_scale(), 0.0).is_err());
    let boxes = vec![FixedBox { x: -1, y: 2, width: 1, height: 1, potential: 100.0 }];
    assert!(Grid::new(10, 10, &boxes, &unit_scale(), 0.0).is_err());
}

#[test]
fn region_just_inside_is_accepted() {
    let boxes = vec![FixedBox { x: 6, y: 6, width: 3, height: 3, potential: 100.0 }];
    let grid = Grid::new(10, 10, &boxes, &unit_scale(), 0.0).unwrap();
    assert_eq!(grid.nodes()[8 * 10 + 8], 100.0);
    assert_eq!(grid.dynamic_indices().len(), 64 - 9);
}

#[test]
fn resolution_scales_grid_and_regions() {
    let scale = Scale { nodes_per_unit: 2, x_offset: 1, y_offset: 0, invert_x: false, invert_y: false };
    let boxes = vec![FixedBox { x: 0, y: 1, width: 1, height: 1, potential: 5.0 }];
    let grid = Grid::new(4, 3, &boxes, &scale, 0.0).unwrap();
    assert_eq!(grid.width(), 8);
    assert_eq!(grid.height(), 6);
    for (row, col) in [(2, 2), (2, 3), (3, 2), (3, 3)] {
        assert_eq!(grid.nodes()[row * 8 + col], 5.0);
    }
    assert_eq!(grid.dynamic_indices().len(), 6 * 4 - 4);
}

#[test]
fn coordinates_follow_scale() {
    let scale = Scale { nodes_per_unit: 5, x_offset: 10, y_offset: 25, invert_x: false, invert_y: true };
    assert_eq!(convert_coordinates(-5, 5, &scale), Some((25, 100)));
    assert_eq!(convert_coordinates(-11, 0, &scale), None);
    assert_eq!(convert_coordinates(0, 26, &scale), None);
    assert_eq!(convert_coordinates(isize::MIN, 0, &unit_scale()), None);
}

#[test]
fn stamping_twice_equals_stamping_once() {
    let rect = Rect { col: 1, row: 1, width: 2, height: 3 };
    let mut once: Vec<f64> = (0..30).map(|i| i as f64).collect();
    stamp(&mut once, 6, rect, 9.5);
    let mut twice = once.clone();
    stamp(&mut twice, 6, rect, 9.5);
    assert_eq!(once, twice);
    let changed = (0..30).filter(|&i| once[i] != i as f64).count();
    assert_eq!(changed, 6);
    assert_eq!(once[6 + 1], 9.5);
    assert_eq!(once[3 * 6 + 2], 9.5);
    assert_eq!(once[4 * 6 + 2], 26.0);
}

#[test]
fn sweep_gauss_seidel_order() {
    let mut grid = Grid::new(4, 3, &vec![], &unit_scale(), 0.0).unwrap();
    grid.fill_dynamic(&vec![4.0, 8.0]);
    assert_eq!(grid.nodes()[5], 4.0);
    assert_eq!(grid.nodes()[6], 8.0);
    let sor = Sor { omega: 1.0, tolerance: 0.0 };
    let settled = grid.sweep(&sor);
    assert!(!settled);
    assert_eq!(grid.nodes()[5], 2.0);
    assert_eq!(grid.nodes()[6], 0.5);
}

#[test]
fn over_relaxation_step() {
    let mut grid = Grid::new(3, 3, &vec![FixedBox { x: 1, y: 1, width: 0, height: 0, potential: 1.0 }], &unit_scale(), 0.0).unwrap();
    grid.fill_dynamic(&vec![10.0]);
    let sor = Sor { omega: 1.5, tolerance: 0.0 };
    grid.sweep(&sor);
    assert_eq!(grid.nodes()[4], -5.0);
}

#[test]
fn fixed_count_watch_series_has_n_plus_two_entries() {
    let boxes = vec![FixedBox { x: 3, y: 3, width: 2, height: 2, potential: 100.0 }];
    let mut grid = Grid::new(10, 10, &boxes, &unit_scale(), 0.0).unwrap();
    seeded(&mut grid, [4; 32]);
    let start = grid.nodes()[2 * 10 + 2];
    let sor = Sor { omega: 1.8, tolerance: 0.0 };
    let mut watch = vec![1.0];
    grid.evaluate_for(&sor, Some((2, 2)), &mut watch, 7, f64::NEG_INFINITY).unwrap();
    assert_eq!(watch.len(), 1 + 7 + 2);
    assert_eq!(watch[1], start);
    assert_eq!(watch[8], grid.nodes()[22]);
    assert_eq!(watch[9], f64::NEG_INFINITY);
    let mut series = Vec::new();
    grid.evaluate_for(&sor, Some((2, 2)), &mut series, 0, f64::NEG_INFINITY).unwrap();
    assert_eq!(series.len(), 2);
}

#[test]
fn watch_outside_grid_is_rejected() {
    let mut grid = Grid::new(6, 6, &vec![], &unit_scale(), 0.0).unwrap();
    seeded(&mut grid, [1; 32]);
    let before = grid.nodes().clone();
    let sor = Sor { omega: 1.5, tolerance: 0.1 };
    let mut watch = Vec::new();
    assert_eq!(grid.evaluate(&sor, Some((0, 6)), &mut watch), Err(GridError::InvalidWatchPosition));
    assert_eq!(grid.evaluate_for(&sor, Some((0, -1)), &mut watch, 3, 0.0), Err(GridError::InvalidWatchPosition));
    assert!(watch.is_empty());
    assert_eq!(grid.nodes(), &before);
    assert_eq!(grid.watch_index((5, 5)), Some(35));
    assert_eq!(grid.watch_index((6, 5)), None);
}

#[test]
fn converge_mode_records_every_sweep() {
    let boxes = vec![FixedBox { x: 3, y: 3, width: 2, height: 2, potential: 100.0 }];
    let mut grid = Grid::new(10, 10, &boxes, &unit_scale(), 0.0).unwrap();
    seeded(&mut grid, [4; 32]);
    let sor = Sor { omega: 1.5, tolerance: 0.1 };
    let mut watch = Vec::new();
    let sweeps = grid.evaluate(&sor, Some((5, 5)), &mut watch).unwrap();
    assert!(sweeps >= 1);
    assert_eq!(watch.len(), sweeps + 1);
    assert_eq!(*watch.last().unwrap(), grid.nodes()[55]);
    assert_eq!(grid.nodes()[33], 100.0);
    assert_eq!(grid.nodes()[0], 0.0);
}

#[test]
fn ten_by_ten_scenario_converges_between_bounds() {
    let boxes = vec![FixedBox { x: 3, y: 3, width: 2, height: 2, potential: 100.0 }];
    let mut runs: Vec<Vec<f64>> = Vec::new();
    let mut counts = Vec::new();
    for tolerance in [0.1, 1e-3, 1e-5, 1e-10] {
        let mut grid = Grid::new(10, 10, &boxes, &unit_scale(), 0.0).unwrap();
        seeded(&mut grid, [7; 32]);
        let sor = Sor { omega: 1.5, tolerance };
        let mut watch = Vec::new();
        let sweeps = grid.evaluate(&sor, None, &mut watch).unwrap();
        assert!(watch.is_empty());
        let centre = grid.nodes()[5 * 10 + 5];
        assert!(centre > 0.0 && centre < 100.0);
        runs.push(grid.nodes().clone());
        counts.push(sweeps);
    }
    let mut again = Grid::new(10, 10, &boxes, &unit_scale(), 0.0).unwrap();
    seeded(&mut again, [7; 32]);
    let sweeps = again.evaluate(&Sor { omega: 1.5, tolerance: 0.1 }, None, &mut Vec::new()).unwrap();
    assert_eq!(sweeps, counts[0]);
    assert_eq!(again.nodes(), &runs[0]);
    let limit = runs[3].clone();
    let distance = |run: &Vec<f64>| {
        run.iter().zip(limit.iter()).map(|(a, b)| (a - b).abs()).fold(0.0, f64::max)
    };
    assert!(distance(&runs[1]) <= distance(&runs[0]));
    assert!(distance(&runs[2]) <= distance(&runs[1]));
    assert!(counts[0] <= counts[1] && counts[1] <= counts[2] && counts[2] <= counts[3]);
}

#[test]
fn watch_past_last_column_inside_buffer_is_accepted() {
    let mut grid = Grid::new(5, 5, &vec![], &unit_scale(), 0.0).unwrap();
    seeded(&mut grid, [1; 32]);
    assert_eq!(grid.watch_index((5, 0)), Some(5));
    assert_eq!(grid.watch_index((4, 4)), Some(24));
    assert_eq!(grid.watch_index((5, 4)), None);
    let sor = Sor { omega: 1.5, tolerance: 0.0 };
    let mut watch = Vec::new();
    assert_eq!(grid.evaluate_for(&sor, Some((5, 0)), &mut watch, 3, -1.0), Ok(()));
    assert_eq!(watch, vec![0.0, 0.0, 0.0, 0.0, -1.0]);
}

#[test]
fn watch_series_holds_value_after_each_sweep() {
    let boxes = vec![FixedBox { x: 3, y: 3, width: 2, height: 2, potential: 100.0 }];
    let mut stepwise = Grid::new(10, 10, &boxes, &unit_scale(), 0.0).unwrap();
    seeded(&mut stepwise, [6; 32]);
    let mut whole = Grid::new(10, 10, &boxes, &unit_scale(), 0.0).unwrap();
    seeded(&mut whole, [6; 32]);
    let sor = Sor { omega: 1.6, tolerance: 0.0 };
    let mut expected = vec![stepwise.nodes()[22]];
    for _ in 0..4 {
        stepwise.sweep(&sor);
        expected.push(stepwise.nodes()[22]);
    }
    expected.push(f64::NEG_INFINITY);
    let mut watch = Vec::new();
    whole.evaluate_for(&sor, Some((2, 2)), &mut watch, 4, f64::NEG_INFINITY).unwrap();
    assert_eq!(watch, expected);
    assert_eq!(whole.nodes(), stepwise.nodes());
}

#[test]
fn zero_sweeps_leave_nodes_unchanged() {
    let mut grid = Grid::new(8, 8, &vec![], &unit_scale(), 0.0).unwrap();
    seeded(&mut grid, [8; 32]);
    let before = grid.nodes().clone();
    let mut watch = Vec::new();
    grid.evaluate_for(&Sor { omega: 1.5, tolerance: 0.0 }, Some((3, 3)), &mut watch, 0, -1.0).unwrap();
    assert_eq!(grid.nodes(), &before);
    assert_eq!(watch, vec![before[27], -1.0]);
}

#[test]
fn converge_mode_equals_fixed_count_of_same_sweeps() {
    let boxes = vec![FixedBox { x: 3, y: 3, width: 2, height: 2, potential: 100.0 }];
    let sor = Sor { omega: 1.5, tolerance: 0.1 };
    let mut a = Grid::new(10, 10, &boxes, &unit_scale(), 0.0).unwrap();
    seeded(&mut a, [4; 32]);
    let mut b = Grid::new(10, 10, &boxes, &unit_scale(), 0.0).unwrap();
    seeded(&mut b, [4; 32]);
    let mut wa = Vec::new();
    let sweeps = a.evaluate(&sor, Some((5, 5)), &mut wa).unwrap();
    let mut wb = Vec::new();
    b.evaluate_for(&sor, Some((5, 5)), &mut wb, sweeps, f64::NEG_INFINITY).unwrap();
    assert_eq!(a.nodes(), b.nodes());
    assert_eq!(wa[..], wb[..wb.len() - 1]);
    let mut c = Grid::new(10, 10, &boxes, &unit_scale(), 0.0).unwrap();
    seeded(&mut c, [4; 32]);
    let mut settled_before = false;
    for _ in 0..sweeps - 1 {
        settled_before |= c.sweep(&sor);
    }
    assert!(!settled_before);
    assert!(c.sweep(&sor));
}
