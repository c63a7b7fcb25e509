use numeric_laplace::grid::SectorWindow;
use numeric_laplace::plot::plot_2d_color_map;
use numeric_laplace::sectors::{sector_bounds, Lock};
use numeric_laplace::{FixedBox, Grid, Message, Scale, ScheduleError, SectorSchedule, Stencil};
use rand::{ChaChaRng, Rng, SeedableRng};
use std::collections::VecDeque;

struct Sor {
    omega: f64,
    tolerance: f64,
}

impl Stencil<f64> for Sor {
    fn step(&self, centre: f64, top: f64, left: f64, right: f64, bottom: f64) -> (f64, bool) {
        let new_value = (top + left + right + bottom) / 4.0;
        let delta = centre - new_value;
        (centre - self.omega * delta, delta.abs() <= self.tolerance)
    }

    fn relax(&self, centre: f64, top: f64, left: f64, right: f64, bottom: f64) -> (f64, bool) {
        self.step(centre, top, left, right, bottom)
    }
}

fn seeded_grid(size: usize, seed: [u8; 32]) -> Grid<f64> {
    let scale = Scale { nodes_per_unit: 1, x_offset: 0, y_offset: 0, invert_x: false, invert_y: false };
    let boxes = vec![FixedBox { x: 5, y: 6, width: 3, height: 4, potential: 100.0 }];
    let mut grid = Grid::new(size, size, &boxes, &scale, 0.0).unwrap();
    let mut random = ChaChaRng::from_seed(seed);
    let noise: Vec<f64> =
        grid.dynamic_indices().iter().map(|_| random.gen_range(0.0, 100.0)).collect();
    grid.fill_dynamic(&noise);
    grid
}

/// Runs the schedule to the end with jobs taken in the order they were handed
/// out, each relaxing a copy of its sector's nodes taken when it was handed
/// out, and checks that no job ever starts beside an outstanding one.
fn run_schedule(grid: &mut Grid<f64>, sor: &Sor, workers: usize) -> usize {
    let mut schedule =
        SectorSchedule::new(grid.dynamic_indices().len(), grid.width(), workers).unwrap();
    let count = schedule.sector_count();
    let mut outstanding = vec![false; count];
    let mut queue: VecDeque<(usize, SectorWindow<f64>)> = VecDeque::new();
    for job in schedule.initial_jobs() {
        let Message::Do((sector, start, end)) = job else { panic!("no stop message here") };
        outstanding[sector] = true;
        queue.push_back((sector, grid.window(start, end)));
    }
    assert_eq!(schedule.outstanding(), queue.len());
    let mut results = 0;
    while !schedule.is_settled() {
        let (sector, mut window) = queue.pop_front().expect("a job is always outstanding");
        let settled = window.relax(sor);
        assert!(grid.write_back(&window));
        outstanding[sector] = false;
        results += 1;
        for next in schedule.on_result(sector, settled).unwrap() {
            let Message::Do((n, start, end)) = next else { panic!("no stop message here") };
            assert!(n + 1 == sector || n == sector + 1);
            assert!(n == 0 || !outstanding[n - 1]);
            assert!(n + 1 == count || !outstanding[n + 1]);
            outstanding[n] = true;
            queue.push_back((n, grid.window(start, end)));
        }
        assert_eq!(schedule.outstanding(), queue.len());
    }
    while let Some((_, mut window)) = queue.pop_front() {
        window.relax(sor);
        assert!(grid.write_back(&window));
    }
    results
}

#[test]
fn small_grid_is_not_beneficial_for_any_worker_count() {
    for workers in [1, 2, 8, 1000] {
        assert_eq!(sector_bounds(19, 10, workers), Err(ScheduleError::NotBeneficial));
        assert!(SectorSchedule::new(19, 10, workers).is_err());
    }
    assert_eq!(sector_bounds(39, 10, 4), Err(ScheduleError::NotBeneficial));
    assert_eq!(sector_bounds(0, 1, 1), Err(ScheduleError::NotBeneficial));
}

#[test]
fn bounds_split_evenly_and_end_at_length() {
    assert_eq!(sector_bounds(100, 10, 4), Ok(vec![0, 25, 50, 75, 100]));
    assert_eq!(sector_bounds(103, 5, 2), Ok(vec![0, 25, 50, 75, 103]));
    assert_eq!(sector_bounds(103, 5, 100), Ok(vec![0, 10, 20, 30, 40, 50, 60, 70, 80, 90, 103]));
    assert_eq!(sector_bounds(60, 10, 1), Ok(vec![0, 30, 60]));
}

#[test]
fn initial_state_runs_even_sectors() {
    let schedule = SectorSchedule::new(103, 5, 2).unwrap();
    assert_eq!(schedule.sector_count(), 4);
    assert_eq!(schedule.initial_jobs(), vec![Message::Do((0, 0, 25)), Message::Do((2, 50, 75))]);
    assert!(!schedule.is_settled());
}

#[test]
fn results_release_neighbours() {
    let mut schedule = SectorSchedule::new(103, 5, 2).unwrap();
    assert_eq!(schedule.on_result(0, true), Ok(vec![]));
    assert_eq!(
        schedule.on_result(2, true),
        Ok(vec![Message::Do((3, 75, 103)), Message::Do((1, 25, 50))])
    );
    assert_eq!(schedule.on_result(3, true), Ok(vec![]));
    assert_eq!(schedule.on_result(1, true), Ok(vec![Message::Do((2, 50, 75)), Message::Do((0, 0, 25))]));
    assert!(schedule.is_settled());
}

#[test]
fn result_without_outstanding_job_is_protocol_violation() {
    let mut schedule = SectorSchedule::new(103, 5, 2).unwrap();
    assert_eq!(schedule.on_result(1, true), Err(ScheduleError::ProtocolViolation));
    assert_eq!(schedule.on_result(4, true), Err(ScheduleError::ProtocolViolation));
    assert_eq!(schedule.on_result(0, false), Ok(vec![]));
    assert_eq!(schedule.on_result(0, true), Err(ScheduleError::ProtocolViolation));
    assert!(!schedule.is_settled());
}

#[test]
fn lock_goes_up_one_level() {
    let mut lock = Lock::Unlocked;
    lock.up();
    assert_eq!(lock, Lock::Locked1);
    lock.up();
    assert_eq!(lock, Lock::Locked2);
}

#[test]
fn full_run_never_dispatches_beside_outstanding_job() {
    let mut grid = seeded_grid(20, [4; 32]);
    let results = run_schedule(&mut grid, &Sor { omega: 1.5, tolerance: 0.01 }, 3);
    assert!(results >= 6);
}

#[test]
fn sequential_and_sector_runs_reach_same_values() {
    let sor = Sor { omega: 1.5, tolerance: 1e-9 };
    let mut sequential = seeded_grid(20, [9; 32]);
    sequential.evaluate(&sor, None, &mut Vec::new()).unwrap();
    let mut concurrent = seeded_grid(20, [9; 32]);
    run_schedule(&mut concurrent, &sor, 2);
    for (a, b) in sequential.nodes().iter().zip(concurrent.nodes().iter()) {
        assert!((a - b).abs() < 1e-4);
    }
}

#[test]
fn color_map_script_names_file() {
    let script = plot_2d_color_map("out.csv");
    assert!(script.starts_with("set terminal pngcairo"));
    assert!(script.ends_with("plot \"out.csv\" matrix nonuniform with image"));
    assert!(script.contains("set datafile separator comma\n"));
}

#[test]
fn window_relax_matches_in_place_relax() {
    let sor = Sor { omega: 1.7, tolerance: 0.5 };
    let mut in_place = seeded_grid(12, [3; 32]);
    let mut through_window = seeded_grid(12, [3; 32]);
    let settled = in_place.relax_range(10, 40, &sor);
    let mut window = through_window.window(10, 40);
    assert_eq!((window.start(), window.end()), (10, 40));
    assert_eq!(window.relax(&sor), settled);
    assert!(through_window.write_back(&window));
    assert_eq!(in_place.nodes(), through_window.nodes());
}

#[test]
fn write_back_changes_only_sector_positions() {
    let sor = Sor { omega: 1.0, tolerance: 0.0 };
    let mut grid = seeded_grid(12, [5; 32]);
    let before = grid.nodes().clone();
    let mut window = grid.window(20, 30);
    window.relax(&sor);
    assert!(grid.write_back(&window));
    let sector: Vec<usize> = grid.dynamic_indices()[20..30].to_vec();
    let mut changed = 0;
    for i in 0..before.len() {
        if sector.contains(&i) {
            if grid.nodes()[i] != before[i] {
                changed += 1;
            }
        } else {
            assert_eq!(grid.nodes()[i], before[i]);
        }
    }
    assert!(changed > 0);
}

#[test]
fn window_of_other_grid_is_refused() {
    let mut small = seeded_grid(12, [5; 32]);
    let large = seeded_grid(20, [5; 32]);
    let before = small.nodes().clone();
    let window = large.window(300, 310);
    assert!(!small.write_back(&window));
    assert_eq!(small.nodes(), &before);
}

#[test]
fn distant_sectors_stay_more_than_a_row_apart() {
    let grid = seeded_grid(30, [2; 32]);
    let d = grid.dynamic_indices();
    let w = grid.width();
    let bounds = sector_bounds(d.len(), w, 8).unwrap();
    let count = bounds.len() - 1;
    assert!(count >= 4);
    for i in 0..count {
        assert!(bounds[i + 1] - bounds[i] >= 2 * w);
        for j in i + 2..count {
            assert!(d[bounds[i + 1] - 1] + w < d[bounds[j]]);
        }
    }
}
