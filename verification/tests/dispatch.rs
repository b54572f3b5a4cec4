use brot::dispatch::worker_slice;
use brot::grid::PixelGrid;
use brot::iterate::EscapeProbe;
use brot::iterate::EscapeStep;
use brot::iterate::Outcome;

fn escape_time(re: f64, im: f64, max_iter: u32, threshold: f64) -> Outcome {
    let (mut x, mut y) = (0.0f64, 0.0f64);
    let mut step = EscapeProbe::begin(max_iter);
    loop {
        match step {
            EscapeStep::Settled(outcome) => return outcome,
            EscapeStep::Iterate(probe) => {
                let (nx, ny) = (x * x - y * y + re, 2.0 * x * y + im);
                x = nx;
                y = ny;
                step = probe.observe(x * x + y * y > threshold);
            }
        }
    }
}

fn run(workers: usize, width: u32, height: u32, touched: &mut Vec<u32>) -> Vec<u32> {
    let mut grid = PixelGrid::new(width, height).unwrap();
    let total = grid.len();
    let left = -2.2;
    let top = -1.4;
    let step_x = 2.8 / (width as f64);
    let step_y = 2.8 / (height as f64);
    // The workers run one after the other, the last one first.
    for worker in (0..workers).rev() {
        for loc in worker_slice(worker, workers, total) {
            let cell = grid.cell_of(loc).unwrap();
            let outcome = escape_time(
                left + step_x * (cell.col as f64),
                top + step_y * (cell.row as f64),
                200,
                16.0,
            );
            touched[loc] += 1;
            grid.record(loc, outcome).unwrap();
        }
    }
    grid.cells().clone()
}

#[test]
fn slices_of_three_workers_over_ten_samples() {
    assert_eq!(worker_slice(0, 3, 10), vec![0, 3, 6, 9]);
    assert_eq!(worker_slice(1, 3, 10), vec![1, 4, 7]);
    assert_eq!(worker_slice(2, 3, 10), vec![2, 5, 8]);
}

#[test]
fn single_worker_takes_everything_in_order() {
    assert_eq!(worker_slice(0, 1, 5), vec![0, 1, 2, 3, 4]);
    assert_eq!(worker_slice(0, 1, 0), Vec::<usize>::new());
}

#[test]
fn worker_beyond_the_samples_takes_nothing() {
    assert_eq!(worker_slice(4, 10, 4), Vec::<usize>::new());
    assert_eq!(worker_slice(7, 10, 4), Vec::<usize>::new());
    assert_eq!(worker_slice(3, 10, 4), vec![3]);
}

#[test]
fn stride_near_the_largest_index_does_not_wrap() {
    assert_eq!(worker_slice(usize::MAX - 1, usize::MAX, usize::MAX), vec![usize::MAX - 1]);
    assert_eq!(worker_slice(usize::MAX - 5, 3, usize::MAX), vec![usize::MAX - 5, usize::MAX - 2]);
}

#[test]
fn every_pixel_is_touched_exactly_once_for_each_worker_count() {
    let mut touched_one = vec![0u32; 100];
    let sequential = run(1, 10, 10, &mut touched_one);
    assert_eq!(touched_one, vec![1u32; 100]);
    assert!(sequential.iter().any(|&v| v > 0));
    assert!(sequential.iter().any(|&v| v == 0));
    for workers in [1usize, 2, 5, 10] {
        let mut touched = vec![0u32; 100];
        let grid = run(workers, 10, 10, &mut touched);
        assert_eq!(touched, vec![1u32; 100]);
        assert_eq!(grid, sequential);
    }
}

#[test]
fn slices_partition_the_sample_space() {
    for workers in [1usize, 2, 3, 5, 7, 10, 13] {
        for total in [0usize, 1, 9, 10, 11, 100] {
            let mut seen = vec![0u32; total];
            for worker in 0..workers {
                let slice = worker_slice(worker, workers, total);
                for (k, &i) in slice.iter().enumerate() {
                    assert_eq!(i, worker + k * workers);
                    assert_eq!(i % workers, worker);
                    seen[i] += 1;
                }
            }
            assert_eq!(seen, vec![1u32; total]);
        }
    }
}

#[test]
fn four_by_four_end_to_end() {
    let mut grid = PixelGrid::new(4, 4).unwrap();
    for loc in worker_slice(0, 1, grid.len()) {
        let cell = grid.cell_of(loc).unwrap();
        let re = -2.0 + 1.0 * (cell.col as f64);
        let im = -2.0 + 1.0 * (cell.row as f64);
        grid.record(loc, escape_time(re, im, 50, 4.0)).unwrap();
    }
    // Pixel (0, 0) is c = -2 - 2i: beyond the threshold at the first iteration.
    assert_eq!(grid.get(0), Some(1));
    // Row 2 is the real axis; columns 1 and 2 are c = -1 and c = 0, on either side of -0.5.
    assert_eq!(grid.get(2 * 4 + 1), Some(0));
    assert_eq!(grid.get(2 * 4 + 2), Some(0));
    // c = -2 stays on the threshold for ever: z1 = -2, z2 = 2, z3 = 2, ...
    assert_eq!(grid.get(2 * 4), Some(0));
    // c = -2i is on the threshold at first and beyond it at the second iteration.
    assert_eq!(grid.get(2), Some(2));
    // c = 1 on the real axis diverges at the third iteration.
    assert_eq!(grid.get(2 * 4 + 3), Some(3));
    assert_eq!(
        grid.cells().clone(),
        vec![1, 1, 2, 1, 1, 3, 0, 2, 0, 0, 0, 3, 1, 3, 0, 2]
    );
}
