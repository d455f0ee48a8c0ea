use forest_fire::analyze::{mean_hundredths, run_trial, run_trials, worker_slice};

#[test]
fn mean_of_three_fixed_trials_is_their_average() {
    // 10.00%, 20.00%, 30.00% average to exactly 20.00%
    let results: Vec<u64> = vec![1000, 2000, 3000];
    assert_eq!(mean_hundredths(&results), 2000);
}

#[test]
fn mean_of_a_single_trial_is_that_trial() {
    let results: Vec<u64> = vec![7342];
    assert_eq!(mean_hundredths(&results), 7342);
}

#[test]
fn mean_rounds_half_up() {
    let results: Vec<u64> = vec![1, 2];
    assert_eq!(mean_hundredths(&results), 2);
    let results2: Vec<u64> = vec![0, 1, 1, 1];
    assert_eq!(mean_hundredths(&results2), 1);
}

#[test]
fn worker_slices_tile_the_trial_range() {
    let total = 100;
    let workers = 8;
    let mut expected_start = 0;
    for idx in 0..workers {
        let (start, end) = worker_slice(total, workers, idx);
        assert_eq!(start, expected_start);
        assert!(end >= start);
        expected_start = end;
    }
    assert_eq!(expected_start, total);
}

#[test]
fn uneven_split_drops_no_trial() {
    // 10 trials over 4 workers: 3, 3, 2, 2
    assert_eq!(worker_slice(10, 4, 0), (0, 3));
    assert_eq!(worker_slice(10, 4, 1), (3, 6));
    assert_eq!(worker_slice(10, 4, 2), (6, 8));
    assert_eq!(worker_slice(10, 4, 3), (8, 10));
}

#[test]
fn hundred_trials_over_eight_workers() {
    // 100/8 leaves remainder 4: four slices of 13, then four of 12
    assert_eq!(worker_slice(100, 8, 0), (0, 13));
    assert_eq!(worker_slice(100, 8, 3), (39, 52));
    assert_eq!(worker_slice(100, 8, 4), (52, 64));
    assert_eq!(worker_slice(100, 8, 7), (88, 100));
}

#[test]
fn even_split_gives_equal_slices() {
    assert_eq!(worker_slice(100, 4, 0), (0, 25));
    assert_eq!(worker_slice(100, 4, 1), (25, 50));
    assert_eq!(worker_slice(100, 4, 2), (50, 75));
    assert_eq!(worker_slice(100, 4, 3), (75, 100));
}

#[test]
fn run_trial_returns_a_percentage() {
    let burned = run_trial(10, 10, 60);
    assert!(burned <= 10000);
}

#[test]
fn full_density_trial_burns_everything() {
    // at density 100 the fire must reach every cell
    assert_eq!(run_trial(6, 6, 100), 10000);
}

#[test]
fn zero_density_trial_burns_nothing() {
    assert_eq!(run_trial(10, 10, 0), 0);
}

#[test]
fn full_density_trials_all_burn_everything() {
    let results = run_trials(4, 7, 100, 5);
    assert_eq!(results, vec![10000, 10000, 10000, 10000, 10000]);
}

#[test]
fn run_trials_yields_one_result_per_trial() {
    let results = run_trials(5, 5, 40, 9);
    assert_eq!(results.len(), 9);
    assert!(results.iter().all(|&b| b <= 10000));
    assert!(mean_hundredths(&results) <= 10000);
}
