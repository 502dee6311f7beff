use std::cell::Cell;

use improc::ransac::{RANSACConfig, RANSAC};

/// Fits a constant to integers; the "random" samples are taken in a fixed
/// order.
struct ConstantFit {
    data: Vec<i64>,
    picks: Vec<i64>,
    next: Cell<usize>,
    tolerance: i64,
}

impl RANSAC<i64, i64> for ConstantFit {
    fn estimate_from_random_sample(&self) -> i64 {
        let i = self.next.get();
        self.next.set(i + 1);
        self.picks[i % self.picks.len()]
    }

    fn get_inliers(&self, estimated: &i64) -> Vec<i64> {
        self.data
            .iter()
            .copied()
            .filter(|v| (v - estimated).abs() <= self.tolerance)
            .collect()
    }

    fn estimate(&self, inputs: &Vec<i64>) -> i64 {
        inputs.iter().sum::<i64>() / inputs.len() as i64
    }
}

#[test]
fn ransac_keeps_the_best_sample_and_refits() {
    let fit = ConstantFit {
        data: vec![0, 1, 2, 10, 11, 50],
        picks: vec![50, 10, 1, 11],
        next: Cell::new(0),
        tolerance: 1,
    };
    // inlier counts 1, 2, 3: the third is above the threshold and stops
    let res = fit.run(&RANSACConfig::new(10, 2));
    assert_eq!(res, Some(1));
    assert_eq!(fit.next.get(), 3);
}

#[test]
fn ransac_runs_all_iterations_below_threshold() {
    let fit = ConstantFit {
        data: vec![0, 1, 2, 10, 11, 50],
        picks: vec![10, 50, 11, 1],
        next: Cell::new(0),
        tolerance: 1,
    };
    // counts 2, 1, 2, 3, 2, 1: the first sample with 3 inliers wins
    let res = fit.run(&RANSACConfig::new(6, 100));
    assert_eq!(res, Some(1));
    assert_eq!(fit.next.get(), 6);
}

#[test]
fn ransac_first_of_equal_counts_wins() {
    let fit = ConstantFit {
        data: vec![0, 1, 10, 11],
        picks: vec![11, 0],
        next: Cell::new(0),
        tolerance: 1,
    };
    let res = fit.run(&RANSACConfig::new(4, 100));
    assert_eq!(res, Some(10));
}

#[test]
fn ransac_without_inliers_gives_none() {
    let fit = ConstantFit {
        data: vec![0, 1, 2],
        picks: vec![100],
        next: Cell::new(0),
        tolerance: 1,
    };
    assert_eq!(fit.run(&RANSACConfig::new(5, 0)), None);
    assert_eq!(fit.next.get(), 5);
    assert_eq!(fit.run(&RANSACConfig::new(0, 0)), None);
}
