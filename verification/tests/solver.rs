//! Tests for the work-division solver.
//!
//! All quantities are fixed-point words: a value `v` stands for `v / SCALE`.

use divide_work::cost;
use divide_work::divide_work_smooth;
use divide_work::divide_work_smooth_budget;
use divide_work::SolveError;
use divide_work::SCALE;

/// Four identical workers split the work exactly evenly.
#[test]
fn test_even() {
    let x = vec![0u64, 0u64, 0u64, 0u64];
    let c = vec![SCALE, SCALE, SCALE, SCALE];
    let t = divide_work_smooth(&x, &c, 2).unwrap();
    assert_eq!(t, vec![SCALE / 4, SCALE / 4, SCALE / 4, SCALE / 4]);
}

/// A single worker receives the whole workload.
#[test]
fn test_single_worker() {
    let x = vec![42u64];
    let c = vec![SCALE];
    let t = divide_work_smooth(&x, &c, 2).unwrap();
    assert_eq!(t, vec![SCALE]);
}

/// Simplex invariant: coordinates in `[0, 1]`, sum within one rounding unit
/// per worker of one.
#[test]
fn test_simplex_invariant() {
    let x = vec![SCALE, SCALE / 2, 2 * SCALE];
    let c = vec![SCALE, SCALE + SCALE / 2, SCALE / 2];
    let t = divide_work_smooth(&x, &c, 4).unwrap();
    assert_eq!(t.len(), 3);
    let mut sum: u64 = 0;
    for &ti in t.iter() {
        assert!(ti <= SCALE);
        sum += ti;
    }
    assert!(sum <= SCALE);
    assert!(sum >= SCALE - t.len() as u64);
}

/// Symmetry: constant transfer times and compute rates give a uniform
/// allocation, whatever the exponent.
#[test]
fn test_symmetry_uniform() {
    let x = vec![3 * SCALE; 5];
    let c = vec![2 * SCALE; 5];
    for p in [2u32, 4, 8] {
        let t = divide_work_smooth(&x, &c, p).unwrap();
        for &ti in t.iter() {
            assert_eq!(ti, t[0]);
        }
    }
}

/// Monotonic load-shedding: raising one worker's compute time strictly
/// lowers its share.
#[test]
fn test_monotonic_load_shedding() {
    let x = vec![SCALE, SCALE];
    let c_base = vec![SCALE, SCALE];
    let c_slow = vec![2 * SCALE, SCALE];
    let t_base = divide_work_smooth(&x, &c_base, 2).unwrap();
    let t_slow = divide_work_smooth(&x, &c_slow, 2).unwrap();
    assert!(t_slow[0] < t_base[0]);
}

/// Surrogate-to-exact convergence: for a fixed instance, the worst-case
/// finish time of the solution does not increase as the exponent grows.
#[test]
fn test_surrogate_convergence() {
    let x = vec![SCALE, SCALE / 2, 2 * SCALE];
    let c = vec![SCALE, SCALE + SCALE / 2, SCALE / 2];
    let mut last: Option<u64> = None;
    for p in [2u32, 4, 8, 16] {
        let t = divide_work_smooth(&x, &c, p).unwrap();
        let m = cost(&t, &x, &c).unwrap();
        if let Some(prev) = last {
            assert!(m <= prev);
        }
        last = Some(m);
    }
}

/// Idempotent re-solve: identical inputs give bit-for-bit identical outputs.
#[test]
fn test_idempotent_resolve() {
    let x = vec![SCALE, SCALE / 2, 2 * SCALE, 7 * SCALE / 4];
    let c = vec![SCALE, SCALE + SCALE / 2, SCALE / 2, SCALE / 8];
    let first = divide_work_smooth(&x, &c, 4);
    let second = divide_work_smooth(&x, &c, 4);
    assert_eq!(first, second);
}

/// Scenario: two equal-rate workers, the one with the lower transfer time
/// receives the larger share, and the finish times end up closer together
/// than under the uniform split.
#[test]
fn test_scenario_two_workers() {
    let x = vec![SCALE, 2 * SCALE];
    let c = vec![SCALE, SCALE];
    let t = divide_work_smooth(&x, &c, 2).unwrap();
    assert!(t[0] > t[1]);
    let finish = |ti: u64, xi: u64| xi + ti; // c == 1.0, so c*t == t
    let spread = finish(t[0], x[0]).abs_diff(finish(t[1], x[1]));
    let uniform_spread = finish(SCALE / 2, x[0]).abs_diff(finish(SCALE / 2, x[1]));
    assert!(spread < uniform_spread);
}

/// The baseline solver is the budgeted solver at 1024 iterations, and even
/// a one-iteration budget already lands on the simplex.
#[test]
fn test_budget_variants() {
    let x = vec![SCALE, SCALE / 2, 2 * SCALE];
    let c = vec![SCALE, SCALE + SCALE / 2, SCALE / 2];
    let baseline = divide_work_smooth(&x, &c, 2);
    let budgeted = divide_work_smooth_budget(&x, &c, 2, 1024);
    assert_eq!(baseline, budgeted);
    let quick = divide_work_smooth_budget(&x, &c, 2, 1).unwrap();
    let sum: u64 = quick.iter().sum();
    assert!(sum <= SCALE && sum >= SCALE - quick.len() as u64);
}

/// A worker with a zero compute rate makes the curvature majorizer vanish:
/// the solver reports the numerical fault instead of dividing by it.
#[test]
fn test_zero_rate_fault() {
    let x = vec![SCALE, SCALE];
    let c = vec![0u64, 0u64];
    assert_eq!(divide_work_smooth(&x, &c, 2), Err(SolveError::NumericalFault));
}

/// A transfer time at the top of the word range overflows the majorizer:
/// the solver reports the numerical fault.
#[test]
fn test_overflow_fault() {
    let x = vec![u64::MAX, SCALE];
    let c = vec![SCALE, SCALE];
    assert_eq!(divide_work_smooth(&x, &c, 2), Err(SolveError::NumericalFault));
}

/// Exact worst-case finish time of a known allocation.
#[test]
fn test_cost_exact() {
    let t = vec![SCALE / 4; 4];
    let x = vec![0u64; 4];
    let c = vec![SCALE; 4];
    assert_eq!(cost(&t, &x, &c), Some(SCALE / 4));
    let x2 = vec![SCALE, 2 * SCALE, 0, 0];
    assert_eq!(cost(&t, &x2, &c), Some(2 * SCALE + SCALE / 4));
}

/// The cost of no workers is zero.
#[test]
fn test_cost_empty() {
    let none: Vec<u64> = Vec::new();
    assert_eq!(cost(&none, &none, &none), Some(0));
}

/// A finish time that leaves the word range makes the cost undefined.
#[test]
fn test_cost_overflow() {
    let t = vec![SCALE];
    let x = vec![u64::MAX];
    let c = vec![SCALE];
    assert_eq!(cost(&t, &x, &c), None);
}
