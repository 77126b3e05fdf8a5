//! Checks of the kernels on concrete values.

use rusty_cli::compute::{
    combine_partial_sums, count_primes, count_primes_parallel, is_prime, no_partial_sum,
    square_term, sum_of_squares, sum_of_squares_closed_form, sum_of_squares_parallel,
    thread_count,
};
use rusty_cli::ComputeError;

#[test]
fn sums_small_inputs_by_hand() {
    assert_eq!(sum_of_squares(0).unwrap(), 0);
    assert_eq!(sum_of_squares(1).unwrap(), 0);
    assert_eq!(sum_of_squares(2).unwrap(), 1);
    assert_eq!(sum_of_squares(4).unwrap(), 14);
    assert_eq!(sum_of_squares(11).unwrap(), 385);
}

#[test]
fn matches_the_closed_form() {
    for n in [0, 1, 2, 10, 100, 1_000, 10_000, 100_000] {
        assert_eq!(
            sum_of_squares(n).unwrap(),
            sum_of_squares_closed_form(n).unwrap(),
            "disagreement at n = {n}"
        );
    }
}

#[test]
fn totals_past_u32_are_exact() {
    assert_eq!(sum_of_squares(3_000).unwrap(), 8_995_500_500);
    assert!(sum_of_squares(3_000).unwrap() > u32::MAX as u64);
}

#[test]
fn the_default_iteration_count_gives_the_known_answer() {
    // The documented default must not move.
    assert_eq!(sum_of_squares(1_000).unwrap(), 332_833_500);
}

#[test]
fn u64_overflow_is_reported_not_wrapped() {
    // n^3/3 passes u64 somewhere above 3.1 million.
    let result = sum_of_squares(u32::MAX);
    assert!(
        matches!(result, Err(ComputeError::Overflow { .. })),
        "expected an overflow error, got {result:?}"
    );
}

#[test]
fn identifies_primes() {
    let primes: Vec<u64> = (0..30).filter(|&n| is_prime(n)).collect();
    assert_eq!(primes, [2, 3, 5, 7, 11, 13, 17, 19, 23, 29]);
}

#[test]
fn rejects_non_primes() {
    for n in [0, 1, 4, 9, 25, 49, 91, 1_000_000] {
        assert!(!is_prime(n), "{n} should not be prime");
    }
}

#[test]
fn handles_large_primes() {
    assert!(is_prime(1_000_003));
    assert!(!is_prime(1_000_005));
}

#[test]
fn counts_primes_below_a_limit() {
    assert_eq!(count_primes(2), 0);
    assert_eq!(count_primes(10), 4);
    assert_eq!(count_primes(100), 25);
    assert_eq!(count_primes(10_000), 1_229);
}

#[test]
fn parallel_and_sequential_agree() {
    for n in [0, 1, 100, 5_000, 50_000] {
        assert_eq!(
            sum_of_squares(n).unwrap(),
            sum_of_squares_parallel(n).unwrap(),
            "disagreement at n = {n}"
        );
    }
    for limit in [10, 1_000, 20_000] {
        assert_eq!(count_primes(limit), count_primes_parallel(limit));
    }
}

#[test]
fn parallel_overflow_is_also_reported() {
    assert!(matches!(
        sum_of_squares_parallel(u32::MAX),
        Err(ComputeError::Overflow { .. })
    ));
}

#[test]
fn reports_at_least_one_thread() {
    assert!(thread_count() >= 1);
}

#[test]
fn the_sequential_overflow_names_the_first_index_that_overflows() {
    // Find, with 128-bit arithmetic, the first i whose running total leaves u64.
    let mut total: u128 = 0;
    let mut i: u64 = 0;
    loop {
        total += (i as u128) * (i as u128);
        if total > u64::MAX as u128 {
            break;
        }
        i += 1;
    }
    assert_eq!(
        sum_of_squares(u32::MAX),
        Err(ComputeError::Overflow { operation: "running total", at: i })
    );
    let n = (i + 1) as u32;
    assert_eq!(
        sum_of_squares(n),
        Err(ComputeError::Overflow { operation: "running total", at: i })
    );
    // One fewer term still fits, and is exact.
    let below = sum_of_squares(i as u32).unwrap();
    assert_eq!(below as u128, total - (i as u128) * (i as u128));
}

#[test]
fn the_parallel_overflow_is_a_running_total_at_zero() {
    assert_eq!(
        sum_of_squares_parallel(u32::MAX),
        Err(ComputeError::Overflow { operation: "running total", at: 0 })
    );
    assert_eq!(sum_of_squares_parallel(3_000).unwrap(), 8_995_500_500);
    assert_eq!(sum_of_squares_parallel(0).unwrap(), 0);
    assert_eq!(sum_of_squares_parallel(1).unwrap(), 0);
    assert_eq!(sum_of_squares_parallel(4).unwrap(), 14);
}

#[test]
fn the_closed_form_gives_exact_values_and_reports_its_own_overflow() {
    assert_eq!(sum_of_squares_closed_form(0).unwrap(), 0);
    assert_eq!(sum_of_squares_closed_form(1).unwrap(), 0);
    assert_eq!(sum_of_squares_closed_form(4).unwrap(), 14);
    assert_eq!(sum_of_squares_closed_form(3_000).unwrap(), 8_995_500_500);
    assert_eq!(
        sum_of_squares_closed_form(u32::MAX),
        Err(ComputeError::Overflow { operation: "closed form", at: u32::MAX as u64 })
    );
}

#[test]
fn the_closed_form_and_the_loop_fail_together() {
    // Just below and at the first bound whose total leaves u64.
    let mut total: u128 = 0;
    let mut i: u64 = 0;
    while total + (i as u128) * (i as u128) <= u64::MAX as u128 {
        total += (i as u128) * (i as u128);
        i += 1;
    }
    let fits = i as u32;
    assert_eq!(sum_of_squares(fits).unwrap(), sum_of_squares_closed_form(fits).unwrap());
    assert_eq!(sum_of_squares(fits).unwrap(), sum_of_squares_parallel(fits).unwrap());
    assert!(sum_of_squares(fits + 1).is_err());
    assert!(sum_of_squares_closed_form(fits + 1).is_err());
    assert!(sum_of_squares_parallel(fits + 1).is_err());
}

#[test]
fn squares_of_numbers_above_one_are_not_prime() {
    for p in 2u64..200 {
        assert!(!is_prime(p * p), "{p} squared should not be prime");
    }
    assert!(is_prime(4_294_967_291)); // the largest prime below 2^32
    assert!(!is_prime(u64::MAX));
}

#[test]
fn the_parallel_prime_count_is_exact() {
    assert_eq!(count_primes_parallel(0), 0);
    assert_eq!(count_primes_parallel(3), 1);
    assert_eq!(count_primes_parallel(100), 25);
    assert_eq!(count_primes_parallel(1_000), 168);
}

#[test]
fn the_parallel_pieces_combine_as_checked_addition() {
    assert_eq!(no_partial_sum(), None);
    assert_eq!(square_term(7), Ok(Some(49)));
    assert_eq!(square_term(u32::MAX as u64), Ok(Some((u32::MAX as u64) * (u32::MAX as u64))));
    assert_eq!(
        square_term(1 << 32),
        Err(ComputeError::Overflow { operation: "i * i", at: 1 << 32 })
    );
    assert_eq!(combine_partial_sums(Some(2), Some(3)), Ok(Some(5)));
    assert_eq!(combine_partial_sums(Some(2), None), Ok(Some(2)));
    assert_eq!(combine_partial_sums(None, Some(3)), Ok(Some(3)));
    assert_eq!(combine_partial_sums(None, None), Ok(None));
    assert_eq!(
        combine_partial_sums(Some(u64::MAX), Some(1)),
        Err(ComputeError::Overflow { operation: "running total", at: 0 })
    );
}
