//! The computation kernels, sequential and parallel.

use crate::arithmetic::{
    closed_form, divides, first_overflow_index, fits_u64, lemma_closed_form_is_sum_of_squares,
    lemma_first_overflow_index, lemma_odd_has_no_even_divisor, lemma_primes_below_bounded, lemma_primes_below_monotone,
    lemma_sum_of_squares_monotone,
    lemma_small_divisor, prime, primes_below_counts_the_primes, primes_up_to, primes_below, sum_of_squares_below,
};
use rayon::prelude::{IndexedParallelIterator, IntoParallelIterator, ParallelIterator};
use crate::chunks;
use crate::error::ComputeError;
use vstd::prelude::*;

verus! {

/// What [`sum_of_squares`] returns for `n`: the exact total when it fits in a
/// `u64`, and otherwise the running-total overflow at the first `i` where the
/// total leaves `u64`.
pub open spec fn sequential_sum_outcome(n: nat) -> Result<u64, ComputeError> {
    if fits_u64(n) {
        Ok(sum_of_squares_below(n) as u64)
    } else {
        Err(ComputeError::Overflow { operation: "running total", at: first_overflow_index(n) as u64 })
    }
}

/// What [`sum_of_squares_parallel`] returns for `n`: the exact total when it
/// fits in a `u64`, and otherwise a running-total overflow (reported at 0,
/// since no single index is to blame once partial sums are combined).
pub open spec fn parallel_sum_outcome(n: nat) -> Result<u64, ComputeError> {
    if fits_u64(n) {
        Ok(sum_of_squares_below(n) as u64)
    } else {
        Err(ComputeError::Overflow { operation: "running total", at: 0 })
    }
}

/// What [`sum_of_squares_closed_form`] returns for `n`: `(n-1)n(2n-1)/6` when
/// it fits in a `u64`, and otherwise a closed-form overflow at `n`.
pub open spec fn closed_form_outcome(n: nat) -> Result<u64, ComputeError> {
    if n == 0 {
        Ok(0)
    } else if closed_form(n) <= u64::MAX {
        Ok(closed_form(n) as u64)
    } else {
        Err(ComputeError::Overflow { operation: "closed form", at: n as u64 })
    }
}

pub assume_specification[ <u64>::saturating_mul ](x: u64, y: u64) -> u64
    returns
        (if x * y > u64::MAX {
            u64::MAX
        } else {
            (x * y) as u64
        }),
;

/// Whether `candidate` is prime, by trial division up to its square root.
pub fn is_prime(candidate: u64) -> (r: bool)
    ensures
        r == prime(candidate as nat),
{
    if candidate < 2 {
        return false;
    }
    if candidate < 4 {
        return true;
    }
    if candidate % 2 == 0 {
        assert(divides(2, candidate as nat));
        return false;
    }
    // Only odd divisors remain, and only up to sqrt(candidate).
    let mut divisor: u64 = 3;
    while divisor.saturating_mul(divisor) <= candidate
        invariant
            5 <= candidate,
            candidate % 2 == 1,
            3 <= divisor,
            divisor % 2 == 1,
            candidate == u64::MAX ==> divisor == 3,
            forall|d: nat| 2 <= d < divisor ==> !#[trigger] divides(d, candidate as nat),
        decreases candidate - divisor,
    {
        assert(divisor * divisor <= candidate);
        assert(divisor < candidate) by (nonlinear_arith)
            requires
                divisor * divisor <= candidate,
                3 <= divisor,
        ;
        if candidate % divisor == 0 {
            assert(divides(divisor as nat, candidate as nat));
            return false;
        }
        assert(divisor < 0x1_0000_0000) by (nonlinear_arith)
            requires
                divisor * divisor <= candidate,
                candidate <= u64::MAX,
        ;
        proof {
            lemma_odd_has_no_even_divisor(candidate as nat, (divisor + 1) as nat);
        }
        divisor += 2;
    }
    proof {
        assert(divisor * divisor > candidate);
        assert forall|d: nat| 2 <= d < candidate implies !#[trigger] divides(d, candidate as nat) by {
            if divides(d, candidate as nat) {
                let a = lemma_small_divisor(candidate as nat, d);
                assert(a < divisor) by (nonlinear_arith)
                    requires
                        a * a <= candidate,
                        divisor * divisor > candidate,
                ;
            }
        }
    }
    true
}

/// Sums `i * i` for every `i` below `n`.
///
/// Both steps are checked: the result is exact, or the running-total overflow
/// at the first `i` where the total leaves `u64`.
pub fn sum_of_squares(n: u32) -> (r: Result<u64, ComputeError>)
    ensures
        r == sequential_sum_outcome(n as nat),
{
    let mut total: u64 = 0;
    let end: u64 = n as u64;
    for i in 0..end
        invariant
            end == n,
            fits_u64(i as nat),
            total == sum_of_squares_below(i as nat),
    {
        assert(i * i <= u64::MAX) by (nonlinear_arith)
            requires
                i < 0x1_0000_0000,
        ;
        let square: u64 = match i.checked_mul(i) {
            Some(v) => v,
            None => {
                return Err(ComputeError::Overflow { operation: "i * i", at: i });
            },
        };
        assert(sum_of_squares_below((i + 1) as nat) == total + square);
        total = match total.checked_add(square) {
            Some(v) => v,
            None => {
                proof {
                    lemma_first_overflow_index(i as nat, n as nat);
                }
                return Err(ComputeError::Overflow { operation: "running total", at: i });
            },
        };
    }
    Ok(total)
}

/// The closed form of [`sum_of_squares`]: `sum(i^2) for i in 0..n` is
/// `(n-1)n(2n-1)/6`.
pub fn sum_of_squares_closed_form(n: u32) -> (r: Result<u64, ComputeError>)
    ensures
        r == closed_form_outcome(n as nat),
{
    if n == 0 {
        return Ok(0);
    }
    let n: u128 = n as u128;
    assert((n - 1) * n <= 0x1_0000_0000_0000_0000) by (nonlinear_arith)
        requires
            1 <= n < 0x1_0000_0000,
    ;
    assert((n - 1) * n * (2 * n - 1) <= 0x1_0000_0000_0000_0000 * 0x2_0000_0000) by (nonlinear_arith)
        requires
            1 <= n < 0x1_0000_0000,
            (n - 1) * n <= 0x1_0000_0000_0000_0000,
    ;
    let total: u128 = ((n - 1) * n * (2 * n - 1)) / 6;
    match u64::try_from(total) {
        Ok(v) => Ok(v),
        Err(_) => Err(ComputeError::Overflow { operation: "closed form", at: n as u64 }),
    }
}

/// Counts the primes below `limit`, one at a time.
pub fn count_primes(limit: u64) -> (r: u64)
    ensures
        r == primes_below(limit as nat),
{
    assert(primes_below(2) == 0) by {
        reveal_with_fuel(primes_below, 3);
    }
    if limit < 2 {
        assert(primes_below(limit as nat) == 0) by {
            reveal_with_fuel(primes_below, 3);
        }
        return 0;
    }
    let mut count: u64 = 0;
    let mut k: u64 = 2;
    while k < limit
        invariant
            2 <= k <= limit,
            count == primes_below(k as nat),
        decreases limit - k,
    {
        proof {
            lemma_primes_below_bounded(k as nat);
        }
        if is_prime(k) {
            count = count + 1;
        }
        k = k + 1;
    }
    count
}

/// Rayon's `map` of `f` over the indices `0..count`, collected in order with
/// `collect_into_vec`: element `i` of the result is what `f(i)` returned.
#[verifier::external_body]
fn par_map_indices<R: Send, F: Fn(usize) -> R + Sync + Send>(count: usize, f: F) -> (r: Vec<R>)
    requires
        forall|i: usize| i < count ==> call_requires(f, (i,)),
    ensures
        r.len() == count,
        forall|i: int| 0 <= i < count ==> call_ensures(f, (i as usize,), #[trigger] r[i]),
{
    let mut results = Vec::new();
    (0..count).into_par_iter().map(f).collect_into_vec(&mut results);
    results
}

/// Counts the primes in `lo..hi`, one at a time.
fn count_primes_between(lo: u64, hi: u64) -> (r: u64)
    requires
        lo <= hi,
    ensures
        r == primes_below(hi as nat) - primes_below(lo as nat),
{
    let mut count: u64 = 0;
    let mut k: u64 = lo;
    while k < hi
        invariant
            lo <= k <= hi,
            count == primes_below(k as nat) - primes_below(lo as nat),
        decreases hi - k,
    {
        proof {
            lemma_primes_below_monotone(lo as nat, k as nat);
        }
        if is_prime(k) {
            count = count + 1;
        }
        k = k + 1;
    }
    count
}

/// The number of primes in chunk `c` of `0..limit`.
pub open spec fn chunk_prime_count(limit: nat, c: nat) -> int {
    primes_below(chunks::covered(limit, c + 1)) - primes_below(chunks::covered(limit, c))
}

/// The number of primes in chunk `c` of `0..limit`, for machine integers.
pub open spec fn primes_in_chunk(limit: u64, c: usize) -> int {
    chunk_prime_count(limit as nat, c as nat)
}

/// Counts the primes in chunk `c` of `0..limit`.
fn count_primes_in_chunk(limit: u64, c: usize) -> (r: u64)
    requires
        c < chunks::chunk_count(limit as nat),
    ensures
        r == chunk_prime_count(limit as nat, c as nat),
{
    let (lo, hi) = chunks::chunk_bounds(limit, c);
    count_primes_between(lo, hi)
}

/// The primes below `limit`, counted chunk by chunk across every available
/// core and added up in chunk order.
fn par_count_primes_below(limit: u64) -> (count: u64)
    ensures
        count == primes_below(limit as nat),
{
    proof {
        chunks::lemma_chunks_cover(limit as nat);
    }
    let chunks: usize = chunks::chunk_count_of(limit);
    let counts: Vec<u64> = par_map_indices(
        chunks,
        (|c: usize| -> (r: u64)
            requires
                chunks > c,
            ensures
                r == primes_in_chunk(limit, c),
            {
                count_primes_in_chunk(limit, c)
            }),
    );
    let mut total: u64 = 0;
    let mut j: usize = 0;
    while j < chunks
        invariant
            chunks == chunks::chunk_count(limit as nat),
            counts.len() == chunks,
            j <= chunks,
            total == primes_below(chunks::covered(limit as nat, j as nat)),
            forall|i: int| 0 <= i < chunks ==> #[trigger] counts[i] == chunk_prime_count(limit as nat, i as nat),
            forall|k: nat| #[trigger] chunks::covered(limit as nat, k) <= limit,
            forall|k: nat| chunks::covered(limit as nat, k) <= #[trigger] chunks::covered(limit as nat, k + 1),
        decreases chunks - j,
    {
        proof {
            let a = chunks::covered(limit as nat, j as nat);
            let b = chunks::covered(limit as nat, j as nat + 1);
            lemma_primes_below_monotone(a, b);
            lemma_primes_below_monotone(b, limit as nat);
            lemma_primes_below_bounded(limit as nat);
            assert(counts[j as int] == chunk_prime_count(limit as nat, j as nat));
        }
        total = total + counts[j];
        j = j + 1;
    }
    total
}

/// Counts the primes below `limit` across every available core.
pub fn count_primes_parallel(limit: u64) -> (r: u64)
    ensures
        r == primes_below(limit as nat),
{
    par_count_primes_below(limit)
}

/// One item of the parallel sum: the square of `i`, or the overflow of `i * i`.
pub fn square_term(i: u64) -> (r: Result<Option<u64>, ComputeError>)
    ensures
        i * i <= u64::MAX ==> r == Ok::<Option<u64>, ComputeError>(Some((i * i) as u64)),
        i * i > u64::MAX ==> r == Err::<Option<u64>, ComputeError>(ComputeError::Overflow { operation: "i * i", at: i }),
{
    match i.checked_mul(i) {
        Some(v) => Ok(Some(v)),
        None => Err(ComputeError::Overflow { operation: "i * i", at: i }),
    }
}

/// The partial sum of no items.
pub fn no_partial_sum() -> (r: Option<u64>)
    ensures
        r is None,
{
    None
}

/// What combining two partial sums gives: their checked sum, where an absent
/// partial sum stands for no items.
pub open spec fn combined(a: Option<u64>, b: Option<u64>) -> Result<Option<u64>, ComputeError> {
    match (a, b) {
        (Some(x), Some(y)) => if x + y <= u64::MAX {
            Ok(Some((x + y) as u64))
        } else {
            Err(ComputeError::Overflow { operation: "running total", at: 0 })
        },
        (Some(v), None) => Ok(Some(v)),
        (None, Some(v)) => Ok(Some(v)),
        (None, None) => Ok(None),
    }
}

/// Combines two partial sums with checked addition, so a partial sum cannot wrap.
pub fn combine_partial_sums(a: Option<u64>, b: Option<u64>) -> (r: Result<Option<u64>, ComputeError>)
    ensures
        r == combined(a, b),
{
    match (a, b) {
        (Some(x), Some(y)) => match x.checked_add(y) {
            Some(v) => Ok(Some(v)),
            None => Err(ComputeError::Overflow { operation: "running total", at: 0 }),
        },
        (Some(v), None) => Ok(Some(v)),
        (None, Some(v)) => Ok(Some(v)),
        (None, None) => Ok(None),
    }
}

/// What the checked sum of the squares in `lo..hi` gives: `None` for no items,
/// else their exact sum, or the running-total overflow where it does not fit.
pub open spec fn range_sum_outcome(lo: nat, hi: nat) -> Result<Option<u64>, ComputeError> {
    if sum_of_squares_below(hi) - sum_of_squares_below(lo) > u64::MAX {
        Err(ComputeError::Overflow { operation: "running total", at: 0 })
    } else if lo == hi {
        Ok(None)
    } else {
        Ok(Some((sum_of_squares_below(hi) - sum_of_squares_below(lo)) as u64))
    }
}

/// Folds `square_term(i)` for `i` in `lo..hi` with `combine_partial_sums`,
/// from `no_partial_sum`, stopping at the first error.
fn sum_squares_between(lo: u64, hi: u64) -> (r: Result<Option<u64>, ComputeError>)
    requires
        lo <= hi < 0x1_0000_0000,
    ensures
        r == range_sum_outcome(lo as nat, hi as nat),
{
    let mut acc: Option<u64> = no_partial_sum();
    let mut i: u64 = lo;
    while i < hi
        invariant
            lo <= i <= hi < 0x1_0000_0000,
            sum_of_squares_below(i as nat) - sum_of_squares_below(lo as nat) <= u64::MAX,
            acc == (if i == lo {
                None
            } else {
                Some((sum_of_squares_below(i as nat) - sum_of_squares_below(lo as nat)) as u64)
            }),
        decreases hi - i,
    {
        proof {
            lemma_sum_of_squares_monotone(lo as nat, i as nat);
        }
        assert(i * i <= u64::MAX) by (nonlinear_arith)
            requires
                i < 0x1_0000_0000,
        ;
        let term = match square_term(i) {
            Ok(t) => t,
            Err(e) => {
                return Err(e);
            },
        };
        assert(sum_of_squares_below((i + 1) as nat) == sum_of_squares_below(i as nat) + i * i);
        acc = match combine_partial_sums(acc, term) {
            Ok(a) => a,
            Err(e) => {
                proof {
                    lemma_sum_of_squares_monotone((i + 1) as nat, hi as nat);
                }
                return Err(e);
            },
        };
        i = i + 1;
    }
    Ok(acc)
}

/// What the checked sum of the squares in chunk `c` of `0..total` gives.
pub open spec fn chunk_sum_outcome(total: nat, c: nat) -> Result<Option<u64>, ComputeError> {
    range_sum_outcome(chunks::covered(total, c), chunks::covered(total, c + 1))
}

/// What the checked sum of the squares in chunk `c` of `0..total` gives, for
/// machine integers.
pub open spec fn sum_outcome_in_chunk(total: u64, c: usize) -> Result<Option<u64>, ComputeError> {
    chunk_sum_outcome(total as nat, c as nat)
}

/// Sums the squares in chunk `c` of `0..total` with checked arithmetic.
fn sum_squares_in_chunk(total: u64, c: usize) -> (r: Result<Option<u64>, ComputeError>)
    requires
        c < chunks::chunk_count(total as nat),
        total < 0x1_0000_0000,
    ensures
        r == chunk_sum_outcome(total as nat, c as nat),
{
    let (lo, hi) = chunks::chunk_bounds(total, c);
    sum_squares_between(lo, hi)
}

/// The squares below `n`, summed chunk by chunk across every available core
/// with checked arithmetic, and the chunk sums combined in order with
/// `combine_partial_sums`: `None` for no items, else the exact sum, or the
/// running-total overflow exactly when the sum does not fit in a `u64`.
fn par_reduce_squares(n: u32) -> (r: Result<Option<u64>, ComputeError>)
    ensures
        r matches Ok(p) ==> fits_u64(n as nat) && p == (if n == 0 {
            None
        } else {
            Some(sum_of_squares_below(n as nat) as u64)
        }),
        r matches Err(e) ==> !fits_u64(n as nat) && e == (ComputeError::Overflow {
            operation: "running total",
            at: 0,
        }),
        r is Ok <==> fits_u64(n as nat),
{
    let total: u64 = n as u64;
    proof {
        chunks::lemma_chunks_cover(total as nat);
    }
    let chunks: usize = chunks::chunk_count_of(total);
    let parts: Vec<Result<Option<u64>, ComputeError>> = par_map_indices(
        chunks,
        (|c: usize| -> (r: Result<Option<u64>, ComputeError>)
            requires
                chunks > c,
            ensures
                r == sum_outcome_in_chunk(total, c),
            {
                sum_squares_in_chunk(total, c)
            }),
    );
    let mut acc: Option<u64> = no_partial_sum();
    let mut j: usize = 0;
    while j < chunks
        invariant
            total == n,
            chunks == chunks::chunk_count(total as nat),
            parts.len() == chunks,
            j <= chunks,
            fits_u64(chunks::covered(total as nat, j as nat)),
            acc == (if chunks::covered(total as nat, j as nat) == 0 {
                None
            } else {
                Some(sum_of_squares_below(chunks::covered(total as nat, j as nat)) as u64)
            }),
            forall|i: int| 0 <= i < chunks ==> #[trigger] parts[i] == chunk_sum_outcome(total as nat, i as nat),
            chunks::covered(total as nat, 0) == 0,
            forall|k: nat| #[trigger] chunks::covered(total as nat, k) <= total,
            forall|k: nat| chunks::covered(total as nat, k) <= #[trigger] chunks::covered(total as nat, k + 1),
        decreases chunks - j,
    {
        let ghost a = chunks::covered(total as nat, j as nat);
        let ghost b = chunks::covered(total as nat, j as nat + 1);
        proof {
            lemma_sum_of_squares_monotone(a, b);
            lemma_sum_of_squares_monotone(b, total as nat);
            assert(parts[j as int] == chunk_sum_outcome(total as nat, j as nat));
            assert(sum_of_squares_below(a) == 0 <== a == 0);
        }
        let part: Option<u64> = match parts[j] {
            Ok(p) => p,
            Err(e) => {
                return Err(e);
            },
        };
        acc = match combine_partial_sums(acc, part) {
            Ok(x) => x,
            Err(e) => {
                return Err(e);
            },
        };
        j = j + 1;
    }
    Ok(acc)
}

/// Sums `i * i` below `n` across every available core.
///
/// The reduction uses the same checked arithmetic as [`sum_of_squares`], so the
/// two agree on the answer and on whether it overflows.
pub fn sum_of_squares_parallel(n: u32) -> (r: Result<u64, ComputeError>)
    ensures
        r == parallel_sum_outcome(n as nat),
{
    match par_reduce_squares(n) {
        Ok(total) => match total {
            Some(t) => Ok(t),
            None => Ok(0),
        },
        Err(e) => Err(e),
    }
}

/// Rayon's `current_num_threads`: the number of threads of the current pool,
/// which its builder never sets below one.
#[verifier::external_body]
fn rayon_thread_count() -> (count: usize)
    ensures
        count >= 1,
{
    rayon::current_num_threads()
}

/// How many threads Rayon will use.
pub fn thread_count() -> (count: usize)
    ensures
        count >= 1,
{
    rayon_thread_count()
}

/// The sequential and parallel kernels agree: each succeeds exactly when the
/// other does, with the same total.
pub proof fn sequential_and_parallel_sums_agree(n: nat)
    ensures
        sequential_sum_outcome(n) is Ok <==> parallel_sum_outcome(n) is Ok,
        sequential_sum_outcome(n) is Ok ==> sequential_sum_outcome(n) == parallel_sum_outcome(n),
{
}

/// The loop and the closed form agree: each succeeds exactly when the other
/// does, with the same total.
pub proof fn closed_form_agrees_with_the_loop(n: nat)
    ensures
        closed_form_outcome(n) is Ok <==> sequential_sum_outcome(n) is Ok,
        closed_form_outcome(n) is Ok ==> closed_form_outcome(n) == sequential_sum_outcome(n),
{
    lemma_closed_form_is_sum_of_squares(n);
}

/// The parallel sum is the closed form `(n-1)n(2n-1)/6` of the sum of the
/// squares below `n`: it succeeds exactly when that number fits in a `u64`,
/// and then returns it.
pub proof fn parallel_sum_matches_closed_form(n: nat)
    ensures
        parallel_sum_outcome(n) is Ok <==> closed_form(n) <= u64::MAX,
        closed_form(n) <= u64::MAX ==> parallel_sum_outcome(n) == Ok::<u64, ComputeError>(
            closed_form(n) as u64,
        ),
{
    lemma_closed_form_is_sum_of_squares(n);
}

/// Both prime counts give the size of the set of primes below the limit: a
/// number below the limit is in that set exactly when it is prime.
pub proof fn prime_counts_count_the_primes(limit: nat)
    ensures
        primes_up_to(limit).finite(),
        primes_up_to(limit).len() == primes_below(limit),
        forall|k: nat| #[trigger] primes_up_to(limit).contains(k) <==> k < limit && prime(k),
{
    primes_below_counts_the_primes(limit);
}

/// No square of a number above 1 is prime.
pub proof fn squares_are_not_prime(p: nat)
    requires
        p >= 2,
    ensures
        !prime(p * p),
{
    assert(p < p * p) by (nonlinear_arith)
        requires
            p >= 2,
    ;
    vstd::arithmetic::div_mod::lemma_mod_multiples_basic(p as int, p as int);
    assert(divides(p, p * p));
}

} // verus!
