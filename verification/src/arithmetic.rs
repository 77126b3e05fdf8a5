//! The mathematics that the kernels compute: sums of squares, primality and
//! prime counts, with the lemmas that the kernels' proofs rest on.

use vstd::arithmetic::div_mod::*;
use vstd::arithmetic::mul::*;
use vstd::prelude::*;

verus! {

// ---------------------------------------------------------------------------
// Sums of squares
// ---------------------------------------------------------------------------

/// `0*0 + 1*1 + ... + (n-1)*(n-1)`: the sum of `i * i` for every `i` below `n`.
pub open spec fn sum_of_squares_below(n: nat) -> nat
    decreases n,
{
    if n == 0 {
        0
    } else {
        sum_of_squares_below((n - 1) as nat) + ((n - 1) * (n - 1)) as nat
    }
}

/// Whether the sum of the squares below `n` fits in a `u64`.
pub open spec fn fits_u64(n: nat) -> bool {
    sum_of_squares_below(n) <= u64::MAX
}

/// The first `i` below `n` at which the running total `sum_of_squares_below(i + 1)`
/// leaves the range of a `u64` (meaningful where `!fits_u64(n)`).
pub open spec fn first_overflow_index(n: nat) -> nat
    decreases n,
{
    if n == 0 {
        0
    } else if !fits_u64((n - 1) as nat) {
        first_overflow_index((n - 1) as nat)
    } else {
        (n - 1) as nat
    }
}

/// The closed form `(n-1) n (2n-1) / 6` of the sum of squares below `n`.
pub open spec fn closed_form(n: nat) -> int {
    ((n - 1) * n * (2 * n - 1)) / 6
}

/// The sum of squares grows with its bound.
pub proof fn lemma_sum_of_squares_monotone(i: nat, j: nat)
    requires
        i <= j,
    ensures
        sum_of_squares_below(i) <= sum_of_squares_below(j),
    decreases j - i,
{
    if i < j {
        lemma_sum_of_squares_monotone(i, (j - 1) as nat);
    }
}

/// Where the running total first leaves `u64`, that is what
/// `first_overflow_index` names, for every larger bound.
pub proof fn lemma_first_overflow_index(i: nat, n: nat)
    requires
        fits_u64(i),
        !fits_u64(i + 1),
        i < n,
    ensures
        first_overflow_index(n) == i,
        !fits_u64(n),
    decreases n,
{
    lemma_sum_of_squares_monotone(i + 1, n);
    if n > i + 1 {
        lemma_sum_of_squares_monotone(i + 1, (n - 1) as nat);
        lemma_first_overflow_index(i, (n - 1) as nat);
    }
}

/// Six times the sum of squares below `n` is `(n-1) n (2n-1)`.
pub proof fn lemma_six_times_sum_of_squares(n: nat)
    ensures
        6 * sum_of_squares_below(n) == (n - 1) * n * (2 * n - 1),
    decreases n,
{
    if n > 0 {
        let m = (n - 1) as nat;
        lemma_six_times_sum_of_squares(m);
        assert(6 * sum_of_squares_below(n) == 6 * sum_of_squares_below(m) + 6 * (m * m));
        assert((m - 1) * m * (2 * m - 1) + 6 * (m * m) == m * (m + 1) * (2 * m + 1))
            by (nonlinear_arith);
        assert((n - 1) * n * (2 * n - 1) == m * (m + 1) * (2 * m + 1)) by (nonlinear_arith)
            requires
                n == m + 1,
        ;
        assert(6 * sum_of_squares_below(m) == (m - 1) * m * (2 * m - 1));
    } else {
        assert((n - 1) * n * (2 * n - 1) == 0) by (nonlinear_arith)
            requires
                n == 0,
        ;
    }
}

/// The closed form equals the sum of squares, for every bound.
pub proof fn lemma_closed_form_is_sum_of_squares(n: nat)
    ensures
        closed_form(n) == sum_of_squares_below(n),
{
    lemma_six_times_sum_of_squares(n);
    let p: int = (n - 1) * n * (2 * n - 1);
    let s: int = sum_of_squares_below(n) as int;
    assert(p == 6 * s);
    lemma_div_by_multiple(s, 6);
    assert(s * 6 == 6 * s) by (nonlinear_arith);
}

// ---------------------------------------------------------------------------
// Primes
// ---------------------------------------------------------------------------

/// `d` divides `n`.
pub open spec fn divides(d: nat, n: nat) -> bool {
    n % d == 0
}

/// `n` is prime: at least 2, with no divisor strictly between 1 and `n`.
pub open spec fn prime(n: nat) -> bool {
    n >= 2 && forall|d: nat| 2 <= d < n ==> !#[trigger] divides(d, n)
}

/// The number of primes below `limit`.
pub open spec fn primes_below(limit: nat) -> nat
    decreases limit,
{
    if limit == 0 {
        0
    } else {
        primes_below((limit - 1) as nat) + if prime((limit - 1) as nat) {
            1nat
        } else {
            0nat
        }
    }
}

/// There are no more primes below `limit` than numbers below it.
pub proof fn lemma_primes_below_bounded(limit: nat)
    ensures
        primes_below(limit) <= limit,
    decreases limit,
{
    if limit > 0 {
        lemma_primes_below_bounded((limit - 1) as nat);
    }
}

/// The count of primes grows with the bound, by at most the length of the
/// stretch added.
pub proof fn lemma_primes_below_monotone(i: nat, j: nat)
    requires
        i <= j,
    ensures
        primes_below(i) <= primes_below(j),
        primes_below(j) - primes_below(i) <= j - i,
    decreases j - i,
{
    if i < j {
        lemma_primes_below_monotone(i, (j - 1) as nat);
    }
}

/// The numbers below `limit` that are prime.
pub open spec fn primes_up_to(limit: nat) -> Set<nat> {
    Set::new(|k: nat| k < limit && prime(k))
}

/// `primes_below(limit)` is the number of primes below `limit`: the size of
/// the (finite) set of primes below it.
pub proof fn primes_below_counts_the_primes(limit: nat)
    ensures
        primes_up_to(limit).finite(),
        primes_up_to(limit).len() == primes_below(limit),
    decreases limit,
{
    if limit == 0 {
        assert(primes_up_to(0) =~= Set::<nat>::empty());
    } else {
        let m = (limit - 1) as nat;
        primes_below_counts_the_primes(m);
        if prime(m) {
            assert(primes_up_to(limit) =~= primes_up_to(m).insert(m));
        } else {
            assert(primes_up_to(limit) =~= primes_up_to(m));
        }
    }
}

/// A number with a divisor strictly between 1 and itself has one whose square
/// is at most the number.
pub proof fn lemma_small_divisor(n: nat, d: nat) -> (a: nat)
    requires
        2 <= d < n,
        divides(d, n),
    ensures
        2 <= a,
        a * a <= n,
        divides(a, n),
{
    let q = n / d;
    lemma_fundamental_div_mod(n as int, d as int);
    assert(n == d * q);
    if d * d <= n {
        d
    } else {
        assert(q < d) by (nonlinear_arith)
            requires
                n == d * q,
                d * d > n,
                d > 0,
        ;
        assert(q >= 2) by (nonlinear_arith)
            requires
                n == d * q,
                d < n,
                d > 0,
        ;
        assert(q * q <= n) by (nonlinear_arith)
            requires
                n == d * q,
                q < d,
        ;
        lemma_mod_multiples_basic(d as int, q as int);
        assert(d * q == q * d) by (nonlinear_arith);
        q
    }
}

/// An odd number has no even divisor.
pub proof fn lemma_odd_has_no_even_divisor(n: nat, e: nat)
    requires
        n % 2 == 1,
        e % 2 == 0,
        e > 0,
    ensures
        !divides(e, n),
{
    if n % e == 0 {
        lemma_fundamental_div_mod(n as int, e as int);
        let q = n / e;
        let k = e / 2;
        lemma_fundamental_div_mod(e as int, 2);
        assert(n == 2 * (k * q)) by (nonlinear_arith)
            requires
                n == e * q + 0,
                e == 2 * k + 0,
        ;
        lemma_mod_multiples_basic((k * q) as int, 2);
        assert((k * q) * 2 == 2 * (k * q)) by (nonlinear_arith);
    }
}

} // verus!
