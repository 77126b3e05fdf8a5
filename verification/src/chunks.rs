//! Splitting `0..total` into contiguous chunks for the parallel kernels.
//!
//! Chunk `c` covers `covered(total, c)..covered(total, c + 1)`: the chunks are
//! consecutive, start at 0, end at `total`, and there are at most 4096 of them.

use vstd::arithmetic::div_mod::lemma_fundamental_div_mod;
use vstd::prelude::*;

verus! {

/// The length of every chunk but the last.
pub open spec fn chunk_size(total: nat) -> nat {
    total / 4096 + 1
}

/// How many chunks `0..total` is split into.
pub open spec fn chunk_count(total: nat) -> nat {
    total / chunk_size(total) + 1
}

/// Where chunk `k` starts, and so where chunk `k - 1` ends: the first `k`
/// chunks cover `0..covered(total, k)`.
pub open spec fn covered(total: nat, k: nat) -> nat {
    if k * chunk_size(total) <= total {
        k * chunk_size(total)
    } else {
        total
    }
}

/// The chunks start at 0, never go backwards, stay within `total`, and
/// together cover all of `0..total`; there are at most 4096 of them.
pub proof fn lemma_chunks_cover(total: nat)
    ensures
        1 <= chunk_count(total) <= 4096,
        covered(total, 0) == 0,
        covered(total, chunk_count(total)) == total,
        forall|k: nat| #[trigger] covered(total, k) <= total,
        forall|k: nat| covered(total, k) <= #[trigger] covered(total, k + 1),
        forall|k: nat| k < chunk_count(total) ==> #[trigger] (k * chunk_size(total)) <= total,
{
    let s = chunk_size(total);
    let q = total / s;
    lemma_fundamental_div_mod(total as int, s as int);
    assert(total == s * q + total % s);
    assert(0 <= total % s < s);
    // The last chunk reaches past the end.
    assert((q + 1) * s == s * q + s) by (nonlinear_arith);
    assert((q + 1) * s > total);
    // At most 4096 chunks: s * 4096 > total.
    lemma_fundamental_div_mod(total as int, 4096);
    assert(s * 4096 > total) by (nonlinear_arith)
        requires
            s == total / 4096 + 1,
            total == 4096 * (total / 4096) + total % 4096,
            total % 4096 < 4096,
    ;
    assert(q < 4096) by (nonlinear_arith)
        requires
            s * q <= total,
            s * 4096 > total,
            s > 0,
    ;
    assert forall|k: nat| covered(total, k) <= #[trigger] covered(total, k + 1) by {
        assert(k * s <= (k + 1) * s) by (nonlinear_arith);
    }
    assert forall|k: nat| k < chunk_count(total) implies #[trigger] (k * chunk_size(total)) <= total by {
        assert(k * s <= q * s) by (nonlinear_arith)
            requires
                k <= q,
        ;
        assert(q * s == s * q) by (nonlinear_arith);
    }
    assert(0 * s == 0);
}

/// The chunk length for `0..total`.
pub fn chunk_size_of(total: u64) -> (s: u64)
    ensures
        s == chunk_size(total as nat),
{
    total / 4096 + 1
}

/// The number of chunks for `0..total`.
pub fn chunk_count_of(total: u64) -> (k: usize)
    ensures
        k == chunk_count(total as nat),
        1 <= k <= 4096,
{
    proof {
        lemma_chunks_cover(total as nat);
    }
    let s = chunk_size_of(total);
    let k: u64 = total / s + 1;
    k as usize
}

/// The bounds `lo..hi` of chunk `c` of `0..total`.
pub fn chunk_bounds(total: u64, c: usize) -> (r: (u64, u64))
    requires
        c < chunk_count(total as nat),
    ensures
        r.0 == covered(total as nat, c as nat),
        r.1 == covered(total as nat, c as nat + 1),
        r.0 <= r.1 <= total,
{
    proof {
        lemma_chunks_cover(total as nat);
        assert((c as nat) * chunk_size(total as nat) <= total);
    }
    let s = chunk_size_of(total);
    let lo: u64 = c as u64 * s;
    proof {
        assert((c as nat + 1) * chunk_size(total as nat) == lo + s) by (nonlinear_arith)
            requires
                lo == (c as nat) * chunk_size(total as nat),
                s == chunk_size(total as nat),
        ;
        assert(covered(total as nat, c as nat) <= covered(total as nat, c as nat + 1));
    }
    let hi: u64 = if total - lo < s {
        total
    } else {
        lo + s
    };
    (lo, hi)
}

} // verus!
