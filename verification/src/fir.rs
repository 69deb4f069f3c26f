//! Helpers of the FIR filter.
use vstd::prelude::*;
use vstd::arithmetic::div_mod::{lemma_fundamental_div_mod, lemma_mod_multiples_basic};

verus! {

/// The smallest multiple of `n` that is not less than `x`.
pub open spec fn spec_align_ceil(x: int, n: int) -> int {
    if x % n == 0 {
        x
    } else {
        x + n - x % n
    }
}

/// Round `x` up to the nearest multiple of `n`.
pub fn align_ceil(x: usize, n: usize) -> (res: usize)
    requires
        n > 0,
        spec_align_ceil(x as int, n as int) <= usize::MAX,
    ensures
        res == spec_align_ceil(x as int, n as int),
        res % n == 0,
        x <= res < x + n,
{
    let r = x % n;
    if r == 0 {
        x
    } else {
        proof {
            lemma_round_up_is_multiple(x as int, n as int);
        }
        x + (n - r)
    }
}

/// Rounding `x` up past a nonzero remainder lands on the next multiple of `n`.
proof fn lemma_round_up_is_multiple(x: int, n: int)
    requires
        n > 0,
        x >= 0,
        x % n != 0,
    ensures
        (x + (n - x % n)) % n == 0,
{
    let q = x / n;
    lemma_fundamental_div_mod(x, n);
    assert(x + (n - x % n) == (q + 1) * n) by (nonlinear_arith)
        requires
            x == n * q + x % n,
    ;
    lemma_mod_multiples_basic(q + 1, n);
}

} // verus!
