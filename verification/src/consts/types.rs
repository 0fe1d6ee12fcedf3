//! Rounding helpers for sizes and addresses.

use vstd::prelude::*;
use vstd::arithmetic::power2::pow2;

verus! {

/// Whether `n` is a power of two.
pub open spec fn is_pow2(n: usize) -> bool {
    n == 1 || n == 2 || n == 4 || n == 8 || n == 16 || n == 32 || n == 64 || n == 128 || n == 256
        || n == 512 || n == 1024 || n == 2048 || n == 4096 || n == 8192 || n == 16384 || n == 32768
        || n == 65536
}

/// Round `x` up to a multiple of `n`.
pub open spec fn round_up_spec(x: int, n: int) -> int {
    if x % n == 0 {
        x
    } else {
        x - x % n + n
    }
}

/// Round `x` down to a multiple of `n`.
pub open spec fn round_down_spec(x: int, n: int) -> int {
    x - x % n
}

/// `x & !(n - 1)` for a power of two `n` is `x` rounded down to a multiple of
/// `n`.
proof fn lemma_mask_round_down(x: usize, n: usize)
    requires
        is_pow2(n),
    ensures
        x & !((n - 1) as usize) == x - x % n,
{
    let k: usize = if n == 1 {
        0
    } else if n == 2 {
        1
    } else if n == 4 {
        2
    } else if n == 8 {
        3
    } else if n == 16 {
        4
    } else if n == 32 {
        5
    } else if n == 64 {
        6
    } else if n == 128 {
        7
    } else if n == 256 {
        8
    } else if n == 512 {
        9
    } else if n == 1024 {
        10
    } else if n == 2048 {
        11
    } else if n == 4096 {
        12
    } else if n == 8192 {
        13
    } else if n == 16384 {
        14
    } else if n == 32768 {
        15
    } else {
        16
    };
    vstd::arithmetic::power2::lemma2_to64();
    assert(pow2(k as nat) == n);
    vstd::bits::lemma_usize_low_bits_mask_is_mod(x, k as nat);
    assert(vstd::bits::low_bits_mask(k as nat) == n - 1);
    let m = (n - 1) as usize;
    assert(x & !m == x - (x & m)) by (bit_vector);
}

/// Round `x` up to a multiple of the power of two `n`.
pub fn round(x: usize, n: usize) -> (r: usize)
    requires
        is_pow2(n),
        x + n - 1 <= usize::MAX,
    ensures
        r == round_up_spec(x as int, n as int),
        r % n == 0,
        x <= r < x + n,
{
    let y = x + (n - 1);
    proof {
        lemma_mask_round_down(y, n);
        assert((y - y % n) % (n as int) == 0) by (nonlinear_arith)
            requires
                n > 0,
        ;
        if x % n == 0 {
            assert(y % n == n - 1) by (nonlinear_arith)
                requires
                    n > 0,
                    x % n == 0,
                    y == x + n - 1,
            ;
        } else {
            assert(y % n == x % n - 1) by (nonlinear_arith)
                requires
                    n > 0,
                    x % n > 0,
                    y == x + n - 1,
            ;
        }
    }
    y & !(n - 1)
}

/// Round `x` down to a multiple of the power of two `n`.
pub fn round_down(x: usize, n: usize) -> (r: usize)
    requires
        is_pow2(n),
    ensures
        r == round_down_spec(x as int, n as int),
        r % n == 0,
        r <= x < r + n,
{
    proof {
        lemma_mask_round_down(x, n);
        assert((x - x % n) % (n as int) == 0) by (nonlinear_arith)
            requires
                n > 0,
        ;
    }
    x & !(n - 1)
}

} // verus!
