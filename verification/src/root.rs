//! Integer square roots.

use vstd::prelude::*;
use crate::arith::lemma_square_order;

verus! {

/// `r` is the square root of `n`, rounded down.
pub open spec fn is_sqrt(n: int, r: int) -> bool {
    0 <= r && r * r <= n < (r + 1) * (r + 1)
}

/// The square root of `n`, rounded down.
pub open spec fn sqrt_floor(n: int) -> int {
    choose|r: int| is_sqrt(n, r)
}

/// At most one number is the rounded-down square root of `n`.
pub proof fn lemma_sqrt_unique(n: int, r: int, s: int)
    requires
        is_sqrt(n, r),
        is_sqrt(n, s),
    ensures
        r == s,
{
    if r < s {
        lemma_square_order(r + 1, s);
    }
    if s < r {
        lemma_square_order(s + 1, r);
    }
}

/// Every number from zero on has a rounded-down square root.
pub proof fn lemma_sqrt_exists(n: int)
    requires
        n >= 0,
    ensures
        is_sqrt(n, sqrt_floor(n)),
    decreases n,
{
    if n == 0 {
        assert(is_sqrt(0, 0));
    } else {
        lemma_sqrt_exists(n - 1);
        let r = sqrt_floor(n - 1);
        if n < (r + 1) * (r + 1) {
            assert(is_sqrt(n, r));
        } else {
            assert((r + 2) * (r + 2) > (r + 1) * (r + 1)) by (nonlinear_arith)
                requires
                    r >= 0,
            ;
            assert(is_sqrt(n, r + 1));
        }
    }
}

/// A number with the defining property is the rounded-down square root.
pub proof fn lemma_sqrt_is(n: int, r: int)
    requires
        is_sqrt(n, r),
    ensures
        sqrt_floor(n) == r,
{
    lemma_sqrt_unique(n, r, sqrt_floor(n));
}

/// The square root of `n`, rounded down.
pub fn isqrt(n: u128) -> (r: u64)
    ensures
        is_sqrt(n as int, r as int),
        r as int == sqrt_floor(n as int),
{
    let mut lo: u128 = 0;
    let mut hi: u128 = 0x1_0000_0000_0000_0000;
    assert(0x1_0000_0000_0000_0000int * 0x1_0000_0000_0000_0000int
        == 0x1_0000_0000_0000_0000_0000_0000_0000_0000int) by (nonlinear_arith);
    while hi - lo > 1
        invariant
            lo < hi <= 0x1_0000_0000_0000_0000,
            lo * lo <= n < hi * hi,
        decreases hi - lo,
    {
        let mid: u128 = lo + (hi - lo) / 2;
        assert(mid * mid <= 0xffff_ffff_ffff_ffffint * 0xffff_ffff_ffff_ffffint) by {
            lemma_square_order(mid as int, 0xffff_ffff_ffff_ffffint);
        }
        assert(0xffff_ffff_ffff_ffffint * 0xffff_ffff_ffff_ffffint
            == 0xffff_ffff_ffff_fffe_0000_0000_0000_0001int) by (nonlinear_arith);
        if mid * mid <= n {
            lo = mid;
        } else {
            hi = mid;
        }
    }
    proof {
        lemma_sqrt_is(n as int, lo as int);
    }
    lo as u64
}

} // verus!
