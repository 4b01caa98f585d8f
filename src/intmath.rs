//! Integer square root and base-2 logarithm, for the exploration term of UCT.
use vstd::prelude::*;

verus! {

/// Whether `r` is the integer square root of `x`.
pub open spec fn is_sqrt(x: nat, r: nat) -> bool {
    r * r <= x < (r + 1) * (r + 1)
}

/// The integer square root: the largest `r` with `r * r <= x`.
pub open spec fn sqrt_floor(x: nat) -> nat {
    choose|r: nat| is_sqrt(x, r)
}

/// The floor of the base-2 logarithm; 0 for 0 and 1.
pub open spec fn log2_floor(n: nat) -> nat
    decreases n,
{
    if n < 2 {
        0
    } else {
        1 + log2_floor(n / 2)
    }
}

proof fn lemma_sqrt_unique(x: nat, r: nat, q: nat)
    requires
        is_sqrt(x, r),
        is_sqrt(x, q),
    ensures
        r == q,
{
    if r < q {
        assert((r + 1) * (r + 1) <= q * q) by (nonlinear_arith)
            requires
                r + 1 <= q,
        ;
    } else if q < r {
        assert((q + 1) * (q + 1) <= r * r) by (nonlinear_arith)
            requires
                q + 1 <= r,
        ;
    }
}

/// The integer square root of `x`.
pub fn isqrt(x: u64) -> (r: u64)
    ensures
        r as nat == sqrt_floor(x as nat),
        is_sqrt(x as nat, r as nat),
{
    let mut lo: u64 = 0;
    let mut hi: u64 = 0x1_0000_0000u64;
    assert(hi * hi > x) by (nonlinear_arith)
        requires
            hi == 0x1_0000_0000u64,
            x <= 0xFFFF_FFFF_FFFF_FFFFu64,
    ;
    while hi - lo > 1
        invariant
            lo < hi <= 0x1_0000_0000u64,
            lo * lo <= x,
            x < hi * hi,
        decreases hi - lo,
    {
        let mid: u64 = lo + (hi - lo) / 2;
        assert(mid < 0x1_0000_0000u64);
        assert((mid as u128) * (mid as u128) < 0x1_0000_0000_0000_0000u128) by (nonlinear_arith)
            requires
                mid < 0x1_0000_0000u64,
        ;
        let sq: u128 = (mid as u128) * (mid as u128);
        if sq <= x as u128 {
            lo = mid;
        } else {
            hi = mid;
        }
    }
    assert(hi == lo + 1);
    proof {
        assert(is_sqrt(x as nat, lo as nat));
        let q = sqrt_floor(x as nat);
        assert(is_sqrt(x as nat, q));
        lemma_sqrt_unique(x as nat, lo as nat, q);
    }
    lo
}

/// The floor of the base-2 logarithm of `n`; 0 for 0 and 1.
pub fn ilog2(n: u128) -> (r: u32)
    ensures
        r as nat == log2_floor(n as nat),
        r <= 127,
{
    let mut m: u128 = n;
    let mut r: u32 = 0;
    assert(m <= (0xFFFF_FFFF_FFFF_FFFF_FFFF_FFFF_FFFF_FFFFu128 >> 0u128)) by (bit_vector);
    while m >= 2
        invariant
            r as nat + log2_floor(m as nat) == log2_floor(n as nat),
            r <= 127,
            m <= (0xFFFF_FFFF_FFFF_FFFF_FFFF_FFFF_FFFF_FFFFu128 >> (r as u128)),
        decreases m,
    {
        let ghost rr = r as u128;
        assert((m >= 2 && rr <= 127 && m <= (0xFFFF_FFFF_FFFF_FFFF_FFFF_FFFF_FFFF_FFFFu128 >> rr))
            ==> rr <= 126 && (m >> 1u128) <= (0xFFFF_FFFF_FFFF_FFFF_FFFF_FFFF_FFFF_FFFFu128 >> (rr
            + 1)) && (m >> 1u128) == m / 2) by (bit_vector);
        m = m >> 1u128;
        r = r + 1;
    }
    r
}

} // verus!
