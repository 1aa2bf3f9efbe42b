//! What rounding a number towards zero gives.
use vstd::arithmetic::power2::{lemma_pow2_pos, pow2};
use vstd::prelude::*;

use crate::float::{truncated, whole};

verus! {

/// The significand of a number that is not tiny: its fraction behind the one that is not written.
pub open spec fn significand(b: u64) -> int {
    0x10_0000_0000_0000 + b % 0x10_0000_0000_0000
}

/// The exponent bits of a number.
pub open spec fn exponent(b: u64) -> int {
    b as int / 0x10_0000_0000_0000 % 0x800
}

/// The whole part of a number is the last integer that is not above its size: the size is the
/// significand by the power of two that the exponent bits name, of which 1075 stand for one.
pub proof fn law_whole_part_is_just_below(b: u64)
    requires
        0 < exponent(b) < 0x7FF,
    ensures
        exponent(b) >= 1075 ==> whole(b) == significand(b) * pow2((exponent(b) - 1075) as nat),
        exponent(b) < 1075 ==> whole(b) * pow2((1075 - exponent(b)) as nat) <= significand(b) < (whole(b) + 1) * pow2(
            (1075 - exponent(b)) as nat,
        ),
{
    let e = exponent(b);
    assert(b as int % 0x8000_0000_0000_0000 / 0x10_0000_0000_0000 == e);
    assert(b as int % 0x8000_0000_0000_0000 % 0x10_0000_0000_0000 == b as int % 0x10_0000_0000_0000);
    if e < 1075 {
        let d = pow2((1075 - e) as nat) as int;
        lemma_pow2_pos((1075 - e) as nat);
        let s = significand(b);
        let q = s / d;
        assert(q * d <= s < (q + 1) * d) by (nonlinear_arith)
            requires
                d > 0,
                q == s / d,
        ;
    }
}

/// Rounding towards zero keeps the sign and the whole part and stays in its range; what is no number
/// is zero, and of a size below one nothing is left.
pub proof fn law_rounding_goes_towards_zero(b: u64, lo: int, hi: int)
    requires
        lo <= 0 <= hi,
    ensures
        lo <= truncated(b, lo, hi) <= hi,
        b % 0x8000_0000_0000_0000 > 0x7FF0_0000_0000_0000 ==> truncated(b, lo, hi) == 0,
        b % 0x8000_0000_0000_0000 < 0x3FF0_0000_0000_0000 ==> truncated(b, lo, hi) == 0,
        b <= 0x7FF0_0000_0000_0000 && whole(b) <= hi ==> truncated(b, lo, hi) == whole(b),
        b <= 0x7FF0_0000_0000_0000 && whole(b) > hi ==> truncated(b, lo, hi) == hi,
        0x8000_0000_0000_0000 < b <= 0xFFF0_0000_0000_0000 && -whole(b) >= lo ==> truncated(b, lo, hi) == -whole(b),
        0x8000_0000_0000_0000 < b <= 0xFFF0_0000_0000_0000 && -whole(b) < lo ==> truncated(b, lo, hi) == lo,
{
    let m = b as int % 0x8000_0000_0000_0000;
    let e = m / 0x10_0000_0000_0000;
    let s = 0x10_0000_0000_0000 + m % 0x10_0000_0000_0000;
    assert(whole(b) >= 0) by {
        if e >= 1075 {
            lemma_pow2_pos((e - 1075) as nat);
            let d = pow2((e - 1075) as nat) as int;
            assert(s * d >= 0) by (nonlinear_arith)
                requires
                    s >= 0,
                    d >= 0,
            ;
        } else {
            lemma_pow2_pos((1075 - e) as nat);
            let d = pow2((1075 - e) as nat) as int;
            assert(s / d >= 0) by (nonlinear_arith)
                requires
                    s >= 0,
                    d > 0,
            ;
        }
    }
    if m < 0x3FF0_0000_0000_0000 && e > 0 {
        assert(e < 1023);
        let n = (1075 - e) as nat;
        vstd::arithmetic::power2::lemma2_to64();
        if n > 53 {
            vstd::arithmetic::power2::lemma_pow2_strictly_increases(53, n);
        }
        let d = pow2(n) as int;
        assert(pow2(53) == 0x20_0000_0000_0000) by {
            vstd::arithmetic::power2::lemma2_to64_rest();
        }
        assert(d >= 0x20_0000_0000_0000);
        assert(s / d == 0) by (nonlinear_arith)
            requires
                0 <= s < d,
        ;
        assert(whole(b) == 0);
    }
}

} // verus!
