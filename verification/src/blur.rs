//! The kernel of the backdrop blur: how wide it is, how many taps it takes and what each weighs.
use vstd::prelude::*;

use crate::float::{
    add32, ceil32, div32, exp32, greater_of, int32, max32, mul32, neg32, negate_single, of_int,
    product, ratio, single, steady, sum, to_i32_single, truncated32, unit, FloatOp, Unit,
};

verus! {

/// The most taps on one side.
pub const MAX_BLUR_RADIUS: i32 = 64;

/// Two.
pub const TWO: u32 = 0x4000_0000;

/// Three.
pub const THREE: u32 = 0x4040_0000;

/// One half.
pub const HALF: u32 = 0x3F00_0000;

/// The deviation of the kernel for a radius: a third of it, at least one half.
pub open spec fn sigma(fl: Unit, radius: u32) -> u32 {
    max32(div32(fl, radius, THREE), HALF)
}

/// The deviation of the kernel for a radius.
pub fn sigma_for_radius<F: Fn(&FloatOp) -> Option<u64>>(radius: u32, fl: &F) -> (r: u32)
    requires
        steady(*fl),
    ensures
        r == sigma(unit(*fl), radius),
{
    greater_of(ratio(fl, radius, THREE), HALF)
}

/// The taps on one side for a deviation: three deviations rounded up, from one to
/// [`MAX_BLUR_RADIUS`].
pub open spec fn taps(fl: Unit, s: u32) -> int {
    let n = truncated32(fl, ceil32(fl, mul32(fl, THREE, s)), i32::MIN as int, i32::MAX as int);
    if n < 1 {
        1
    } else if n > MAX_BLUR_RADIUS {
        MAX_BLUR_RADIUS as int
    } else {
        n
    }
}

/// The taps on one side for a deviation.
pub fn taps_for_sigma<F: Fn(&FloatOp) -> Option<u64>>(s: u32, fl: &F) -> (r: i32)
    requires
        steady(*fl),
    ensures
        r == taps(unit(*fl), s),
        1 <= r <= MAX_BLUR_RADIUS,
{
    let wide: u32 = single(fl, &FloatOp::CeilSingle { x: product(fl, THREE, s) });
    let n: i32 = to_i32_single(fl, wide);
    if n < 1 {
        1
    } else if n > MAX_BLUR_RADIUS {
        MAX_BLUR_RADIUS
    } else {
        n
    }
}

/// The weight of the tap at a distance, before it is divided by the total.
pub open spec fn raw_weight(fl: Unit, s: u32, i: int) -> u32 {
    let two_s2 = mul32(fl, mul32(fl, TWO, s), s);
    let d = int32(fl, i as i64);
    exp32(fl, div32(fl, neg32(mul32(fl, d, d)), two_s2))
}

/// The sum of the weights at the distances from one to `n`.
pub open spec fn side_weight(fl: Unit, s: u32, n: int) -> u32
    decreases n,
{
    if n <= 0 {
        0
    } else {
        add32(fl, side_weight(fl, s, n - 1), raw_weight(fl, s, n))
    }
}

/// The weight of all taps: the middle one and both sides.
pub open spec fn total_weight(fl: Unit, s: u32, radius: int) -> u32 {
    add32(fl, raw_weight(fl, s, 0), mul32(fl, TWO, side_weight(fl, s, radius)))
}

/// The weights of the taps from the middle outwards, each divided by the total, of which those
/// off the middle count twice.
pub fn normalized_half_kernel<F: Fn(&FloatOp) -> Option<u64>>(s: u32, radius: i32, fl: &F) -> (r: Vec<u32>)
    requires
        steady(*fl),
    ensures
        ({
            let n = if radius < 0 {
                0
            } else {
                radius as int
            };
            r@ == Seq::new(
                (n + 1) as nat,
                |i: int|
                    div32(unit(*fl), raw_weight(unit(*fl), s, i), total_weight(unit(*fl), s, n)),
            )
        }),
{
    let n: u32 = if radius < 0 {
        0
    } else {
        radius as u32
    };
    let two_s2: u32 = product(fl, product(fl, TWO, s), s);
    let mut raw: Vec<u32> = Vec::new();
    let mut side: u32 = 0;
    let mut i: u32 = 0;
    while i <= n
        invariant
            steady(*fl),
            n <= 0x7FFF_FFFF,
            i <= n + 1,
            two_s2 == mul32(unit(*fl), mul32(unit(*fl), TWO, s), s),
            raw@ == Seq::new(i as nat, |j: int| raw_weight(unit(*fl), s, j)),
            side == side_weight(unit(*fl), s, i - 1),
        decreases n + 1 - i,
    {
        let d: u32 = of_int(fl, i as i64);
        let exponent: u32 = ratio(fl, negate_single(product(fl, d, d)), two_s2);
        let w: u32 = single(fl, &FloatOp::ExpSingle { x: exponent });
        raw.push(w);
        if i > 0 {
            side = sum(fl, side, w);
        }
        i += 1;
        assert(raw@ =~= Seq::new(i as nat, |j: int| raw_weight(unit(*fl), s, j)));
    }
    assert(raw@[0] == raw_weight(unit(*fl), s, 0));
    let total: u32 = sum(fl, raw[0], product(fl, TWO, side));
    let mut out: Vec<u32> = Vec::new();
    let mut k: usize = 0;
    while k < raw.len()
        invariant
            steady(*fl),
            k <= raw@.len(),
            raw@ == Seq::new((n + 1) as nat, |j: int| raw_weight(unit(*fl), s, j)),
            total == total_weight(unit(*fl), s, n as int),
            out@ == Seq::new(
                k as nat,
                |j: int|
                    div32(unit(*fl), raw_weight(unit(*fl), s, j), total_weight(unit(*fl), s, n as int)),
            ),
        decreases raw.len() - k,
    {
        assert(raw@[k as int] == raw_weight(unit(*fl), s, k as int));
        out.push(ratio(fl, raw[k], total));
        k += 1;
        assert(out@ =~= Seq::new(
            k as nat,
            |j: int| div32(unit(*fl), raw_weight(unit(*fl), s, j), total_weight(unit(*fl), s, n as int)),
        ));
    }
    out
}

} // verus!
