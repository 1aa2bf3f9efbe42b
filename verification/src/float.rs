//! Floating-point values, carried as their IEEE-754 bit patterns.
//!
//! Equality, order, sign and truncation are read off the bits here. Arithmetic, conversions that
//! round, and the reading of decimal text belong to the caller's floating-point unit: a function
//! from a [`FloatOp`] to the bits of its result. Contracts speak of that unit as [`unit`].
use vstd::arithmetic::power2::pow2;
use vstd::prelude::*;

verus! {

/// The bits of the double `1.0`.
pub const ONE: u64 = 0x3FF0_0000_0000_0000;

/// The bits of the double `255.0`.
pub const TWO_FIFTY_FIVE: u64 = 0x406F_E000_0000_0000;

/// The magnitude part of a double: everything but the sign bit.
pub open spec fn magnitude(b: u64) -> int {
    b as int % 0x8000_0000_0000_0000
}

/// The sign bit of a double is set.
pub open spec fn negative(b: u64) -> bool {
    b >= 0x8000_0000_0000_0000
}

/// The double is not a number.
pub open spec fn nan(b: u64) -> bool {
    magnitude(b) > 0x7FF0_0000_0000_0000
}

/// An integer that orders doubles other than NaN as their values do; both zeros map to `0`.
pub open spec fn rank(b: u64) -> int {
    if negative(b) {
        -magnitude(b)
    } else {
        magnitude(b)
    }
}

/// IEEE equality of doubles.
pub open spec fn eq64(a: u64, b: u64) -> bool {
    !nan(a) && !nan(b) && rank(a) == rank(b)
}

/// IEEE strict order of doubles.
pub open spec fn lt64(a: u64, b: u64) -> bool {
    !nan(a) && !nan(b) && rank(a) < rank(b)
}

/// The double with its sign bit flipped.
pub open spec fn neg64(b: u64) -> u64 {
    if negative(b) {
        (b - 0x8000_0000_0000_0000) as u64
    } else {
        (b + 0x8000_0000_0000_0000) as u64
    }
}

/// The integer part of the absolute value of a finite double.
pub open spec fn whole(b: u64) -> int {
    let e = magnitude(b) / 0x10_0000_0000_0000;
    let s = 0x10_0000_0000_0000 + magnitude(b) % 0x10_0000_0000_0000;
    if e == 0 {
        0
    } else if e >= 1075 {
        s * pow2((e - 1075) as nat)
    } else {
        s / (pow2((1075 - e) as nat) as int)
    }
}

/// The double rounded towards zero and clamped to `lo..=hi`; NaN gives `0`.
pub open spec fn truncated(b: u64, lo: int, hi: int) -> int {
    if nan(b) {
        0
    } else {
        let w = if negative(b) { -whole(b) } else { whole(b) };
        if w < lo {
            lo
        } else if w > hi {
            hi
        } else {
            w
        }
    }
}

/// The magnitude part of a single.
pub open spec fn magnitude32(b: u32) -> int {
    b as int % 0x8000_0000
}

/// The single is not a number.
pub open spec fn nan32(b: u32) -> bool {
    magnitude32(b) > 0x7F80_0000
}

/// An integer that orders singles other than NaN as their values do; both zeros map to `0`.
pub open spec fn rank32(b: u32) -> int {
    if b >= 0x8000_0000 {
        -magnitude32(b)
    } else {
        magnitude32(b)
    }
}

/// IEEE equality of singles.
pub open spec fn eq32(a: u32, b: u32) -> bool {
    !nan32(a) && !nan32(b) && rank32(a) == rank32(b)
}

/// IEEE strict order of singles.
pub open spec fn lt32(a: u32, b: u32) -> bool {
    !nan32(a) && !nan32(b) && rank32(a) < rank32(b)
}

/// IEEE order of singles, equality included.
pub open spec fn le32(a: u32, b: u32) -> bool {
    !nan32(a) && !nan32(b) && rank32(a) <= rank32(b)
}

fn rank_of(b: u64) -> (r: i64)
    ensures
        r == rank(b),
{
    if b >= 0x8000_0000_0000_0000 {
        let m: u64 = b - 0x8000_0000_0000_0000;
        -(m as i64)
    } else {
        b as i64
    }
}

fn rank32_of(b: u32) -> (r: i64)
    ensures
        r == rank32(b),
{
    if b >= 0x8000_0000 {
        let m: u32 = b - 0x8000_0000;
        -(m as i64)
    } else {
        b as i64
    }
}

/// `true` exactly when the double is NaN.
pub fn is_nan(b: u64) -> (r: bool)
    ensures
        r == nan(b),
{
    (b % 0x8000_0000_0000_0000) > 0x7FF0_0000_0000_0000
}

/// `true` exactly when the single is NaN.
pub fn is_nan_single(b: u32) -> (r: bool)
    ensures
        r == nan32(b),
{
    (b % 0x8000_0000) > 0x7F80_0000
}

/// IEEE equality of two doubles.
pub fn equal(a: u64, b: u64) -> (r: bool)
    ensures
        r == eq64(a, b),
{
    !is_nan(a) && !is_nan(b) && rank_of(a) == rank_of(b)
}

/// IEEE `<` of two doubles.
pub fn less(a: u64, b: u64) -> (r: bool)
    ensures
        r == lt64(a, b),
{
    !is_nan(a) && !is_nan(b) && rank_of(a) < rank_of(b)
}

/// IEEE equality of two singles.
pub fn equal_single(a: u32, b: u32) -> (r: bool)
    ensures
        r == eq32(a, b),
{
    !is_nan_single(a) && !is_nan_single(b) && rank32_of(a) == rank32_of(b)
}

/// IEEE `<` of two singles.
pub fn less_single(a: u32, b: u32) -> (r: bool)
    ensures
        r == lt32(a, b),
{
    !is_nan_single(a) && !is_nan_single(b) && rank32_of(a) < rank32_of(b)
}

/// IEEE `<=` of two singles.
pub fn at_most_single(a: u32, b: u32) -> (r: bool)
    ensures
        r == le32(a, b),
{
    !is_nan_single(a) && !is_nan_single(b) && rank32_of(a) <= rank32_of(b)
}

/// The negated double.
pub fn negate(b: u64) -> (r: u64)
    ensures
        r == neg64(b),
{
    if b >= 0x8000_0000_0000_0000 {
        b - 0x8000_0000_0000_0000
    } else {
        b + 0x8000_0000_0000_0000
    }
}

fn shift_left(s: u64, n: u64) -> (r: u64)
    requires
        s < 0x20_0000_0000_0000,
        n <= 10,
    ensures
        r == s * pow2(n as nat),
{
    let mut r: u64 = s;
    let mut i: u64 = 0;
    proof {
        vstd::arithmetic::power2::lemma2_to64();
    }
    while i < n
        invariant
            i <= n <= 10,
            s < 0x20_0000_0000_0000,
            r == s * pow2(i as nat),
            pow2(i as nat) <= 1024,
            r < 0x20_0000_0000_0000 * pow2(i as nat),
        decreases n - i,
    {
        proof {
            vstd::arithmetic::power2::lemma_pow2_unfold((i + 1) as nat);
            vstd::arithmetic::power2::lemma2_to64();
            if i < 9 {
                vstd::arithmetic::power2::lemma_pow2_strictly_increases((i + 1) as nat, 10);
            }
            assert(s * (2 * pow2(i as nat)) == 2 * (s * pow2(i as nat))) by (nonlinear_arith);
        }
        r = r * 2;
        i += 1;
    }
    r
}

fn shift_right(s: u64, n: u64) -> (r: u64)
    ensures
        r == s as int / (pow2(n as nat) as int),
{
    let mut r: u64 = s;
    let mut i: u64 = 0;
    proof {
        vstd::arithmetic::power2::lemma2_to64();
    }
    while i < n
        invariant
            i <= n,
            r == s as int / (pow2(i as nat) as int),
        decreases n - i,
    {
        proof {
            vstd::arithmetic::power2::lemma_pow2_unfold((i + 1) as nat);
            vstd::arithmetic::power2::lemma_pow2_pos(i as nat);
            vstd::arithmetic::div_mod::lemma_div_denominator(s as int, pow2(i as nat) as int, 2);
            assert(pow2(i as nat) * 2 == 2 * pow2(i as nat)) by (nonlinear_arith);
        }
        r = r / 2;
        i += 1;
    }
    r
}

/// A single with the other sign.
pub open spec fn neg32(b: u32) -> u32 {
    if b >= 0x8000_0000 {
        (b - 0x8000_0000) as u32
    } else {
        (b + 0x8000_0000) as u32
    }
}

/// A single with the other sign.
pub fn negate_single(b: u32) -> (r: u32)
    ensures
        r == neg32(b),
{
    if b >= 0x8000_0000 {
        b - 0x8000_0000
    } else {
        b + 0x8000_0000
    }
}

/// The double rounded towards zero, clamped to the range of `i64`; NaN gives `0`.
pub fn to_i64(b: u64) -> (r: i64)
    ensures
        r == truncated(b, i64::MIN as int, i64::MAX as int),
{
    if is_nan(b) {
        return 0;
    }
    let m: u64 = b % 0x8000_0000_0000_0000;
    let e: u64 = m / 0x10_0000_0000_0000;
    let s: u64 = 0x10_0000_0000_0000 + m % 0x10_0000_0000_0000;
    let minus: bool = b >= 0x8000_0000_0000_0000;
    if e == 0 {
        return 0;
    }
    if e > 1085 {
        proof {
            let n = (e - 1075) as nat;
            vstd::arithmetic::power2::lemma2_to64();
            if n > 11 {
                vstd::arithmetic::power2::lemma_pow2_strictly_increases(11, n);
            }
            assert(s * pow2(n) >= 0x10_0000_0000_0000 * 2048) by (nonlinear_arith)
                requires
                    s >= 0x10_0000_0000_0000,
                    pow2(n) >= 2048,
            ;
        }
        return if minus {
            i64::MIN
        } else {
            i64::MAX
        };
    }
    let w: u64 = if e >= 1075 {
        shift_left(s, e - 1075)
    } else {
        shift_right(s, 1075 - e)
    };
    proof {
        assert(w == whole(b));
        if e >= 1075 {
            let n = (e - 1075) as nat;
            vstd::arithmetic::power2::lemma2_to64();
            if n < 10 {
                vstd::arithmetic::power2::lemma_pow2_strictly_increases(n, 10);
            }
            assert(s * pow2(n) < 0x20_0000_0000_0000 * 1024) by (nonlinear_arith)
                requires
                    s < 0x20_0000_0000_0000,
                    0 <= pow2(n) <= 1024,
            ;
        } else {
            vstd::arithmetic::power2::lemma_pow2_pos((1075 - e) as nat);
            vstd::arithmetic::div_mod::lemma_div_is_ordered_by_denominator(
                s as int,
                1,
                pow2((1075 - e) as nat) as int,
            );
        }
    }
    if minus {
        -(w as i64)
    } else {
        w as i64
    }
}

/// The double rounded towards zero, clamped to the range of `u32`; NaN gives `0`.
pub fn to_u32(b: u64) -> (r: u32)
    ensures
        r == truncated(b, 0, u32::MAX as int),
{
    let i: i64 = to_i64(b);
    if i < 0 {
        0
    } else if i > 0xFFFF_FFFF {
        0xFFFF_FFFF
    } else {
        i as u32
    }
}

/// A request to the floating-point unit. Doubles are `u64` bits, singles are `u32` bits.
#[derive(Debug)]
pub enum FloatOp {
    /// The double that a decimal text denotes; no answer when it denotes none.
    Read { text: String },
    /// The single that a decimal text denotes; no answer when it denotes none.
    ReadSingle { text: String },
    /// The double rounded to a single.
    Narrow { double: u64 },
    /// The single as a double.
    Widen { single: u32 },
    /// The double nearest to an integer.
    FromInt { value: i64 },
    /// Sum of two doubles.
    Add { a: u64, b: u64 },
    /// Difference of two doubles.
    Sub { a: u64, b: u64 },
    /// Product of two doubles.
    Mul { a: u64, b: u64 },
    /// Quotient of two doubles.
    Div { a: u64, b: u64 },
    /// Sum of two singles.
    AddSingle { x: u32, y: u32 },
    /// Difference of two singles.
    SubSingle { x: u32, y: u32 },
    /// Product of two singles.
    MulSingle { x: u32, y: u32 },
    /// Quotient of two singles.
    DivSingle { x: u32, y: u32 },
    /// Square root of a single.
    SqrtSingle { x: u32 },
    /// The single nearest to an integer.
    FromIntSingle { value: i64 },
    /// The least whole single that is not below a single.
    CeilSingle { x: u32 },
    /// The whole single nearest to a single, halves away from zero.
    RoundSingle { x: u32 },
    /// The exponential of a single.
    ExpSingle { x: u32 },
    /// A single to the power of another.
    PowSingle { x: u32, y: u32 },
    /// The angle of the point with ordinate `y` and abscissa `x`, in radians.
    AngleSingle { y: u32, x: u32 },
}

/// What a [`FloatOp`] asks, over plain values.
pub enum FloatQuery {
    Read { text: Seq<char> },
    ReadSingle { text: Seq<char> },
    Narrow { double: u64 },
    Widen { single: u32 },
    FromInt { value: i64 },
    Add { a: u64, b: u64 },
    Sub { a: u64, b: u64 },
    Mul { a: u64, b: u64 },
    Div { a: u64, b: u64 },
    AddSingle { x: u32, y: u32 },
    SubSingle { x: u32, y: u32 },
    MulSingle { x: u32, y: u32 },
    DivSingle { x: u32, y: u32 },
    SqrtSingle { x: u32 },
    FromIntSingle { value: i64 },
    CeilSingle { x: u32 },
    RoundSingle { x: u32 },
    ExpSingle { x: u32 },
    PowSingle { x: u32, y: u32 },
    AngleSingle { y: u32, x: u32 },
}

impl View for FloatOp {
    type V = FloatQuery;

    open spec fn view(&self) -> FloatQuery {
        match *self {
            FloatOp::Read { text } => FloatQuery::Read { text: text@ },
            FloatOp::ReadSingle { text } => FloatQuery::ReadSingle { text: text@ },
            FloatOp::Narrow { double } => FloatQuery::Narrow { double },
            FloatOp::Widen { single } => FloatQuery::Widen { single },
            FloatOp::FromInt { value } => FloatQuery::FromInt { value },
            FloatOp::Add { a, b } => FloatQuery::Add { a, b },
            FloatOp::Sub { a, b } => FloatQuery::Sub { a, b },
            FloatOp::Mul { a, b } => FloatQuery::Mul { a, b },
            FloatOp::Div { a, b } => FloatQuery::Div { a, b },
            FloatOp::AddSingle { x, y } => FloatQuery::AddSingle { x, y },
            FloatOp::SubSingle { x, y } => FloatQuery::SubSingle { x, y },
            FloatOp::MulSingle { x, y } => FloatQuery::MulSingle { x, y },
            FloatOp::DivSingle { x, y } => FloatQuery::DivSingle { x, y },
            FloatOp::SqrtSingle { x } => FloatQuery::SqrtSingle { x },
            FloatOp::FromIntSingle { value } => FloatQuery::FromIntSingle { value },
            FloatOp::CeilSingle { x } => FloatQuery::CeilSingle { x },
            FloatOp::RoundSingle { x } => FloatQuery::RoundSingle { x },
            FloatOp::ExpSingle { x } => FloatQuery::ExpSingle { x },
            FloatOp::PowSingle { x, y } => FloatQuery::PowSingle { x, y },
            FloatOp::AngleSingle { y, x } => FloatQuery::AngleSingle { y, x },
        }
    }
}

/// The unit may answer `q` with `r`.
pub open spec fn answers<F: Fn(&FloatOp) -> Option<u64>>(f: F, q: FloatQuery, r: Option<u64>) -> bool {
    exists|op: &FloatOp| #[trigger] op@ == q && call_ensures(f, (op,), r)
}

/// The unit takes every request and always answers equal requests alike.
pub open spec fn steady<F: Fn(&FloatOp) -> Option<u64>>(f: F) -> bool {
    &&& forall|op: &FloatOp| #[trigger] call_requires(f, (op,))
    &&& forall|q: FloatQuery, r: Option<u64>, s: Option<u64>| #[trigger]
        answers(f, q, r) && #[trigger] answers(f, q, s) ==> r == s
}

/// A floating-point unit as a mathematical function.
pub type Unit = spec_fn(FloatQuery) -> Option<u64>;

/// The function that a steady unit computes.
pub open spec fn unit<F: Fn(&FloatOp) -> Option<u64>>(f: F) -> Unit {
    |q: FloatQuery| choose|r: Option<u64>| answers(f, q, r)
}

/// The unit's answer to a request.
pub fn ask<F: Fn(&FloatOp) -> Option<u64>>(f: &F, op: &FloatOp) -> (r: Option<u64>)
    requires
        steady(*f),
    ensures
        r == unit(*f)(op@),
{
    let r = f(op);
    assert(answers(*f, op@, r));
    r
}

/// The low half of an answer that carries a single.
pub open spec fn low_half(b: u64) -> u32 {
    (b % 0x1_0000_0000) as u32
}

/// The bits of an answer, `0` where the unit gave none.
pub open spec fn bits(r: Option<u64>) -> u64 {
    match r {
        Some(b) => b,
        None => 0,
    }
}

/// The double that the unit computes.
pub fn double<F: Fn(&FloatOp) -> Option<u64>>(f: &F, op: &FloatOp) -> (r: u64)
    requires
        steady(*f),
    ensures
        r == bits(unit(*f)(op@)),
{
    match ask(f, op) {
        Some(b) => b,
        None => 0,
    }
}

/// The single that the unit computes.
pub fn single<F: Fn(&FloatOp) -> Option<u64>>(f: &F, op: &FloatOp) -> (r: u32)
    requires
        steady(*f),
    ensures
        r == low_half(bits(unit(*f)(op@))),
{
    let b: u64 = double(f, op);
    (b % 0x1_0000_0000) as u32
}

/// A single as a double.
pub fn widen<F: Fn(&FloatOp) -> Option<u64>>(f: &F, s: u32) -> (r: u64)
    requires
        steady(*f),
    ensures
        r == bits(unit(*f)(FloatQuery::Widen { single: s })),
{
    double(f, &FloatOp::Widen { single: s })
}

/// A double rounded to a single.
pub fn narrow<F: Fn(&FloatOp) -> Option<u64>>(f: &F, d: u64) -> (r: u32)
    requires
        steady(*f),
    ensures
        r == low_half(bits(unit(*f)(FloatQuery::Narrow { double: d }))),
{
    single(f, &FloatOp::Narrow { double: d })
}

/// The double that a decimal text denotes, `0.0` where it denotes none.
pub fn read_or_zero<F: Fn(&FloatOp) -> Option<u64>>(f: &F, text: &str) -> (r: u64)
    requires
        steady(*f),
    ensures
        r == bits(unit(*f)(FloatQuery::Read { text: text@ })),
{
    double(f, &FloatOp::Read { text: text.to_owned() })
}

/// Singles computed by a unit.
pub open spec fn add32(fl: Unit, x: u32, y: u32) -> u32 {
    low_half(bits(fl(FloatQuery::AddSingle { x, y })))
}

pub open spec fn sub32(fl: Unit, x: u32, y: u32) -> u32 {
    low_half(bits(fl(FloatQuery::SubSingle { x, y })))
}

pub open spec fn mul32(fl: Unit, x: u32, y: u32) -> u32 {
    low_half(bits(fl(FloatQuery::MulSingle { x, y })))
}

pub open spec fn div32(fl: Unit, x: u32, y: u32) -> u32 {
    low_half(bits(fl(FloatQuery::DivSingle { x, y })))
}

pub open spec fn sqrt32(fl: Unit, x: u32) -> u32 {
    low_half(bits(fl(FloatQuery::SqrtSingle { x })))
}

pub open spec fn int32(fl: Unit, value: i64) -> u32 {
    low_half(bits(fl(FloatQuery::FromIntSingle { value })))
}

pub open spec fn narrow32(fl: Unit, double: u64) -> u32 {
    low_half(bits(fl(FloatQuery::Narrow { double })))
}

pub open spec fn ceil32(fl: Unit, x: u32) -> u32 {
    low_half(bits(fl(FloatQuery::CeilSingle { x })))
}

pub open spec fn round32(fl: Unit, x: u32) -> u32 {
    low_half(bits(fl(FloatQuery::RoundSingle { x })))
}

pub open spec fn exp32(fl: Unit, x: u32) -> u32 {
    low_half(bits(fl(FloatQuery::ExpSingle { x })))
}

pub open spec fn pow32(fl: Unit, x: u32, y: u32) -> u32 {
    low_half(bits(fl(FloatQuery::PowSingle { x, y })))
}

pub open spec fn angle32(fl: Unit, y: u32, x: u32) -> u32 {
    low_half(bits(fl(FloatQuery::AngleSingle { y, x })))
}

/// A single rounded towards zero, clamped to a range; NaN gives `0`.
pub open spec fn truncated32(fl: Unit, x: u32, lo: int, hi: int) -> int {
    truncated(bits(fl(FloatQuery::Widen { single: x })), lo, hi)
}

/// A single without its sign.
pub open spec fn abs32(b: u32) -> u32 {
    if b >= 0x8000_0000 {
        (b - 0x8000_0000) as u32
    } else {
        b
    }
}

/// The greater of two singles; one that is not a number yields to the other.
pub open spec fn max32(a: u32, b: u32) -> u32 {
    if nan32(a) || lt32(a, b) {
        b
    } else {
        a
    }
}

/// The lesser of two singles; one that is not a number yields to the other.
pub open spec fn min32(a: u32, b: u32) -> u32 {
    if nan32(a) || lt32(b, a) {
        b
    } else {
        a
    }
}

/// A single held between two bounds; NaN stays.
pub open spec fn clamp32(x: u32, lo: u32, hi: u32) -> u32 {
    if lt32(x, lo) {
        lo
    } else if lt32(hi, x) {
        hi
    } else {
        x
    }
}

/// Sum of two singles.
pub fn sum<F: Fn(&FloatOp) -> Option<u64>>(f: &F, x: u32, y: u32) -> (r: u32)
    requires
        steady(*f),
    ensures
        r == add32(unit(*f), x, y),
{
    single(f, &FloatOp::AddSingle { x, y })
}

/// Difference of two singles.
pub fn difference<F: Fn(&FloatOp) -> Option<u64>>(f: &F, x: u32, y: u32) -> (r: u32)
    requires
        steady(*f),
    ensures
        r == sub32(unit(*f), x, y),
{
    single(f, &FloatOp::SubSingle { x, y })
}

/// Product of two singles.
pub fn product<F: Fn(&FloatOp) -> Option<u64>>(f: &F, x: u32, y: u32) -> (r: u32)
    requires
        steady(*f),
    ensures
        r == mul32(unit(*f), x, y),
{
    single(f, &FloatOp::MulSingle { x, y })
}

/// Quotient of two singles.
pub fn ratio<F: Fn(&FloatOp) -> Option<u64>>(f: &F, x: u32, y: u32) -> (r: u32)
    requires
        steady(*f),
    ensures
        r == div32(unit(*f), x, y),
{
    single(f, &FloatOp::DivSingle { x, y })
}

/// The single nearest to an integer.
pub fn of_int<F: Fn(&FloatOp) -> Option<u64>>(f: &F, value: i64) -> (r: u32)
    requires
        steady(*f),
    ensures
        r == int32(unit(*f), value),
{
    single(f, &FloatOp::FromIntSingle { value })
}

/// A single rounded towards zero, clamped to 32 bits; NaN gives `0`.
pub fn to_i32_single<F: Fn(&FloatOp) -> Option<u64>>(f: &F, x: u32) -> (r: i32)
    requires
        steady(*f),
    ensures
        r == truncated32(unit(*f), x, i32::MIN as int, i32::MAX as int),
{
    let i: i64 = to_i64(widen(f, x));
    if i < -0x8000_0000 {
        -0x8000_0000
    } else if i > 0x7FFF_FFFF {
        0x7FFF_FFFF
    } else {
        i as i32
    }
}

/// A single rounded towards zero, clamped to the unsigned 32 bits; NaN gives `0`.
pub fn to_u32_single<F: Fn(&FloatOp) -> Option<u64>>(f: &F, x: u32) -> (r: u32)
    requires
        steady(*f),
    ensures
        r == truncated32(unit(*f), x, 0, u32::MAX as int),
{
    to_u32(widen(f, x))
}

/// A single without its sign.
pub fn magnitude_of(b: u32) -> (r: u32)
    ensures
        r == abs32(b),
{
    if b >= 0x8000_0000 {
        b - 0x8000_0000
    } else {
        b
    }
}

/// The greater of two singles.
pub fn greater_of(a: u32, b: u32) -> (r: u32)
    ensures
        r == max32(a, b),
{
    if is_nan_single(a) || less_single(a, b) {
        b
    } else {
        a
    }
}

/// The lesser of two singles.
pub fn lesser_of(a: u32, b: u32) -> (r: u32)
    ensures
        r == min32(a, b),
{
    if is_nan_single(a) || less_single(b, a) {
        b
    } else {
        a
    }
}

/// A single held between two bounds.
pub fn held_between(x: u32, lo: u32, hi: u32) -> (r: u32)
    ensures
        r == clamp32(x, lo, hi),
{
    if less_single(x, lo) {
        lo
    } else if less_single(hi, x) {
        hi
    } else {
        x
    }
}

} // verus!
