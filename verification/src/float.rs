//! Arithmetic of 32-bit floats on their bit patterns.
//!
//! The results are those of IEEE 754: every operation gives the float nearest to the exact result,
//! and of two equally near ones the one with an even bit pattern. A zero is a zero whatever its
//! sign, and a NaN is a NaN whatever its payload.
use vstd::arithmetic::power2::{
    lemma2_to64, lemma2_to64_rest, lemma_pow2_adds, lemma_pow2_pos, lemma_pow2_strictly_increases,
    lemma_pow2_unfold, pow2,
};
use vstd::prelude::*;

use crate::nn::is_finite;
use crate::ops::nearest_float;
use crate::tensor::{is_nan, quotient_outcome};

verus! {

/// The bit pattern of infinity.
pub const INFINITY: u32 = 0x7f80_0000;

/// The bit pattern of a NaN.
pub const NAN: u32 = 0x7fc0_0000;

/// The exponent of a float that is not negative: the float is its mantissa times two to the
/// exponent less 150.
pub open spec fn exponent_of(bits: u32) -> nat {
    if bits / 0x80_0000 == 0 {
        1
    } else {
        (bits / 0x80_0000) as nat
    }
}

/// The mantissa of a float that is not negative, of 24 bits.
pub open spec fn mantissa_of(bits: u32) -> nat {
    if bits / 0x80_0000 == 0 {
        (bits % 0x80_0000) as nat
    } else {
        (bits % 0x80_0000 + 0x80_0000) as nat
    }
}

/// A float that is not negative, in units of `2^-149`, which is the least positive float. Infinity
/// counts as `2^128`, which is where it begins.
pub open spec fn units(bits: u32) -> nat {
    mantissa_of(bits) * pow2((exponent_of(bits) - 1) as nat)
}

/// A float without its sign.
pub open spec fn magnitude(bits: u32) -> u32 {
    bits % 0x8000_0000
}

/// A float in units of `2^-149`.
pub open spec fn value(bits: u32) -> int {
    if bits < 0x8000_0000 {
        units(bits) as int
    } else {
        -(units(magnitude(bits)) as int)
    }
}

/// Twice the middle between the float `r` and the next one.
pub open spec fn middle(r: u32) -> nat {
    units(r) + units((r + 1) as u32)
}

/// Whether `num / den` units are past the middle between `r` and the next float, or right at the
/// middle and the next float is the even one.
pub open spec fn past_middle(num: nat, den: nat, r: u32) -> bool {
    2 * num > middle(r) * den || (2 * num == middle(r) * den && r % 2 == 1)
}

/// `r` is the float nearest to `num / den` units, and the even one if two are equally near.
pub open spec fn rounds_to(num: nat, den: nat, r: u32) -> bool {
    &&& r <= INFINITY
    &&& r > 0 ==> past_middle(num, den, (r - 1) as u32)
    &&& r < INFINITY ==> !past_middle(num, den, r)
}

/// The float nearest to `num / den` units.
pub open spec fn nearest(num: nat, den: nat) -> u32 {
    choose|r: u32| rounds_to(num, den, r)
}

/// The float nearest to a whole number of units, of either sign.
pub open spec fn nearest_signed(v: int) -> u32 {
    if v >= 0 {
        nearest(v as nat, 1)
    } else {
        (nearest((-v) as nat, 1) + 0x8000_0000) as u32
    }
}

/// The sum of two floats.
pub open spec fn float_sum(a: u32, b: u32) -> u32 {
    if is_nan(a) || is_nan(b) {
        NAN
    } else if !is_finite(a) {
        if !is_finite(b) && a != b {
            NAN
        } else {
            a
        }
    } else if !is_finite(b) {
        b
    } else {
        nearest_signed(value(a) + value(b))
    }
}

/// The quotient of a float by a positive one, both finite.
pub open spec fn float_quotient(a: u32, b: u32) -> u32 {
    let q = nearest(units(magnitude(a)) * pow2(149), units(b));
    if a < 0x8000_0000 {
        q
    } else {
        (q + 0x8000_0000) as u32
    }
}

/// The next float is one mantissa step above.
pub proof fn lemma_units_step(r: u32)
    requires
        r < INFINITY,
    ensures
        units((r + 1) as u32) == units(r) + pow2((exponent_of(r) - 1) as nat),
        middle(r) == (2 * mantissa_of(r) + 1) * pow2((exponent_of(r) - 1) as nat),
{
    let next = (r + 1) as u32;
    let p = pow2((exponent_of(r) - 1) as nat);
    let m = mantissa_of(r);
    if exponent_of(next) == exponent_of(r) {
        assert(mantissa_of(next) == m + 1);
    } else {
        assert(exponent_of(next) == exponent_of(r) + 1);
        assert(m == 0xff_ffff && mantissa_of(next) == 0x80_0000);
        lemma_pow2_unfold(exponent_of(r));
    }
    assert(units(next) == (m + 1) * p) by (nonlinear_arith)
        requires
            units(next) == (m + 1) * p || (m == 0xff_ffff && units(next) == 0x80_0000 * (2 * p)),
    ;
    assert((m + 1) * p == m * p + p) by (nonlinear_arith);
    assert((2 * m + 1) * p == m * p + (m + 1) * p) by (nonlinear_arith);
}

/// Greater bit patterns are greater floats.
pub proof fn lemma_units_increase(a: u32, b: u32)
    requires
        a < b <= INFINITY,
    ensures
        units(a) < units(b),
    decreases b - a,
{
    lemma_units_step(a);
    lemma_pow2_pos((exponent_of(a) - 1) as nat);
    if a + 1 < b {
        lemma_units_increase((a + 1) as u32, b);
    }
}

/// There is one nearest float.
pub proof fn lemma_nearest_is_unique(num: nat, den: nat, a: u32, b: u32)
    requires
        den > 0,
        rounds_to(num, den, a),
        rounds_to(num, den, b),
    ensures
        a == b,
{
    if a < b {
        lemma_nearest_not_below(num, den, a, b);
    } else if b < a {
        lemma_nearest_not_below(num, den, b, a);
    }
}

/// No float below a nearest one is nearest too.
proof fn lemma_nearest_not_below(num: nat, den: nat, a: u32, b: u32)
    requires
        den > 0,
        a < b <= INFINITY,
        rounds_to(num, den, b),
    ensures
        !rounds_to(num, den, a),
{
    let c = (b - 1) as u32;
    if a < c {
        lemma_units_increase(a, c);
        lemma_units_increase((a + 1) as u32, b);
        let (x, y) = (middle(a), middle(c));
        assert(x * den < y * den) by (nonlinear_arith)
            requires
                x < y,
                den > 0,
        ;
    }
}

/// A nearest float is the nearest float.
pub proof fn lemma_nearest(num: nat, den: nat, r: u32)
    requires
        den > 0,
        rounds_to(num, den, r),
    ensures
        nearest(num, den) == r,
{
    lemma_nearest_is_unique(num, den, nearest(num, den), r);
}

/// There is a nearest float, at or above `r` if all below are too low.
proof fn lemma_nearest_from(num: nat, den: nat, r: u32) -> (found: u32)
    requires
        r <= INFINITY,
        r > 0 ==> past_middle(num, den, (r - 1) as u32),
    ensures
        rounds_to(num, den, found),
    decreases INFINITY - r,
{
    if r < INFINITY && past_middle(num, den, r) {
        lemma_nearest_from(num, den, (r + 1) as u32)
    } else {
        r
    }
}

/// There is a nearest float.
pub proof fn lemma_nearest_exists(num: nat, den: nat)
    ensures
        rounds_to(num, den, nearest(num, den)),
        nearest(num, den) <= INFINITY,
{
    let r = lemma_nearest_from(num, den, 0);
    assert(rounds_to(num, den, r));
}

/// Zero is nearest to nothing.
pub proof fn lemma_nearest_to_nothing(den: nat)
    requires
        den > 0,
    ensures
        nearest(0, den) == 0,
{
    lemma_nearest_exists(0, den);
    lemma_zero_units();
    lemma_rounds_below(0, den, nearest(0, den), 0);
}

/// A zero changes nothing in a sum.
pub proof fn lemma_sum_with_zero(a: u32, zero: u32)
    requires
        !is_nan(a),
        magnitude(zero) == 0,
    ensures
        !is_nan(float_sum(a, zero)),
        value(float_sum(a, zero)) == value(a),
        a < 0x8000_0000 ==> float_sum(a, zero) == a,
{
    lemma_zero_units();
    if is_finite(a) {
        let m = magnitude(a);
        lemma_float_is_nearest(m);
        lemma_float_is_nearest(0);
        if m > 0 {
            lemma_units_increase(0, m);
        }
    }
}

/// A float is nearest to itself, and to all that is closer than an eighth of its last place.
proof fn lemma_stays(r: u32, v: nat)
    requires
        0 < r < INFINITY,
        v == units(r) || exponent_of(r) >= 2,
        8 * v < 8 * units(r) + pow2((exponent_of(r) - 1) as nat),
        8 * v + pow2((exponent_of(r) - 1) as nat) > 8 * units(r),
    ensures
        rounds_to(v, 1, r),
{
    let before = (r - 1) as u32;
    let p = pow2((exponent_of(r) - 1) as nat);
    let q = pow2((exponent_of(before) - 1) as nat);
    lemma_units_step(r);
    lemma_units_step(before);
    lemma_pow2_pos((exponent_of(r) - 1) as nat);
    lemma_pow2_pos((exponent_of(before) - 1) as nat);
    if exponent_of(before) != exponent_of(r) {
        assert(exponent_of(before) + 1 == exponent_of(r));
        lemma_pow2_unfold((exponent_of(r) - 1) as nat);
        assert(p == 2 * q);
    }
    assert(middle(r) == 2 * units(r) + p);
    assert(middle(before) == 2 * units(r) - q);
}

/// A float is nearest to itself.
pub proof fn lemma_float_is_nearest(r: u32)
    requires
        r < INFINITY,
    ensures
        rounds_to(units(r), 1, r),
        nearest(units(r), 1) == r,
{
    lemma_pow2_pos((exponent_of(r) - 1) as nat);
    if r > 0 {
        lemma_stays(r, units(r));
    } else {
        lemma_units_step(0);
    }
    lemma_nearest(units(r), 1, r);
}

/// What is at most a float rounds to at most it.
pub proof fn lemma_rounds_below(num: nat, den: nat, r: u32, bound: u32)
    requires
        den > 0,
        rounds_to(num, den, r),
        bound <= INFINITY,
        num <= units(bound) * den,
    ensures
        r <= bound,
{
    if r > bound {
        let c = (r - 1) as u32;
        lemma_units_increase(c, r);
        if bound < c {
            lemma_units_increase(bound, c);
        }
        let (x, y) = (units(bound), middle(c));
        assert(2 * num < y * den) by (nonlinear_arith)
            requires
                num <= x * den,
                2 * x < y,
                den > 0,
        ;
    }
}

/// Tells whether `a * 2^ea` is greater than `b * 2^eb`.
fn is_greater(a: u64, ea: u32, b: u64, eb: u32) -> (r: bool)
    ensures
        r == (a * pow2(ea as nat) > b * pow2(eb as nat)),
{
    if ea >= eb {
        let d: u32 = ea - eb;
        proof {
            lemma_scaled(a as nat, b as nat, d as nat, eb as nat);
        }
        if a == 0 {
            return false;
        }
        if d >= 64 {
            proof {
                lemma_beyond(a as nat, b as nat, d as nat);
            }
            return true;
        }
        let wide = shifted(a, d);
        wide > b as u128
    } else {
        let d: u32 = eb - ea;
        proof {
            lemma_scaled(b as nat, a as nat, d as nat, ea as nat);
        }
        if b == 0 {
            return a > 0;
        }
        if d >= 64 {
            proof {
                lemma_beyond(b as nat, a as nat, d as nat);
            }
            return false;
        }
        let wide = shifted(b, d);
        (a as u128) > wide
    }
}

/// A number moved up by less than 64 bits.
fn shifted(a: u64, d: u32) -> (r: u128)
    requires
        d < 64,
    ensures
        r == a * pow2(d as nat),
{
    proof {
        lemma2_to64();
        lemma2_to64_rest();
        if d < 63 {
            lemma_pow2_strictly_increases(d as nat, 63);
        }
        vstd::bits::lemma_u64_shl_is_mul(1, d as u64);
    }
    let one: u64 = 1;
    let p: u64 = one << (d as u64);
    proof {
        assert(a * p <= u64::MAX * u64::MAX) by (nonlinear_arith)
            requires
                a <= u64::MAX,
                p <= u64::MAX,
        ;
    }
    (a as u128) * (p as u128)
}

/// A common power of two does not matter to the order.
proof fn lemma_scaled(a: nat, b: nat, d: nat, e: nat)
    ensures
        a * pow2(d + e) > b * pow2(e) <==> a * pow2(d) > b,
        b * pow2(e) > a * pow2(d + e) <==> b > a * pow2(d),
        d == 0 ==> pow2(d) == 1,
{
    lemma_pow2_adds(d, e);
    lemma_pow2_pos(e);
    lemma2_to64();
    let (x, y) = (a * pow2(d), pow2(e));
    assert(a * (pow2(d) * y) == x * y) by (nonlinear_arith)
        requires
            x == a * pow2(d),
    ;
    assert((x * y > b * y) == (x > b)) by (nonlinear_arith)
        requires
            y > 0,
    ;
    assert((b * y > x * y) == (b > x)) by (nonlinear_arith)
        requires
            y > 0,
    ;
}

/// A positive number moved up by 64 bits is beyond 64 bits.
proof fn lemma_beyond(a: nat, b: nat, d: nat)
    requires
        a > 0,
        b <= u64::MAX,
        d >= 64,
    ensures
        a * pow2(d) > b,
{
    lemma2_to64_rest();
    if d > 64 {
        lemma_pow2_strictly_increases(64, d);
    }
    assert(a * pow2(d) >= pow2(d)) by (nonlinear_arith)
        requires
            a >= 1,
    ;
}

/// The mantissa and the exponent of a float that is not negative.
fn parts_of(bits: u32) -> (r: (u64, u32))
    ensures
        r.0 == mantissa_of(bits),
        r.1 == exponent_of(bits),
        r.0 < 0x100_0000,
        1 <= r.1 <= 511,
{
    let field: u32 = bits / 0x80_0000;
    if field == 0 {
        ((bits % 0x80_0000) as u64, 1)
    } else {
        ((bits % 0x80_0000 + 0x80_0000) as u64, field)
    }
}

/// The float nearest to `m * 2^e / (d * 2^f)` units, found by bisection.
fn nearest_float_to(m: u64, e: u32, d: u64, f: u32) -> (r: u32)
    requires
        m <= 0x7fff_ffff_ffff_ffff,
        0 < d < 0x100_0000,
        e <= 1000,
        f <= 1000,
    ensures
        rounds_to(m as nat * pow2(e as nat), d as nat * pow2(f as nat), r),
{
    let ghost num: nat = m as nat * pow2(e as nat);
    let ghost den: nat = d as nat * pow2(f as nat);
    let mut low: u32 = 0;
    let mut high: u32 = INFINITY;
    while low < high
        invariant
            low <= high <= INFINITY,
            m <= 0x7fff_ffff_ffff_ffff,
            0 < d < 0x100_0000,
            e <= 1000,
            f <= 1000,
            num == m * pow2(e as nat),
            den == d * pow2(f as nat),
            low > 0 ==> past_middle(num, den, (low - 1) as u32),
            high < INFINITY ==> !past_middle(num, den, high),
        decreases high - low,
    {
        let r: u32 = low + (high - low) / 2;
        let (mantissa, exponent) = parts_of(r);
        proof {
            lemma_units_step(r);
            lemma_middle_scaled(r, d as nat, f as nat);
            lemma_pow2_unfold((e + 1) as nat);
            assert(2 * num == m * pow2((e + 1) as nat)) by (nonlinear_arith)
                requires
                    num == m * pow2(e as nat),
                    pow2((e + 1) as nat) == 2 * pow2(e as nat),
            ;
            assert((2 * mantissa + 1) * d <= 0x200_0000 * 0x100_0000) by (nonlinear_arith)
                requires
                    mantissa < 0x100_0000,
                    d < 0x100_0000,
            ;
        }
        let mid: u64 = (2 * mantissa + 1) * d;
        let past: bool = is_greater(m, e + 1, mid, exponent - 1 + f) || (r % 2 == 1
            && !is_greater(mid, exponent - 1 + f, m, e + 1));
        assert(past == past_middle(num, den, r));
        if past {
            low = r + 1;
        } else {
            high = r;
        }
    }
    low
}

/// The middle above a float, times a denominator.
proof fn lemma_middle_scaled(r: u32, d: nat, f: nat)
    requires
        r < INFINITY,
    ensures
        middle(r) * (d * pow2(f)) == ((2 * mantissa_of(r) + 1) * d) * pow2(
            (exponent_of(r) - 1 + f) as nat,
        ),
{
    lemma_units_step(r);
    let e = (exponent_of(r) - 1) as nat;
    lemma_pow2_adds(e, f);
    let (m, x, y) = ((2 * mantissa_of(r) + 1) as nat, pow2(e), pow2(f));
    assert((m * x) * (d * y) == (m * d) * (x * y)) by (nonlinear_arith);
}

/// A float that is far above another one by its exponent.
proof fn lemma_far_above(high: u32, low: u32)
    requires
        high < INFINITY,
        low < INFINITY,
        exponent_of(low) + 32 < exponent_of(high),
    ensures
        8 * units(low) < pow2((exponent_of(high) - 1) as nat),
        units(low) < units(high),
{
    let (e, f) = ((exponent_of(low) - 1) as nat, (exponent_of(high) - 1) as nat);
    lemma2_to64();
    lemma_pow2_adds(e, 32);
    lemma_pow2_pos(e);
    lemma_pow2_strictly_increases(e + 32, f);
    let m = mantissa_of(low);
    assert(8 * (m * pow2(e)) < pow2(e) * 0x1_0000_0000) by (nonlinear_arith)
        requires
            m < 0x100_0000,
            pow2(e) > 0,
    ;
    assert(low < high);
    lemma_units_increase(low, high);
}

/// The float nearest to the sum of two that are not negative.
fn sum_of_magnitudes(a: u32, b: u32) -> (r: u32)
    requires
        a < INFINITY,
        b < INFINITY,
    ensures
        r == nearest(units(a) + units(b), 1),
        r <= INFINITY,
{
    let (high, low): (u32, u32) = if a >= b {
        (a, b)
    } else {
        (b, a)
    };
    let (mh, eh) = parts_of(high);
    let (ml, el) = parts_of(low);
    if eh - el > 32 {
        proof {
            lemma_far_above(high, low);
            lemma_stays(high, units(high) + units(low));
            lemma_nearest(units(a) + units(b), 1, high);
        }
        return high;
    }
    let wide = aligned(mh, eh - el);
    let m: u64 = wide + ml;
    proof {
        lemma_aligned(high, low);
        let p = pow2((el - 1) as nat);
        assert(m * p == units(high) + units(low)) by (nonlinear_arith)
            requires
                m == wide + ml,
                units(high) == wide * p,
                units(low) == ml * p,
        ;
        lemma2_to64();
        assert(1 * pow2(0) == 1);
    }
    let r = nearest_float_to(m, el - 1, 1, 0);
    proof {
        lemma_nearest(units(a) + units(b), 1, r);
    }
    r
}

/// The float nearest to the difference of two that are not negative, the greater one first.
fn difference_of_magnitudes(high: u32, low: u32) -> (r: u32)
    requires
        low <= high < INFINITY,
    ensures
        r == nearest((units(high) - units(low)) as nat, 1),
        r <= INFINITY,
        units(low) <= units(high),
{
    proof {
        if low < high {
            lemma_units_increase(low, high);
        }
    }
    let (mh, eh) = parts_of(high);
    let (ml, el) = parts_of(low);
    if eh - el > 32 {
        proof {
            lemma_far_above(high, low);
            lemma_stays(high, (units(high) - units(low)) as nat);
            lemma_nearest((units(high) - units(low)) as nat, 1, high);
        }
        return high;
    }
    let wide = aligned(mh, eh - el);
    proof {
        lemma_aligned(high, low);
        lemma_pow2_pos((el - 1) as nat);
        let p = pow2((el - 1) as nat);
        assert(wide >= ml) by (nonlinear_arith)
            requires
                wide * p >= ml * p,
                p > 0,
        ;
        assert((wide - ml) * p == wide * p - ml * p) by (nonlinear_arith);
        lemma2_to64();
        assert(1 * pow2(0) == 1);
    }
    let r = nearest_float_to(wide - ml, el - 1, 1, 0);
    proof {
        lemma_nearest((units(high) - units(low)) as nat, 1, r);
    }
    r
}

/// A mantissa moved up by at most 32 bits.
fn aligned(m: u64, d: u32) -> (r: u64)
    requires
        m < 0x100_0000,
        d <= 32,
    ensures
        r == m * pow2(d as nat),
        r <= 0x100_0000_0000_0000,
{
    proof {
        lemma2_to64();
        if d < 32 {
            lemma_pow2_strictly_increases(d as nat, 32);
        }
        assert(m * pow2(d as nat) <= 0x100_0000 * 0x1_0000_0000) by (nonlinear_arith)
            requires
                m < 0x100_0000,
                pow2(d as nat) <= 0x1_0000_0000,
        ;
        vstd::bits::lemma_u64_shl_is_mul(m, d as u64);
    }
    m << (d as u64)
}

/// The greater of two floats in steps of the last place of the other.
proof fn lemma_aligned(high: u32, low: u32)
    requires
        exponent_of(low) <= exponent_of(high),
    ensures
        units(high) == (mantissa_of(high) * pow2((exponent_of(high) - exponent_of(low)) as nat))
            * pow2((exponent_of(low) - 1) as nat),
{
    let (d, e) = ((exponent_of(high) - exponent_of(low)) as nat, (exponent_of(low) - 1) as nat);
    lemma_pow2_adds(d, e);
    let (m, x, y) = (mantissa_of(high), pow2(d), pow2(e));
    assert(m * (x * y) == (m * x) * y) by (nonlinear_arith);
}

/// The sum of two floats.
pub fn add_floats(a: u32, b: u32) -> (r: u32)
    ensures
        r == float_sum(a, b),
{
    let (x, y): (u32, u32) = (a % 0x8000_0000, b % 0x8000_0000);
    if x > INFINITY || y > INFINITY {
        return NAN;
    }
    if x == INFINITY {
        return if y == INFINITY && a != b {
            NAN
        } else {
            a
        };
    }
    if y == INFINITY {
        return b;
    }
    let (negative_a, negative_b): (bool, bool) = (a >= 0x8000_0000, b >= 0x8000_0000);
    if negative_a == negative_b {
        let s = sum_of_magnitudes(x, y);
        if !negative_a {
            return s;
        }
        if x == 0 && y == 0 {
            proof {
                lemma_zero_units();
                lemma_float_is_nearest(0);
            }
            return 0;
        }
        proof {
            lemma_zero_units();
            if x > 0 {
                lemma_units_increase(0, x);
            }
            if y > 0 {
                lemma_units_increase(0, y);
            }
        }
        return s + 0x8000_0000;
    }
    if x >= y {
        let s = difference_of_magnitudes(x, y);
        if !negative_a {
            return s;
        }
        if x == y {
            proof {
                lemma_zero_units();
                lemma_float_is_nearest(0);
            }
            return 0;
        }
        proof {
            lemma_units_increase(y, x);
        }
        s + 0x8000_0000
    } else {
        let s = difference_of_magnitudes(y, x);
        if !negative_b {
            return s;
        }
        proof {
            lemma_units_increase(x, y);
        }
        s + 0x8000_0000
    }
}

/// Zero has no units.
pub proof fn lemma_zero_units()
    ensures
        units(0) == 0,
{
    lemma2_to64();
    assert(0 * pow2(0) == 0);
}

/// The quotient of a float by a positive one, both finite.
pub fn divide_floats(a: u32, b: u32) -> (r: u32)
    requires
        is_finite(a),
        0 < b < INFINITY,
    ensures
        r == float_quotient(a, b),
{
    let x: u32 = a % 0x8000_0000;
    let (ma, ea) = parts_of(x);
    let (mb, eb) = parts_of(b);
    assert(mb > 0);
    let q = nearest_float_to(ma, ea - 1 + 149, mb, eb - 1);
    proof {
        lemma_pow2_adds((ea - 1) as nat, 149);
        let (p, s) = (pow2((ea - 1) as nat), pow2(149));
        assert(ma * (p * s) == (ma * p) * s) by (nonlinear_arith);
        lemma_zero_units();
        lemma_units_increase(0, b);
        lemma_nearest(units(x) * pow2(149), units(b), q);
    }
    if a < 0x8000_0000 {
        q
    } else {
        q + 0x8000_0000
    }
}

/// Tells whether `draw` times `2^-24` is less than a float.
pub fn is_below(draw: u32, bits: u32) -> (r: bool)
    ensures
        r == draw_is_below(draw, bits),
{
    if bits > INFINITY {
        proof {
            lemma_pow2_pos(125);
            let p = pow2(125);
            assert(draw * p >= 0) by (nonlinear_arith)
                requires
                    draw >= 0,
                    p > 0,
            ;
        }
        return false;
    }
    let (m, e) = parts_of(bits);
    is_greater(m, e - 1, draw as u64, 125)
}

/// Whether `draw` times `2^-24` is less than a float.
pub open spec fn draw_is_below(draw: u32, bits: u32) -> bool {
    !is_nan(bits) && draw * pow2(125) < value(bits)
}

/// Up to the double of the least normal float, a float is as many units as its bit pattern says;
/// above, the same mantissa with the next exponent is twice as many.
pub proof fn lemma_what_bits_say(r: u32)
    ensures
        r <= 0x100_0000 ==> units(r) == r,
        0x80_0000 <= r <= INFINITY - 0x80_0000 ==> units((r + 0x80_0000) as u32) == 2 * units(r),
        units(0x3f80_0000) == pow2(149),
{
    lemma2_to64();
    if r == 0x100_0000 {
        assert(exponent_of(r) == 2 && mantissa_of(r) == 0x80_0000);
        assert(0x80_0000 * pow2(1) == 0x100_0000);
    } else if r < 0x100_0000 {
        assert(exponent_of(r) == 1 && mantissa_of(r) == r);
        assert(r * pow2(0) == r);
    }
    if 0x80_0000 <= r <= INFINITY - 0x80_0000 {
        let next = (r + 0x80_0000) as u32;
        assert(exponent_of(next) == exponent_of(r) + 1);
        assert(mantissa_of(next) == mantissa_of(r));
        lemma_pow2_unfold(exponent_of(r));
        let (m, p) = (mantissa_of(r), pow2((exponent_of(r) - 1) as nat));
        assert(m * (2 * p) == 2 * (m * p)) by (nonlinear_arith);
    }
    assert(exponent_of(0x3f80_0000) == 127 && mantissa_of(0x3f80_0000) == 0x80_0000);
    lemma_pow2_adds(23, 126);
}

/// No float is closer to a number than the one it is rounded to.
pub proof fn lemma_rounded_is_closest(num: nat, den: nat, r: u32, other: u32)
    requires
        den > 0,
        rounds_to(num, den, r),
        r < INFINITY,
        other <= INFINITY,
    ensures
        num - units(r) * den <= units(other) * den - num || num - units(r) * den <= num - units(
            other,
        ) * den,
        units(r) * den - num <= units(other) * den - num || units(r) * den - num <= num - units(
            other,
        ) * den,
{
    let u = units(r);
    let o = units(other);
    if other > r {
        let next = (r + 1) as u32;
        lemma_units_increase(r, next);
        if next < other {
            lemma_units_increase(next, other);
        }
        let n = units(next);
        assert(2 * num <= (u + n) * den);
        assert(num - u * den <= o * den - num && u * den - num <= o * den - num)
            by (nonlinear_arith)
            requires
                2 * num <= (u + n) * den,
                u <= n <= o,
                den > 0,
        ;
    } else if other < r {
        let before = (r - 1) as u32;
        lemma_units_increase(before, r);
        if other < before {
            lemma_units_increase(other, before);
        }
        let n = units(before);
        assert(2 * num >= (n + u) * den);
        assert(u * den - num <= num - o * den && num - u * den <= num - o * den)
            by (nonlinear_arith)
            requires
                2 * num >= (n + u) * den,
                o <= n <= u,
                den > 0,
        ;
    }
}

/// Of two equally near floats the even one is taken.
pub proof fn lemma_ties_are_even(num: nat, den: nat, r: u32)
    requires
        rounds_to(num, den, r),
    ensures
        r < INFINITY && 2 * num == (units(r) + units((r + 1) as u32)) * den ==> r % 2 == 0,
        r > 0 && 2 * num == (units(r) + units((r - 1) as u32)) * den ==> r % 2 == 0,
{
}

/// A common factor of numerator and denominator does not matter.
pub proof fn lemma_common_factor(num: nat, den: nat, k: nat, r: u32)
    requires
        k > 0,
    ensures
        rounds_to(num * k, den * k, r) == rounds_to(num, den, r),
{
    if r < INFINITY {
        lemma_common_factor_of_middle(num, den, k, r);
    }
    if r > 0 {
        lemma_common_factor_of_middle(num, den, k, (r - 1) as u32);
    }
}

proof fn lemma_common_factor_of_middle(num: nat, den: nat, k: nat, r: u32)
    requires
        k > 0,
    ensures
        past_middle(num * k, den * k, r) == past_middle(num, den, r),
{
    let m = middle(r);
    let (x, y) = (2 * num, m * den);
    assert(2 * (num * k) == x * k) by (nonlinear_arith)
        requires
            x == 2 * num,
    ;
    assert(m * (den * k) == y * k) by (nonlinear_arith)
        requires
            y == m * den,
    ;
    assert((x * k > y * k) == (x > y)) by (nonlinear_arith)
        requires
            k > 0,
    ;
    assert((x * k == y * k) == (x == y)) by (nonlinear_arith)
        requires
            k > 0,
    ;
}

/// The float of a positive whole number of 24 bits, given how far it can be moved up.
proof fn lemma_whole_float(v: nat, k: nat)
    requires
        0 < v <= 0x100_0000,
        v * pow2(k) < 0x100_0000 || k == 0,
        k <= 23,
    ensures
        exists|f: u32| f < INFINITY && #[trigger] units(f) == v * pow2(149),
    decreases 23 - k,
{
    lemma2_to64();
    let w = v * pow2(k);
    if v == 0x100_0000 {
        lemma_what_bits_say(0x3f80_0000);
        assert(exponent_of(0x4b80_0000) == 151 && mantissa_of(0x4b80_0000) == 0x80_0000);
        lemma_pow2_unfold(150);
        assert(units(0x4b80_0000) == v * pow2(149));
    } else if w >= 0x80_0000 {
        if k == 0 {
            assert(pow2(k) == 1);
            assert(v * 1 == v);
        }
        let f = ((150 - k) * 0x80_0000 + (w - 0x80_0000)) as u32;
        assert(exponent_of(f) == 150 - k && mantissa_of(f) == w);
        lemma_pow2_adds(k, (149 - k) as nat);
        let (a, b) = (pow2(k), pow2((149 - k) as nat));
        assert((v * a) * b == v * (a * b)) by (nonlinear_arith);
        assert(units(f) == v * pow2(149));
    } else {
        lemma_pow2_unfold(k + 1);
        let p = pow2(k);
        assert(v * (2 * p) == 2 * (v * p)) by (nonlinear_arith);
        if k == 23 {
            assert(v * p >= p) by (nonlinear_arith)
                requires
                    v >= 1,
            ;
        }
        lemma_whole_float(v, k + 1);
    }
}

/// Whole numbers of up to 24 bits are floats.
pub proof fn lemma_whole_numbers_are_floats(v: i64)
    requires
        0 <= v <= 0x100_0000,
    ensures
        nearest_float(v) < INFINITY,
        units(nearest_float(v)) == v * pow2(149),
        v == 1 ==> nearest_float(v) == 0x3f80_0000u32,
{
    reveal(nearest_float);
    lemma_zero_units();
    if v == 0 {
        lemma_float_is_nearest(0);
    } else {
        lemma2_to64();
        lemma_whole_float(v as nat, 0);
        let f = choose|f: u32| f < INFINITY && #[trigger] units(f) == v * pow2(149);
        lemma_float_is_nearest(f);
        if v == 1 {
            lemma_what_bits_say(0);
            lemma_float_is_nearest(0x3f80_0000);
        }
    }
}

/// The quotient of two whole numbers of up to 24 bits is rounded once.
pub proof fn lemma_quotient_of_wholes(a: i64, b: i64, r: u32)
    requires
        0 <= a <= 0x100_0000,
        0 < b <= 0x100_0000,
    ensures
        quotient_outcome(nearest_float(a), nearest_float(b), r) <==> rounds_to(
            a as nat * pow2(149),
            b as nat,
            r,
        ),
{
    reveal(quotient_outcome);
    lemma_whole_numbers_are_floats(a);
    lemma_whole_numbers_are_floats(b);
    lemma_zero_units();
    let p = pow2(149);
    lemma_pow2_pos(149);
    let (x, y) = (nearest_float(a), nearest_float(b));
    assert(b * p > 0) by (nonlinear_arith)
        requires
            b > 0,
            p > 0,
    ;
    assert(magnitude(x) == x && magnitude(y) == y);
    lemma_common_factor(a as nat * p, b as nat, p, magnitude(r));
}

/// A positive whole number over a greater one, both of up to 24 bits, is rounded to less than one.
pub proof fn lemma_proper_fraction(a: nat, b: nat, r: u32)
    requires
        a < b <= 0x100_0000,
        rounds_to(a * pow2(149), b, r),
    ensures
        r < 0x3f80_0000,
{
    let p = pow2(125);
    lemma2_to64();
    lemma_pow2_pos(125);
    lemma_pow2_adds(24, 125);
    assert(exponent_of(0x3f7f_ffff) == 126 && mantissa_of(0x3f7f_ffff) == 0xff_ffff);
    assert(a * (0x100_0000 * p) <= (0xff_ffff * p) * b) by (nonlinear_arith)
        requires
            a + 1 <= b <= 0x100_0000,
            p > 0,
    ;
    lemma_rounds_below(a * pow2(149), b, r, 0x3f7f_ffff);
}

/// Greater quotients are rounded to no lesser floats.
pub proof fn lemma_rounding_keeps_order(a: nat, b: nat, den: nat, x: u32, y: u32)
    requires
        a <= b,
        den > 0,
        rounds_to(a, den, x),
        rounds_to(b, den, y),
    ensures
        x <= y,
{
    if y < x {
        let c = (x - 1) as u32;
        lemma_nearest_not_below_middle(b, den, y, c);
        assert(past_middle(a, den, c));
    }
}

/// What is not past a middle is past no later one.
proof fn lemma_nearest_not_below_middle(num: nat, den: nat, a: u32, c: u32)
    requires
        den > 0,
        a <= c < INFINITY,
        !past_middle(num, den, a),
    ensures
        !past_middle(num, den, c),
        a < c ==> 2 * num < middle(c) * den,
{
    if a < c {
        lemma_units_increase(a, c);
        lemma_units_increase((a + 1) as u32, (c + 1) as u32);
        let (x, y) = (middle(a), middle(c));
        assert(x * den < y * den) by (nonlinear_arith)
            requires
                x < y,
                den > 0,
        ;
    }
}

/// What the sum of two finite floats is: the float nearest to the exact sum, with its sign.
pub proof fn lemma_what_sums_are(a: u32, b: u32)
    requires
        is_finite(a),
        is_finite(b),
    ensures
        value(a) + value(b) >= 0 ==> float_sum(a, b) < 0x8000_0000 && rounds_to(
            (value(a) + value(b)) as nat,
            1,
            float_sum(a, b),
        ),
        value(a) + value(b) < 0 ==> float_sum(a, b) >= 0x8000_0000 && rounds_to(
            (-(value(a) + value(b))) as nat,
            1,
            (float_sum(a, b) - 0x8000_0000) as u32,
        ),
{
    let v = value(a) + value(b);
    if v >= 0 {
        lemma_nearest_exists(v as nat, 1);
    } else {
        lemma_nearest_exists((-v) as nat, 1);
    }
}

/// What the quotient of a finite float by a positive one is: the float nearest to the exact
/// quotient, with the sign of the dividend. It is what division of tensors gives.
pub proof fn lemma_what_quotients_are(a: u32, b: u32)
    requires
        is_finite(a),
        0 < b < INFINITY,
    ensures
        (float_quotient(a, b) < 0x8000_0000) == (a < 0x8000_0000),
        rounds_to(
            units(magnitude(a)) * pow2(149),
            units(b),
            magnitude(float_quotient(a, b)),
        ),
        quotient_outcome(a, b, float_quotient(a, b)),
        forall|r: u32| #[trigger] quotient_outcome(a, b, r) ==> r == float_quotient(a, b),
{
    reveal(quotient_outcome);
    let num = units(magnitude(a)) * pow2(149);
    let q = nearest(num, units(b));
    lemma_nearest_exists(num, units(b));
    lemma_zero_units();
    lemma_units_increase(0, b);
    assert(magnitude(float_quotient(a, b)) == q);
    assert forall|r: u32| #[trigger] quotient_outcome(a, b, r) implies r == float_quotient(
        a,
        b,
    ) by {
        lemma_nearest_is_unique(num, units(b), magnitude(r), q);
    }
}

} // verus!
