//! Rounding: to single precision, the doubles that a number of 32 bits can hold,
//! and of sums to double precision.
use crate::number::{
    lemma_magnitude_order, magnitude, magnitude_units, Double, FRACTIONS, INFINITE, SIGN,
};
use vstd::arithmetic::power2::{
    lemma2_to64, lemma2_to64_rest, lemma_pow2_adds, lemma_pow2_pos, lemma_pow2_strictly_increases,
    lemma_pow2_unfold, pow2,
};
use vstd::prelude::*;

verus! {

/// The step between two numbers with so many binary digits beside a magnitude:
/// the smallest power of two, from `e` on, of which the magnitude has fewer
/// than that many digits can count.
pub open spec fn step_from(size: int, e: nat, digits: nat) -> int
    decreases 2100 - e,
{
    if e >= 2100 || size < pow2(e + digits) {
        pow2(e) as int
    } else {
        step_from(size, e + 1, digits)
    }
}

/// The multiple of a step that is nearest to a magnitude; the even one of two
/// that are equally near.
pub open spec fn nearest(size: int, step: int) -> int {
    let below = size / step;
    let rest = size % step;
    if 2 * rest < step || (2 * rest == step && below % 2 == 0) {
        below * step
    } else {
        (below + 1) * step
    }
}

/// The magnitude of single precision that is nearest to a magnitude. The
/// smallest step is two to the power -149, and from two to the power 128 on
/// there are only infinities.
pub open spec fn single_size(size: int) -> int {
    let near = nearest(size, step_from(size, 925, 24));
    if near >= pow2(1202) {
        magnitude_units(INFINITE as int)
    } else {
        near
    }
}

/// The number of single precision that is nearest to a number.
pub open spec fn single(a: Option<int>) -> Option<int> {
    match a {
        Some(u) => Some(if u < 0 { -single_size(-u) } else { single_size(u) }),
        None => None,
    }
}

/// The magnitude of double precision that is nearest to a magnitude: from two
/// to the power 1024 on there are only infinities.
pub open spec fn double_size(size: int) -> int {
    let near = nearest(size, step_from(size, 0, 53));
    if near >= magnitude_units(INFINITE as int) {
        magnitude_units(INFINITE as int)
    } else {
        near
    }
}

/// Whether a number is an infinity.
pub open spec fn is_infinite(u: int) -> bool {
    u == magnitude_units(INFINITE as int) || u == -magnitude_units(INFINITE as int)
}

/// The sum of two doubles, rounded to the nearest double: an infinity stays, and
/// two that are opposite have no sum.
pub open spec fn rounded_sum(a: Option<int>, b: Option<int>) -> Option<int> {
    match (a, b) {
        (Some(x), Some(y)) => if is_infinite(x) && is_infinite(y) {
            if x == y {
                Some(x)
            } else {
                None
            }
        } else if is_infinite(x) {
            Some(x)
        } else if is_infinite(y) {
            Some(y)
        } else {
            Some(if x + y < 0 { -double_size(-(x + y)) } else { double_size(x + y) })
        },
        _ => None,
    }
}

proof fn lemma_step(size: int, e: nat, t: nat)
    requires
        e <= t < 2100,
        size < pow2(t + 24),
        e < t ==> size >= pow2(t + 23),
    ensures
        step_from(size, e, 24) == pow2(t),
    decreases t - e,
{
    if e < t {
        if e + 24 < t + 23 {
            lemma_pow2_strictly_increases(e + 24, t + 23);
        }
        lemma_step(size, e + 1, t);
    }
}

/// The nearest multiple, where the magnitude and the step share a factor.
proof fn lemma_nearest_scaled(s: int, p: int, d: int)
    requires
        s >= 0,
        p > 0,
        d > 0,
    ensures
        nearest(s * p, p * d) == nearest(s, d) * p,
        d > 0,
{
    let q = s / d;
    let r = s % d;
    vstd::arithmetic::div_mod::lemma_fundamental_div_mod(s, d);
    vstd::arithmetic::div_mod::lemma_mod_bound(s, d);
    assert(p * d > 0) by (nonlinear_arith)
        requires
            p > 0,
            d > 0,
    ;
    assert(s * p == q * (p * d) + r * p) by (nonlinear_arith)
        requires
            s == d * q + r,
    ;
    assert(0 <= r * p < p * d) by (nonlinear_arith)
        requires
            0 <= r < d,
            p > 0,
    ;
    vstd::arithmetic::div_mod::lemma_fundamental_div_mod_converse(s * p, p * d, q, r * p);
    assert(2 * (r * p) < p * d <==> 2 * r < d) by (nonlinear_arith)
        requires
            p > 0,
    ;
    assert(2 * (r * p) == p * d <==> 2 * r == d) by (nonlinear_arith)
        requires
            p > 0,
    ;
    assert(q * (p * d) == (q * d) * p) by (nonlinear_arith);
    assert((q + 1) * (p * d) == ((q + 1) * d) * p) by (nonlinear_arith);
}

/// The magnitude of a pattern whose fraction is a multiple of a power of two,
/// and of the pattern that is that power further on.
proof fn lemma_pattern_after(e: int, g: int, d: int, wide: int)
    requires
        e >= 1,
        0 <= g < FRACTIONS,
        d > 0,
        wide >= 0,
        g % d == 0,
        FRACTIONS == wide * d,
    ensures
        magnitude_units(e * FRACTIONS + g) == (FRACTIONS + g) * pow2((e - 1) as nat),
        magnitude_units(e * FRACTIONS + g + d) == (FRACTIONS + g + d) * pow2((e - 1) as nat),
{
    let f = FRACTIONS as int;
    vstd::arithmetic::div_mod::lemma_fundamental_div_mod_converse(e * f + g, f, e, g);
    let n = g / d;
    vstd::arithmetic::div_mod::lemma_fundamental_div_mod(g, d);
    assert(n < wide) by (nonlinear_arith)
        requires
            g == d * n,
            g < wide * d,
            d > 0,
    ;
    assert(g + d <= f) by (nonlinear_arith)
        requires
            g == d * n,
            n + 1 <= wide,
            f == wide * d,
            d > 0,
    ;
    if g + d < f {
        vstd::arithmetic::div_mod::lemma_fundamental_div_mod_converse(e * f + g + d, f, e, g + d);
    } else {
        assert((e + 1) * f == e * f + f) by (nonlinear_arith);
        vstd::arithmetic::div_mod::lemma_fundamental_div_mod_converse(
            e * f + g + d,
            f,
            e + 1,
            0,
        );
        lemma_pow2_unfold(e as nat);
        let p = pow2((e - 1) as nat) as int;
        assert(f * (2 * p) == (f + f) * p) by (nonlinear_arith);
    }
}

/// A pattern with its last bits rounded away.
fn round_pattern(size: u64, bits: u64) -> (rounded: u64)
    requires
        FRACTIONS <= size <= INFINITE,
        1 <= bits <= 52,
    ensures
        magnitude_units(rounded as int) == nearest(
            magnitude_units(size as int),
            pow2((size / FRACTIONS - 1 + bits) as nat) as int,
        ),
        rounded <= INFINITE + FRACTIONS,
{
    let one: u64 = 1;
    let step: u64 = one << bits;
    proof {
        lemma2_to64();
        lemma2_to64_rest();
        if bits < 52 {
            lemma_pow2_strictly_increases(bits as nat, 52);
        }
        assert(1 * pow2(bits as nat) == pow2(bits as nat));
        vstd::bits::lemma_u64_shl_is_mul(1, bits);
        lemma_pow2_pos(bits as nat);
    }
    let fraction: u64 = size % FRACTIONS;
    let rest: u64 = fraction % step;
    let below: u64 = size - rest;
    proof {
        let f = FRACTIONS as int;
        let d = step as int;
        let e = size / FRACTIONS;
        let s = f + fraction;
        let p = pow2((e - 1) as nat) as int;
        let wide = pow2((52 - bits) as nat) as int;
        lemma_pow2_pos((e - 1) as nat);
        lemma_pow2_adds((52 - bits) as nat, bits as nat);
        lemma_pow2_adds((e - 1) as nat, bits as nat);
        vstd::arithmetic::div_mod::lemma_fundamental_div_mod(size as int, f);
        vstd::arithmetic::mul::lemma_mul_is_commutative(e as int, f);
        let n = fraction as int / d;
        vstd::arithmetic::div_mod::lemma_fundamental_div_mod(fraction as int, d);
        vstd::arithmetic::div_mod::lemma_mod_bound(fraction as int, d);
        assert(s == (wide + n) * d + rest) by (nonlinear_arith)
            requires
                s == wide * d + fraction,
                fraction == d * n + rest,
        ;
        vstd::arithmetic::div_mod::lemma_fundamental_div_mod_converse(
            s,
            d,
            wide + n,
            rest as int,
        );
        let g = fraction - rest;
        assert(g == n * d) by (nonlinear_arith)
            requires
                fraction == d * n + rest,
                g == fraction - rest,
        ;
        vstd::arithmetic::div_mod::lemma_fundamental_div_mod_converse(g, d, n, 0);
        lemma_pattern_after(e as int, g, d, wide);
        lemma_nearest_scaled(s, p, d);
        assert(magnitude_units(size as int) == s * p);
        assert((wide + n) * d == f + g) by (nonlinear_arith)
            requires
                f == wide * d,
                g == n * d,
        ;
        assert((wide + n + 1) * d == f + g + d) by (nonlinear_arith)
            requires
                f == wide * d,
                g == n * d,
        ;
        assert(below == e * f + g);
        assert(s / d == wide + n);
    }
    let half: u64 = step / 2;
    proof {
        lemma_pow2_unfold(bits as nat);
    }
    if rest < half || (rest == half && ((FRACTIONS + fraction) / step) % 2 == 0) {
        below
    } else {
        below + step
    }
}

/// A magnitude too small for single precision, and the half of its smallest
/// step and what lies beyond it.
proof fn lemma_small(size: u64)
    requires
        size < 874 * FRACTIONS,
    ensures
        single_size(magnitude_units(size as int)) == (if size <= 873 * FRACTIONS {
            0
        } else {
            magnitude_units((874 * FRACTIONS) as int)
        }),
{
    let f = FRACTIONS as int;
    let half = 873 * FRACTIONS;
    let m = magnitude_units(size as int);
    lemma2_to64();
    lemma2_to64_rest();
    vstd::arithmetic::div_mod::lemma_fundamental_div_mod_converse(873 * f, f, 873, 0);
    vstd::arithmetic::div_mod::lemma_fundamental_div_mod_converse(874 * f, f, 874, 0);
    lemma_pow2_adds(52, 872);
    lemma_pow2_adds(52, 873);
    assert(magnitude_units(half) == pow2(924));
    assert(magnitude_units(874 * f) == pow2(925));
    lemma_pow2_unfold(925);
    lemma_magnitude_order(size as int, 874 * f);
    if size <= half {
        lemma_magnitude_order(size as int, half);
    } else {
        lemma_magnitude_order(half, size as int);
    }
    lemma_pow2_strictly_increases(925, 949);
    lemma_pow2_strictly_increases(925, 1202);
    lemma_step(m, 925, 925);
    lemma_pow2_pos(925);
    let step = pow2(925) as int;
    lemma_magnitude_order(0, size as int);
    vstd::arithmetic::div_mod::lemma_fundamental_div_mod_converse(m, step, 0, m);
    assert(0 * step == 0);
    assert((0 + 1) * step == step) by (nonlinear_arith);
}

proof fn lemma_large(size: u64)
    requires
        874 * FRACTIONS <= size <= INFINITE,
    ensures
        ({
            let e = size / FRACTIONS;
            step_from(magnitude_units(size as int), 925, 24) == (if e >= 897 {
                pow2((e + 28) as nat)
            } else {
                pow2(925)
            })
        }),
        874 <= size / FRACTIONS <= 2047,
        magnitude_units((1151 * FRACTIONS) as int) == pow2(1202),
{
    let f = FRACTIONS as int;
    let e = (size / FRACTIONS) as int;
    let m = magnitude_units(size as int);
    let s = f + size % FRACTIONS;
    let p = pow2((e - 1) as nat) as int;
    lemma2_to64();
    lemma2_to64_rest();
    lemma_pow2_pos((e - 1) as nat);
    lemma_pow2_adds(52, (e - 1) as nat);
    lemma_pow2_unfold((e + 52) as nat);
    assert(m == s * p);
    assert(f * p <= s * p < (2 * f) * p) by (nonlinear_arith)
        requires
            f <= s < 2 * f,
            p > 0,
    ;
    assert((2 * f) * p == 2 * (f * p)) by (nonlinear_arith);
    assert(pow2((e + 51) as nat) <= m < pow2((e + 52) as nat));
    if e >= 897 {
        lemma_step(m, 925, (e + 28) as nat);
    } else {
        if e + 52 < 949 {
            lemma_pow2_strictly_increases((e + 52) as nat, 949);
        }
        lemma_step(m, 925, 925);
    }
    vstd::arithmetic::div_mod::lemma_fundamental_div_mod_converse(1151 * f, f, 1151, 0);
    lemma_pow2_adds(52, 1150);
}

fn round_size(size: u64) -> (rounded: u64)
    requires
        size <= INFINITE,
    ensures
        rounded <= INFINITE,
        magnitude_units(rounded as int) == single_size(magnitude_units(size as int)),
{
    let exponent: u64 = size / FRACTIONS;
    if exponent < 874 {
        proof {
            lemma_small(size);
            lemma_magnitude_order(0, 0);
        }
        if size <= 873 * FRACTIONS {
            return 0;
        }
        return 874 * FRACTIONS;
    }
    proof {
        lemma_large(size);
    }
    let bits: u64 = if exponent >= 897 { 29 } else { 926 - exponent };
    let rounded: u64 = round_pattern(size, bits);
    proof {
        let limit = 1151 * FRACTIONS as int;
        if rounded < limit {
            lemma_magnitude_order(rounded as int, limit);
        } else {
            lemma_magnitude_order(limit, rounded as int);
        }
    }
    if rounded >= 1151 * FRACTIONS {
        INFINITE
    } else {
        rounded
    }
}

impl Double {
    /// The number of single precision that is nearest.
    pub fn to_single(self) -> (near: Double)
        ensures
            near@ == single(self@),
    {
        if self.is_nan() {
            return self;
        }
        let size: u64 = if self.bits < SIGN { self.bits } else { self.bits - SIGN };
        let rounded: u64 = round_size(size);
        proof {
            lemma_magnitude_order(0, size as int);
            lemma_magnitude_order(0, rounded as int);
            if size > 0 {
                lemma_magnitude_order(0, size as int);
            } else {
                lemma_single_zero();
            }
        }
        if self.bits < SIGN {
            Double { bits: rounded }
        } else {
            Double { bits: rounded + SIGN }
        }
    }
}

proof fn lemma_single_zero()
    ensures
        single_size(0) == 0,
{
    lemma_magnitude_order(0, 0);
    lemma_small(0);
}

/// The nearest multiple of a step: it is a multiple, at most half a step away,
/// and of two that are as near the even one.
pub proof fn law_nearest_is_near(size: int, step: int)
    requires
        0 <= size,
        step > 0,
    ensures
        nearest(size, step) % step == 0,
        2 * (nearest(size, step) - size) <= step,
        2 * (size - nearest(size, step)) <= step,
        2 * (nearest(size, step) - size) == step || 2 * (size - nearest(size, step)) == step ==> (
        nearest(size, step) / step) % 2 == 0,
{
    let q = size / step;
    let r = size % step;
    vstd::arithmetic::div_mod::lemma_fundamental_div_mod(size, step);
    vstd::arithmetic::div_mod::lemma_mod_bound(size, step);
    vstd::arithmetic::mul::lemma_mul_is_commutative(q, step);
    assert((q + 1) * step == q * step + step) by (nonlinear_arith);
    vstd::arithmetic::div_mod::lemma_mod_multiples_basic(q, step);
    vstd::arithmetic::div_mod::lemma_mod_multiples_basic(q + 1, step);
    vstd::arithmetic::div_mod::lemma_div_by_multiple(q, step);
    vstd::arithmetic::div_mod::lemma_div_by_multiple(q + 1, step);
}

proof fn lemma_some_step(size: int, e: nat, digits: nat) -> (t: nat)
    requires
        e <= 2100,
        size < pow2(2100 + digits),
    ensures
        e <= t <= 2100,
        step_from(size, e, digits) == pow2(t),
        size < pow2(t + digits),
        t > e ==> size >= pow2((t - 1 + digits) as nat),
    decreases 2100 - e,
{
    if e >= 2100 || size < pow2(e + digits) {
        e
    } else {
        let t = lemma_some_step(size, e + 1, digits);
        t
    }
}

/// The step beside a magnitude is a power of two, the smallest one allowed that
/// leaves the magnitude no more digits than there are.
pub proof fn law_steps_leave_so_many_digits(size: int, e: nat, digits: nat)
    requires
        0 <= size < pow2(2100),
        e <= 2100,
    ensures
        exists|t: nat|
            e <= t <= 2100 && step_from(size, e, digits) == #[trigger] pow2(t) && size < pow2(
                t + digits,
            ) && (t > e ==> size >= pow2((t - 1 + digits) as nat)),
{
    if digits > 0 {
        vstd::arithmetic::power2::lemma_pow2_strictly_increases(2100, 2100 + digits);
    }
    let t = lemma_some_step(size, e, digits);
    assert(step_from(size, e, digits) == pow2(t));
}

/// Single precision rounds both signs alike, keeps what is not a number, and
/// gives the nearest number with 24 digits, or an infinity from two to the power
/// 128 on.
pub proof fn law_single_precision_rounds_alike(u: int)
    requires
        0 < u,
    ensures
        single(Some(-u)) == (match single(Some(u)) {
            Some(x) => Some(-x),
            None => None,
        }),
        single(None) is None,
        ({
            let near = nearest(u, step_from(u, 925, 24));
            &&& near < pow2(1202) ==> single(Some(u)) == Some(near)
            &&& near >= pow2(1202) ==> single(Some(u)) == Some(magnitude_units(INFINITE as int))
        }),
{
}

} // verus!
