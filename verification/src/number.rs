//! Double-precision numbers, held as their IEEE 754 bit patterns.
//!
//! A price, a volume or a probability reaches this library as 64 bits. What
//! the library does with one is compare it, so a bit pattern is all it needs:
//! the patterns of two numbers, read as sign and magnitude, order as the
//! numbers do.
use vstd::arithmetic::power2::{lemma_pow2_pos, lemma_pow2_unfold, pow2};
use vstd::prelude::*;

verus! {

/// The weight of the sign bit.
pub const SIGN: u64 = 0x8000_0000_0000_0000;

/// The magnitude of an infinity; a larger one is not a number.
pub const INFINITE: u64 = 0x7ff0_0000_0000_0000;

/// How many fractions share one exponent.
pub const FRACTIONS: u64 = 0x10_0000_0000_0000;

/// The bits of 1.0.
pub const ONE_BITS: u64 = 0x3ff0_0000_0000_0000;

/// The bits of 0.5.
pub const HALF_BITS: u64 = 0x3fe0_0000_0000_0000;

/// What a pattern without its sign bit stands for, counted in units of two to
/// the power -1074, the smallest step between two doubles. The pattern of an
/// infinity stands for a number above every finite one.
pub open spec fn magnitude_units(magnitude: int) -> int {
    let exponent = magnitude / FRACTIONS as int;
    let fraction = magnitude % FRACTIONS as int;
    if exponent == 0 {
        fraction
    } else {
        (FRACTIONS + fraction) * pow2((exponent - 1) as nat)
    }
}

/// A pattern without its sign bit.
pub open spec fn magnitude(bits: u64) -> int {
    if bits < SIGN {
        bits as int
    } else {
        bits - SIGN
    }
}

/// The number of a bit pattern in units of two to the power -1074, or `None`
/// for a pattern that is not a number.
pub open spec fn units(bits: u64) -> Option<int> {
    let size = magnitude(bits);
    if size > INFINITE {
        None
    } else if bits < SIGN {
        Some(magnitude_units(size))
    } else {
        Some(-magnitude_units(size))
    }
}

/// `a < b` as floating point has it: false where either is not a number.
pub open spec fn less(a: Option<int>, b: Option<int>) -> bool {
    a is Some && b is Some && a->0 < b->0
}

/// `a <= b` as floating point has it: false where either is not a number.
pub open spec fn at_most(a: Option<int>, b: Option<int>) -> bool {
    a is Some && b is Some && a->0 <= b->0
}

/// The larger of two numbers; beside something that is not a number, the other.
pub open spec fn larger(a: Option<int>, b: Option<int>) -> Option<int> {
    if a is None || less(a, b) {
        b
    } else {
        a
    }
}

/// The smaller of two numbers; beside something that is not a number, the other.
pub open spec fn smaller(a: Option<int>, b: Option<int>) -> Option<int> {
    if a is None || less(b, a) {
        b
    } else {
        a
    }
}

/// The number without its sign.
pub open spec fn absolute(a: Option<int>) -> Option<int> {
    match a {
        Some(x) => Some(if x < 0 { -x } else { x }),
        None => None,
    }
}

/// The number with its sign turned.
pub open spec fn negated(a: Option<int>) -> Option<int> {
    match a {
        Some(x) => Some(-x),
        None => None,
    }
}

/// How many units a whole number has.
pub open spec fn unit() -> int {
    pow2(1074) as int
}

/// A whole number.
pub open spec fn whole(n: int) -> Option<int> {
    Some(n * unit())
}

/// The whole part of a number, kept within 64 bits; zero for what is not a
/// number.
pub open spec fn truncated(a: Option<int>) -> int {
    match a {
        Some(u) => {
            let size = (if u < 0 { -u } else { u }) / unit();
            let part = if u < 0 { -size } else { size };
            if part > i64::MAX {
                i64::MAX as int
            } else if part < i64::MIN {
                i64::MIN as int
            } else {
                part
            }
        },
        None => 0,
    }
}

/// The whole part of a whole number is that number.
pub proof fn law_whole_numbers_stay(n: i64)
    ensures
        truncated(whole(n as int)) == n,
{
    lemma_pow2_pos(1074);
    let u = unit();
    let size = if n < 0 { -n } else { n as int };
    assert(n < 0 <==> n * u < 0) by (nonlinear_arith)
        requires
            u > 0,
    ;
    assert((if n * u < 0 { -(n * u) } else { n * u }) == size * u) by (nonlinear_arith)
        requires
            u > 0,
            size == if n < 0 { -n } else { n as int },
    ;
    vstd::arithmetic::div_mod::lemma_div_by_multiple(size, u);
}

/// A double-precision number.
#[derive(Clone, Copy, Debug, PartialEq, Eq, Structural)]
pub struct Double {
    pub bits: u64,
}

impl View for Double {
    type V = Option<int>;

    open spec fn view(&self) -> Option<int> {
        units(self.bits)
    }
}

proof fn lemma_magnitude_step(m: int)
    requires
        0 <= m,
    ensures
        0 <= magnitude_units(m) < magnitude_units(m + 1),
{
    let f = FRACTIONS as int;
    let e = m / f;
    let r = m % f;
    assert(0 <= r < f && m == e * f + r && e >= 0) by {
        vstd::arithmetic::div_mod::lemma_fundamental_div_mod(m, f);
        vstd::arithmetic::div_mod::lemma_mod_bound(m, f);
        vstd::arithmetic::div_mod::lemma_div_pos_is_pos(m, f);
        vstd::arithmetic::mul::lemma_mul_is_commutative(e, f);
    }
    if e > 0 {
        lemma_pow2_pos((e - 1) as nat);
        lemma_pow2_unfold(e as nat);
    }
    if r + 1 < f {
        assert((m + 1) / f == e && (m + 1) % f == r + 1) by {
            vstd::arithmetic::div_mod::lemma_fundamental_div_mod_converse(m + 1, f, e, r + 1);
        }
        if e > 0 {
            let p = pow2((e - 1) as nat) as int;
            assert(0 <= (f + r) * p < (f + r + 1) * p) by (nonlinear_arith)
                requires
                    p > 0,
                    f + r >= 0,
            ;
        }
    } else {
        assert((m + 1) / f == e + 1 && (m + 1) % f == 0) by {
            assert((e + 1) * f == e * f + f) by (nonlinear_arith);
            vstd::arithmetic::div_mod::lemma_fundamental_div_mod_converse(m + 1, f, e + 1, 0);
        }
        if e > 0 {
            let p = pow2((e - 1) as nat) as int;
            let q = pow2(e as nat) as int;
            assert(q == 2 * p);
            assert(0 <= (f + r) * p < (f + 0) * q) by (nonlinear_arith)
                requires
                    p > 0,
                    q == 2 * p,
                    f > 0,
                    0 <= r == f - 1,
            ;
        } else {
            vstd::arithmetic::power2::lemma2_to64();
            assert(pow2(0) == 1);
        }
    }
}

/// The magnitudes of two numbers order as their patterns without the sign bit.
pub proof fn lemma_magnitude_order(a: int, b: int)
    requires
        0 <= a <= b,
    ensures
        0 <= magnitude_units(a) <= magnitude_units(b),
        a < b ==> magnitude_units(a) < magnitude_units(b),
        magnitude_units(0) == 0,
    decreases b - a,
{
    lemma_magnitude_step(a);
    if a < b {
        lemma_magnitude_order(a, b - 1);
        lemma_magnitude_step(b - 1);
    }
    assert(0int / FRACTIONS as int == 0 && 0int % FRACTIONS as int == 0);
}

/// The signed magnitude by which numbers order.
pub open spec fn order_key(bits: u64) -> int {
    if bits < SIGN {
        magnitude(bits)
    } else {
        -magnitude(bits)
    }
}

/// Two patterns that are numbers order as their signed magnitudes do: an
/// integer comparison settles every comparison of doubles.
pub proof fn lemma_order_key(a: u64, b: u64)
    requires
        magnitude(a) <= INFINITE,
        magnitude(b) <= INFINITE,
    ensures
        units(a)->0 < units(b)->0 <==> order_key(a) < order_key(b),
        units(a)->0 == units(b)->0 <==> order_key(a) == order_key(b),
{
    let x = magnitude(a);
    let y = magnitude(b);
    if x <= y {
        lemma_magnitude_order(x, y);
    } else {
        lemma_magnitude_order(y, x);
    }
    lemma_magnitude_order(0, x);
    lemma_magnitude_order(0, y);
}

/// The whole part of a magnitude, by its exponent.
proof fn lemma_whole_part(size: u64)
    ensures
        ({
            let e = size / FRACTIONS;
            let s = (FRACTIONS + size % FRACTIONS) as u64;
            let part = magnitude_units(size as int) / unit();
            &&& e < 1023 ==> part == 0
            &&& 1023 <= e < 1075 ==> part == s >> ((1075 - e) as u64) && part < 0x20_0000_0000_0000
            &&& 1075 <= e < 1086 ==> part == s << ((e - 1075) as u64) && part
                < 0x8000_0000_0000_0000
            &&& e >= 1086 ==> part >= 0x8000_0000_0000_0000
        }),
{
    let e = (size / FRACTIONS) as int;
    let s = (FRACTIONS + size % FRACTIONS) as u64;
    let m = magnitude_units(size as int);
    vstd::arithmetic::power2::lemma2_to64();
    vstd::arithmetic::power2::lemma2_to64_rest();
    lemma_pow2_pos(1074);
    assert(pow2(52) == FRACTIONS);
    assert(pow2(53) == 2 * FRACTIONS);
    if e == 0 {
        assert(m < FRACTIONS);
        vstd::arithmetic::power2::lemma_pow2_strictly_increases(52, 1074);
        vstd::arithmetic::div_mod::lemma_basic_div(m, unit());
    } else {
        let p = pow2((e - 1) as nat) as int;
        lemma_pow2_pos((e - 1) as nat);
        assert(m == s * p);
        if e < 1023 {
            vstd::arithmetic::power2::lemma_pow2_adds(53, (e - 1) as nat);
            assert(s * p < 2 * FRACTIONS * p) by (nonlinear_arith)
                requires
                    s < 2 * FRACTIONS,
                    p > 0,
            ;
            assert(s * p >= 0) by (nonlinear_arith)
                requires
                    p > 0,
            ;
            if e + 52 < 1074 {
                vstd::arithmetic::power2::lemma_pow2_strictly_increases((e + 52) as nat, 1074);
            }
            vstd::arithmetic::div_mod::lemma_basic_div(m, unit());
        } else if e < 1075 {
            let d = (1075 - e) as nat;
            let q = pow2(d) as int;
            lemma_pow2_pos(d);
            vstd::arithmetic::power2::lemma_pow2_adds((e - 1) as nat, d);
            assert(unit() == p * q);
            assert(s * p >= 0) by (nonlinear_arith)
                requires
                    p > 0,
            ;
            vstd::arithmetic::div_mod::lemma_div_denominator(s * p, p, q);
            vstd::arithmetic::div_mod::lemma_div_by_multiple(s as int, p);
            vstd::bits::lemma_u64_shr_is_div(s, d as u64);
            vstd::arithmetic::div_mod::lemma_div_nonincreasing(s as int, q);
        } else {
            let k = (e - 1075) as nat;
            let q = pow2(k) as int;
            lemma_pow2_pos(k);
            vstd::arithmetic::power2::lemma_pow2_adds(k, 1074);
            assert(s * p == (s * q) * unit()) by (nonlinear_arith)
                requires
                    p == q * unit(),
            ;
            vstd::arithmetic::div_mod::lemma_div_by_multiple(s * q, unit());
            if k < 11 {
                if k < 10 {
                    vstd::arithmetic::power2::lemma_pow2_strictly_increases(k, 10);
                }
                assert(q <= 1024);
                assert(s * q < 0x8000_0000_0000_0000) by (nonlinear_arith)
                    requires
                        0 <= s < 0x20_0000_0000_0000,
                        0 < q <= 1024,
                ;
                vstd::bits::lemma_u64_shl_is_mul(s, k as u64);
            } else {
                if k > 11 {
                    vstd::arithmetic::power2::lemma_pow2_strictly_increases(11, k);
                }
                assert(q >= 2048);
                assert(s * q >= 0x8000_0000_0000_0000) by (nonlinear_arith)
                    requires
                        s >= 0x10_0000_0000_0000,
                        q >= 2048,
                ;
            }
        }
    }
}

impl Double {
    /// Whether the pattern is not a number.
    pub fn is_nan(self) -> (nan: bool)
        ensures
            nan == (self@ is None),
    {
        let size: u64 = if self.bits < SIGN { self.bits } else { self.bits - SIGN };
        size > INFINITE
    }

    fn key(self) -> (key: i64)
        requires
            self@ is Some,
        ensures
            key == order_key(self.bits),
    {
        if self.bits < SIGN {
            self.bits as i64
        } else {
            -((self.bits - SIGN) as i64)
        }
    }

    /// `self < other`.
    pub fn lt(self, other: Double) -> (yes: bool)
        ensures
            yes == less(self@, other@),
    {
        if self.is_nan() || other.is_nan() {
            return false;
        }
        proof {
            lemma_order_key(self.bits, other.bits);
        }
        self.key() < other.key()
    }

    /// `self <= other`.
    pub fn le(self, other: Double) -> (yes: bool)
        ensures
            yes == at_most(self@, other@),
    {
        if self.is_nan() || other.is_nan() {
            return false;
        }
        proof {
            lemma_order_key(self.bits, other.bits);
        }
        self.key() <= other.key()
    }

    /// The larger of the two.
    pub fn max(self, other: Double) -> (most: Double)
        ensures
            most@ == larger(self@, other@),
            most == self || most == other,
    {
        if self.is_nan() || self.lt(other) {
            other
        } else {
            self
        }
    }

    /// The smaller of the two.
    pub fn min(self, other: Double) -> (least: Double)
        ensures
            least@ == smaller(self@, other@),
            least == self || least == other,
    {
        if self.is_nan() || other.lt(self) {
            other
        } else {
            self
        }
    }

    /// The number without its sign.
    pub fn abs(self) -> (size: Double)
        ensures
            size@ == absolute(self@),
    {
        let bits: u64 = if self.bits < SIGN { self.bits } else { self.bits - SIGN };
        proof {
            if magnitude(self.bits) <= INFINITE {
                lemma_magnitude_order(0, magnitude(self.bits));
            }
        }
        Double { bits }
    }

    /// The number with its sign turned.
    pub fn neg(self) -> (turned: Double)
        ensures
            turned@ == negated(self@),
    {
        let bits: u64 = if self.bits < SIGN { self.bits + SIGN } else { self.bits - SIGN };
        Double { bits }
    }

    /// The whole part, kept within 64 bits.
    pub fn to_integer(self) -> (part: i64)
        ensures
            part == truncated(self@),
    {
        if self.is_nan() {
            return 0;
        }
        let size: u64 = if self.bits < SIGN { self.bits } else { self.bits - SIGN };
        let exponent: u64 = size / FRACTIONS;
        let significand: u64 = FRACTIONS + size % FRACTIONS;
        proof {
            lemma_magnitude_order(0, size as int);
            lemma_whole_part(size);
        }
        if exponent < 1023 {
            return 0;
        }
        if exponent >= 1086 {
            return if self.bits < SIGN { i64::MAX } else { i64::MIN };
        }
        let part: u64 = if exponent >= 1075 {
            significand << (exponent - 1075)
        } else {
            significand >> (1075 - exponent)
        };
        if self.bits < SIGN {
            part as i64
        } else {
            -(part as i64)
        }
    }

    /// Zero.
    pub fn zero() -> (zero: Double)
        ensures
            zero.bits == 0,
            zero@ == Some(0int),
    {
        proof {
            lemma_magnitude_order(0, 0);
        }
        Double { bits: 0 }
    }

    /// One.
    pub fn one() -> (one: Double)
        ensures
            one.bits == ONE_BITS,
    {
        Double { bits: ONE_BITS }
    }
}

/// Numbers compare as they are, and what is not a number compares with nothing.
pub proof fn law_numbers_compare_as_they_are(a: Double, b: Double)
    ensures
        a@ is Some && b@ is Some ==> (less(a@, b@) <==> a@->0 < b@->0),
        a@ is Some && b@ is Some ==> (at_most(a@, b@) <==> a@->0 <= b@->0),
        a@ is None || b@ is None ==> !less(a@, b@) && !at_most(a@, b@),
{
}

/// The larger of two is not below either, the smaller is not above either, and
/// each is one of the two; beside what is not a number it is the other one.
pub proof fn law_larger_and_smaller_bound_both(a: Option<int>, b: Option<int>)
    ensures
        a is Some && b is Some ==> larger(a, b) is Some && a->0 <= larger(a, b)->0 && b->0
            <= larger(a, b)->0,
        a is Some && b is Some ==> smaller(a, b) is Some && smaller(a, b)->0 <= a->0 && smaller(
            a,
            b,
        )->0 <= b->0,
        larger(a, b) == a || larger(a, b) == b,
        smaller(a, b) == a || smaller(a, b) == b,
        a is None ==> larger(a, b) == b && smaller(a, b) == b,
        b is None ==> larger(a, b) == a && smaller(a, b) == a,
{
}

/// A number without its sign is not below zero, and is the number or its
/// opposite; a number and its opposite add up to zero.
pub proof fn law_signs(x: int)
    ensures
        absolute(Some(x)) is Some,
        absolute(Some(x))->0 >= 0,
        absolute(Some(x))->0 == x || absolute(Some(x))->0 == -x,
        negated(Some(x)) is Some,
        negated(Some(x))->0 + x == 0,
        absolute(None) is None,
        negated(None) is None,
{
}

/// What patterns stand for: up to the second exponent a pattern counts the
/// units, and from the first on one exponent more doubles the number.
pub proof fn law_patterns_count_units(m: int)
    requires
        0 <= m,
    ensures
        m < 2 * FRACTIONS ==> magnitude_units(m) == m,
        m >= FRACTIONS ==> magnitude_units(m + FRACTIONS) == 2 * magnitude_units(m),
{
    let f = FRACTIONS as int;
    let e = m / f;
    let r = m % f;
    vstd::arithmetic::div_mod::lemma_fundamental_div_mod(m, f);
    vstd::arithmetic::div_mod::lemma_mod_bound(m, f);
    vstd::arithmetic::mul::lemma_mul_is_commutative(e, f);
    if m < 2 * f {
        vstd::arithmetic::power2::lemma2_to64();
        assert(pow2(0) == 1);
        if m < f {
            vstd::arithmetic::div_mod::lemma_fundamental_div_mod_converse(m, f, 0, m);
        } else {
            vstd::arithmetic::div_mod::lemma_fundamental_div_mod_converse(m, f, 1, m - f);
            assert(e == 1 && r == m - f);
            assert((f + r) * pow2(0) == f + r) by (nonlinear_arith)
                requires
                    pow2(0) == 1,
            ;
        }
    }
    if m >= f {
        assert(e >= 1) by {
            if e <= 0 {
                assert(e * f <= 0) by (nonlinear_arith)
                    requires
                        e <= 0,
                        f > 0,
                ;
            }
        }
        assert((e + 1) * f == e * f + f) by (nonlinear_arith);
        vstd::arithmetic::div_mod::lemma_fundamental_div_mod_converse(m + f, f, e + 1, r);
        lemma_pow2_unfold(e as nat);
        let p = pow2((e - 1) as nat) as int;
        assert((f + r) * (2 * p) == 2 * ((f + r) * p)) by (nonlinear_arith);
    }
}

/// The sign bit turns the sign, the pattern of zero is zero, and what lies above
/// an infinity is not a number.
pub proof fn law_patterns_have_a_sign(bits: u64)
    requires
        bits < SIGN,
    ensures
        bits <= INFINITE ==> units(bits) == Some(magnitude_units(bits as int)) && units(
            (bits + SIGN) as u64,
        ) == Some(-magnitude_units(bits as int)),
        bits > INFINITE ==> units(bits) is None && units((bits + SIGN) as u64) is None,
        (Double { bits })@ == units(bits),
{
}

/// The whole part of a number that is not below zero is the last whole number
/// that is not above it, that of its opposite is the opposite, and a number too
/// large for 64 bits is cut off there.
pub proof fn law_whole_part_is_near(u: int)
    requires
        0 <= u,
    ensures
        u < 0x8000_0000_0000_0000 * unit() ==> truncated(Some(u)) * unit() <= u < (truncated(
            Some(u),
        ) + 1) * unit(),
        u < 0x8000_0000_0000_0000 * unit() ==> truncated(Some(-u)) == -truncated(Some(u)),
        u >= 0x8000_0000_0000_0000 * unit() ==> truncated(Some(u)) == i64::MAX && truncated(
            Some(-u),
        ) == i64::MIN,
        truncated(None) == 0,
{
    lemma_pow2_pos(1074);
    let n = unit();
    let size = u;
    let q = size / n;
    let r = size % n;
    vstd::arithmetic::div_mod::lemma_fundamental_div_mod(size, n);
    vstd::arithmetic::div_mod::lemma_mod_bound(size, n);
    vstd::arithmetic::mul::lemma_mul_is_commutative(q, n);
    assert((q + 1) * n == q * n + n) by (nonlinear_arith);
    let m: int = 0x8000_0000_0000_0000;
    assert(q >= m ==> size >= m * n) by (nonlinear_arith)
        requires
            size == q * n + r,
            0 <= r < n,
    ;
    assert(q < m ==> size < m * n) by (nonlinear_arith)
        requires
            size == q * n + r,
            0 <= r < n,
    ;
    vstd::arithmetic::div_mod::lemma_div_pos_is_pos(size, n);
}

/// The patterns of one and of one half, and the unit of whole numbers.
pub proof fn law_one_and_one_half()
    ensures
        units(ONE_BITS) == whole(1),
        units(HALF_BITS) is Some && 2 * units(HALF_BITS)->0 == unit(),
        units(0) == whole(0),
{
    vstd::arithmetic::power2::lemma2_to64();
    vstd::arithmetic::power2::lemma2_to64_rest();
    vstd::arithmetic::power2::lemma_pow2_adds(52, 1021);
    vstd::arithmetic::power2::lemma_pow2_adds(52, 1022);
    lemma_pow2_unfold(1074);
    let f = FRACTIONS as int;
    vstd::arithmetic::div_mod::lemma_fundamental_div_mod_converse(HALF_BITS as int, f, 1022, 0);
    vstd::arithmetic::div_mod::lemma_fundamental_div_mod_converse(ONE_BITS as int, f, 1023, 0);
    assert(units(HALF_BITS) == Some(f * pow2(1021)));
    assert(units(ONE_BITS) == Some(f * pow2(1022)));
    lemma_magnitude_order(0, 0);
    assert(0 * unit() == 0);
}

} // verus!
