//! Binary64 numbers, held as their bit patterns, with the arithmetic of
//! IEEE 754: every result is the exact one rounded to nearest, ties to even.
//!
//! An operation that has no number for a result gives one and the same quiet
//! NaN, whatever its operands were.
use vstd::prelude::*;
use vstd::arithmetic::power2::lemma_pow2_adds;
use vstd::arithmetic::power2::lemma_pow2_pos;
use vstd::arithmetic::power2::pow2;
use crate::rounding::BINADE;
use crate::rounding::INFINITE;
use crate::rounding::SIGNIFICAND_BOUND;
use crate::rounding::bit_length;
use crate::rounding::lemma_encloses;
use crate::rounding::lemma_magnitude_parts;
use crate::rounding::lemma_pow2_ordered;
use crate::rounding::lemma_pow2_wide;
use crate::rounding::lemma_pow2_zero;
use crate::rounding::lemma_round_exact;
use crate::rounding::lemma_units_monotone;
use crate::rounding::magnitude_exponent;
use crate::rounding::magnitude_significand;
use crate::rounding::magnitude_units;
use crate::rounding::pack;
use crate::rounding::root;
use crate::rounding::root_to_magnitude;
use crate::rounding::round_to_magnitude;
use crate::rounding::two_to;

verus! {

broadcast use lemma_magnitude_parts;

/// The sign bit.
pub const SIGN: u64 = 0x8000_0000_0000_0000;

/// The NaN that every operation without a result gives.
pub const QUIET_NAN: u64 = 0x7ff8_0000_0000_0000;

/// The double nearest to the circumference of a circle of radius one.
pub const FULL_TURN: u64 = 0x4019_21fb_5444_2d18;

/// A binary64 number.
#[derive(Clone, Copy, Debug)]
pub struct Double {
    pub bits: u64,
}

impl Double {
    /// The sign bit is set.
    pub open spec fn negative(self) -> bool {
        self.bits >= SIGN
    }

    /// The bits without the sign.
    pub open spec fn magnitude(self) -> nat {
        if self.bits >= SIGN {
            (self.bits - SIGN) as nat
        } else {
            self.bits as nat
        }
    }

    pub open spec fn nan(self) -> bool {
        self.magnitude() > INFINITE
    }

    pub open spec fn infinite(self) -> bool {
        self.magnitude() == INFINITE
    }

    pub open spec fn finite(self) -> bool {
        self.magnitude() < INFINITE
    }

    pub open spec fn zero(self) -> bool {
        self.magnitude() == 0
    }

    /// The value of a finite number, in units of 2^-1074.
    pub open spec fn units(self) -> int {
        let u = magnitude_units(self.magnitude()) as int;
        if self.negative() {
            -u
        } else {
            u
        }
    }

    /// Where a number stands among the others: `a` is less than `b` when its rank is.
    pub open spec fn rank(self) -> int {
        if self.negative() {
            -self.magnitude()
        } else {
            self.magnitude() as int
        }
    }

    /// Positive zero.
    pub open spec fn nought() -> Double {
        of_parts(false, 0)
    }

    /// Positive infinity.
    pub open spec fn unbounded() -> Double {
        of_parts(false, INFINITE as nat)
    }

    /// A full turn, in radians.
    pub open spec fn full_turn() -> Double {
        Double { bits: FULL_TURN }
    }

    /// The double nearest to an integer.
    pub open spec fn of(n: nat) -> Double {
        of_integer(n)
    }

    /// The square root; of a negative number there is none.
    pub open spec fn root(self) -> Double {
        square_root(self)
    }

    /// Rounded up to an integer and clamped to what a `usize` holds; 0 for a NaN.
    pub open spec fn count(self) -> usize {
        count_of(self)
    }

    /// `a + b`.
    pub open spec fn spec_add(self, other: Double) -> Double {
        sum(self, other)
    }

    /// `a - b`.
    pub open spec fn spec_sub(self, other: Double) -> Double {
        sum(self, other.opposite())
    }

    /// `a * b`.
    pub open spec fn spec_mul(self, other: Double) -> Double {
        product(self, other)
    }

    /// `a / b`.
    pub open spec fn spec_euclidean_or_real_div(self, other: Double) -> Double {
        ratio(self, other)
    }

    /// The same magnitude with the other sign.
    pub open spec fn opposite(self) -> Double {
        of_parts(!self.negative(), self.magnitude())
    }

    /// The same magnitude without a sign.
    pub open spec fn size(self) -> Double {
        of_parts(false, self.magnitude())
    }

    /// `a < b`; false where either is a NaN.
    pub open spec fn below(self, other: Double) -> bool {
        !self.nan() && !other.nan() && self.rank() < other.rank()
    }

    /// `a <= b`; false where either is a NaN.
    pub open spec fn at_most(self, other: Double) -> bool {
        !self.nan() && !other.nan() && self.rank() <= other.rank()
    }

    /// `a == b`: the zeros are equal, and a NaN equals nothing.
    pub open spec fn same(self, other: Double) -> bool {
        !self.nan() && !other.nan() && self.rank() == other.rank()
    }

    /// The smaller of two; of a number and a NaN, the number.
    pub open spec fn lesser(self, other: Double) -> Double {
        if other.nan() || self.below(other) {
            self
        } else {
            other
        }
    }

    /// The larger of two; of a number and a NaN, the number.
    pub open spec fn greater(self, other: Double) -> Double {
        if other.nan() || other.below(self) {
            self
        } else {
            other
        }
    }
}

/// The number with this sign and magnitude.
pub open spec fn of_parts(negative: bool, magnitude: nat) -> Double {
    Double {
        bits: if negative {
            (magnitude + SIGN) as u64
        } else {
            magnitude as u64
        },
    }
}

pub open spec fn not_a_number() -> Double {
    Double { bits: QUIET_NAN }
}

#[verifier::opaque]
pub open spec fn sum(a: Double, b: Double) -> Double {
    if a.nan() || b.nan() || (a.infinite() && b.infinite() && a.negative() != b.negative()) {
        not_a_number()
    } else if a.infinite() {
        a
    } else if b.infinite() {
        b
    } else {
        let s = a.units() + b.units();
        if s == 0 {
            of_parts(a.negative() && b.negative(), 0)
        } else if s < 0 {
            of_parts(true, round_to_magnitude((-s) as nat, 1))
        } else {
            of_parts(false, round_to_magnitude(s as nat, 1))
        }
    }
}

#[verifier::opaque]
pub open spec fn product(a: Double, b: Double) -> Double {
    let negative = a.negative() != b.negative();
    if a.nan() || b.nan() || (a.infinite() && b.zero()) || (a.zero() && b.infinite()) {
        not_a_number()
    } else if a.infinite() || b.infinite() {
        of_parts(negative, INFINITE as nat)
    } else {
        let n = magnitude_units(a.magnitude())
            * magnitude_units(b.magnitude());
        of_parts(negative, round_to_magnitude(n, pow2(1074)))
    }
}

#[verifier::opaque]
pub open spec fn ratio(a: Double, b: Double) -> Double {
    let negative = a.negative() != b.negative();
    if a.nan() || b.nan() || (a.infinite() && b.infinite()) || (a.zero() && b.zero()) {
        not_a_number()
    } else if a.infinite() || b.zero() {
        of_parts(negative, INFINITE as nat)
    } else if b.infinite() {
        of_parts(negative, 0)
    } else {
        let n = magnitude_units(a.magnitude()) * pow2(1074);
        of_parts(
            negative,
            round_to_magnitude(
                n,
                magnitude_units(b.magnitude()),
            ),
        )
    }
}

/// The square root; of a negative number there is none.
#[verifier::opaque]
pub open spec fn square_root(a: Double) -> Double {
    if a.nan() || (a.negative() && !a.zero()) {
        not_a_number()
    } else if a.zero() || a.infinite() {
        a
    } else {
        let v = magnitude_units(a.magnitude()) * pow2(1074);
        of_parts(false, root_to_magnitude(v))
    }
}

/// The double nearest to an integer.
#[verifier::opaque]
pub open spec fn of_integer(n: nat) -> Double {
    of_parts(false, round_to_magnitude(n * pow2(1074), 1))
}

/// The least integer that is not below the value of a non-negative finite number.
pub open spec fn ceiling(a: Double) -> nat {
    let u = magnitude_units(a.magnitude());
    let one = pow2(1074);
    (u / one + if u % one == 0 { 0nat } else { 1 }) as nat
}

/// Rounded up to an integer and clamped to what a `usize` holds; 0 for a NaN.
#[verifier::opaque]
pub open spec fn count_of(a: Double) -> usize {
    if a.nan() || a.negative() {
        0
    } else if a.infinite() || ceiling(a) > usize::MAX {
        usize::MAX
    } else {
        ceiling(a) as usize
    }
}

impl PartialEq for Double {
    fn eq(&self, other: &Double) -> (r: bool) {
        self.is(*other)
    }
}

impl vstd::std_specs::cmp::PartialEqSpecImpl for Double {
    open spec fn obeys_eq_spec() -> bool {
        true
    }

    open spec fn eq_spec(&self, other: &Double) -> bool {
        self.same(*other)
    }
}

impl core::ops::Add for Double {
    type Output = Double;

    fn add(self, other: Double) -> (r: Double) {
        self.plus(other)
    }
}

impl vstd::std_specs::ops::AddSpecImpl for Double {
    open spec fn obeys_add_spec() -> bool {
        true
    }

    open spec fn add_req(self, other: Double) -> bool {
        true
    }

    open spec fn add_spec(self, other: Double) -> Double {
        self + other
    }
}

impl core::ops::Sub for Double {
    type Output = Double;

    fn sub(self, other: Double) -> (r: Double) {
        self.plus(other.negated())
    }
}

impl vstd::std_specs::ops::SubSpecImpl for Double {
    open spec fn obeys_sub_spec() -> bool {
        true
    }

    open spec fn sub_req(self, other: Double) -> bool {
        true
    }

    open spec fn sub_spec(self, other: Double) -> Double {
        self - other
    }
}

impl core::ops::Mul for Double {
    type Output = Double;

    fn mul(self, other: Double) -> (r: Double) {
        self.times(other)
    }
}

impl vstd::std_specs::ops::MulSpecImpl for Double {
    open spec fn obeys_mul_spec() -> bool {
        true
    }

    open spec fn mul_req(self, other: Double) -> bool {
        true
    }

    open spec fn mul_spec(self, other: Double) -> Double {
        self * other
    }
}

impl core::ops::Div for Double {
    type Output = Double;

    fn div(self, other: Double) -> (r: Double) {
        self.over(other)
    }
}

impl vstd::std_specs::ops::DivSpecImpl for Double {
    open spec fn obeys_div_spec() -> bool {
        true
    }

    open spec fn div_req(self, other: Double) -> bool {
        true
    }

    open spec fn div_spec(self, other: Double) -> Double {
        self / other
    }
}

/// The number with this sign and magnitude.
fn assemble(negative: bool, magnitude: u64) -> (r: Double)
    requires
        magnitude < SIGN,
    ensures
        r == of_parts(negative, magnitude as nat),
{
    Double { bits: if negative { magnitude + SIGN } else { magnitude } }
}

/// The significand and the exponent of a magnitude.
fn split(b: u64) -> (r: (u64, u32))
    requires
        b < INFINITE,
    ensures
        r.0 == magnitude_significand(b as nat),
        r.1 == magnitude_exponent(b as nat),
        r.0 < SIGNIFICAND_BOUND,
        r.1 <= 2045,
        r.1 > 0 ==> r.0 >= BINADE,
        r.0 == 0 <==> b == 0,
{
    if b < BINADE {
        (b, 0)
    } else {
        let k: u64 = b / BINADE - 1;
        proof {
            vstd::arithmetic::div_mod::lemma_fundamental_div_mod(b as int, BINADE as int);
        }
        (b - k * BINADE, k as u32)
    }
}

impl Double {
    /// Positive zero.
    pub fn zeroed() -> (r: Double)
        ensures
            r == Double::nought(),
    {
        Double { bits: 0 }
    }

    /// Positive infinity.
    pub fn infinity() -> (r: Double)
        ensures
            r == Double::unbounded(),
    {
        Double { bits: INFINITE }
    }

    /// A full turn, in radians.
    pub fn tau() -> (r: Double)
        ensures
            r == Double::full_turn(),
    {
        Double { bits: FULL_TURN }
    }

    fn has_sign(self) -> (r: bool)
        ensures
            r == self.negative(),
    {
        self.bits >= SIGN
    }

    fn without_sign(self) -> (r: u64)
        ensures
            r == self.magnitude(),
            r < SIGN,
    {
        if self.bits >= SIGN {
            self.bits - SIGN
        } else {
            self.bits
        }
    }

    pub fn is_nan(self) -> (r: bool)
        ensures
            r == self.nan(),
    {
        self.without_sign() > INFINITE
    }

    /// `a == b`.
    pub fn is(self, other: Double) -> (r: bool)
        ensures
            r == self.same(other),
    {
        !self.is_nan() && !other.is_nan() && (self.bits == other.bits || (self.without_sign() == 0
            && other.without_sign() == 0))
    }

    /// `a < b`.
    pub fn is_below(self, other: Double) -> (r: bool)
        ensures
            r == self.below(other),
    {
        let a: u64 = self.without_sign();
        let b: u64 = other.without_sign();
        if self.is_nan() || other.is_nan() {
            false
        } else if self.has_sign() {
            if other.has_sign() {
                b < a
            } else {
                a > 0 || b > 0
            }
        } else {
            !other.has_sign() && a < b
        }
    }

    /// `a <= b`.
    pub fn is_at_most(self, other: Double) -> (r: bool)
        ensures
            r == self.at_most(other),
    {
        self.is_below(other) || self.is(other)
    }

    /// The smaller of two; of a number and a NaN, the number.
    pub fn min(self, other: Double) -> (r: Double)
        ensures
            r == self.lesser(other),
    {
        if other.is_nan() || self.is_below(other) {
            self
        } else {
            other
        }
    }

    /// The larger of two; of a number and a NaN, the number.
    pub fn max(self, other: Double) -> (r: Double)
        ensures
            r == self.greater(other),
    {
        if other.is_nan() || other.is_below(self) {
            self
        } else {
            other
        }
    }

    /// The same magnitude with the other sign.
    pub fn negated(self) -> (r: Double)
        ensures
            r == self.opposite(),
    {
        assemble(!self.has_sign(), self.without_sign())
    }

    /// The same magnitude without a sign.
    pub fn abs(self) -> (r: Double)
        ensures
            r == self.size(),
    {
        assemble(false, self.without_sign())
    }

    fn times(self, other: Double) -> (r: Double)
        ensures
            r == self * other,
    {
        proof {
            reveal(product);
        }
        let negative = self.has_sign() != other.has_sign();
        let a: u64 = self.without_sign();
        let b: u64 = other.without_sign();
        if a > INFINITE || b > INFINITE || (a == INFINITE && b == 0) || (a == 0 && b == INFINITE) {
            Double { bits: QUIET_NAN }
        } else if a == INFINITE || b == INFINITE {
            assemble(negative, INFINITE)
        } else {
            assemble(negative, multiply(a, b))
        }
    }

    fn over(self, other: Double) -> (r: Double)
        ensures
            r == self / other,
    {
        proof {
            reveal(ratio);
        }
        let negative = self.has_sign() != other.has_sign();
        let a: u64 = self.without_sign();
        let b: u64 = other.without_sign();
        if a > INFINITE || b > INFINITE || (a == INFINITE && b == INFINITE) || (a == 0 && b == 0) {
            Double { bits: QUIET_NAN }
        } else if a == INFINITE || b == 0 {
            assemble(negative, INFINITE)
        } else if b == INFINITE {
            assemble(negative, 0)
        } else {
            assemble(negative, divide(a, b))
        }
    }
}

/// The magnitude of zero, as the rounding of no units.
pub proof fn lemma_round_zero(d: nat)
    requires
        d > 0,
    ensures
        round_to_magnitude(0, d) == 0,
{
    lemma_round_exact(0, d);
    lemma_units_zero(0);
    assert(magnitude_units(0) * d == 0) by (nonlinear_arith)
        requires
            magnitude_units(0) == 0,
    ;
}

/// The product of two finite magnitudes.
fn multiply(a: u64, b: u64) -> (r: u64)
    requires
        a < INFINITE,
        b < INFINITE,
    ensures
        r == round_to_magnitude(
            magnitude_units(a as nat) * magnitude_units(b as nat),
            pow2(1074),
        ),
        r <= INFINITE,
{
    let (m1, k1) = split(a);
    let (m2, k2) = split(b);
    let ghost ua = magnitude_units(a as nat);
    let ghost ub = magnitude_units(b as nat);
    let ghost p1 = pow2(k1 as nat);
    let ghost p2 = pow2(k2 as nat);
    if m1 == 0 || m2 == 0 {
        proof {
            lemma_pow2_pos(1074);
            lemma_round_zero(pow2(1074));
            assert(ua * ub == 0) by (nonlinear_arith)
                requires
                    ua == m1 * p1,
                    ub == m2 * p2,
                    m1 == 0 || m2 == 0,
            ;
        }
        return 0;
    }
    assert(0 < m1 * m2 < 0x400_0000_0000_0000_0000_0000_0000) by (nonlinear_arith)
        requires
            0 < m1 < SIGNIFICAND_BOUND,
            0 < m2 < SIGNIFICAND_BOUND,
    ;
    let m: u128 = m1 as u128 * m2 as u128;
    let s: i32 = k1 as i32 + k2 as i32 - 1074;
    proof {
        vstd::arithmetic::power2::lemma2_to64();
        lemma_pow2_adds(k1 as nat, k2 as nat);
        assert(ua * ub == m * pow2((k1 + k2) as nat)) by (nonlinear_arith)
            requires
                ua == m1 * p1,
                ub == m2 * p2,
                m == m1 * m2,
                pow2((k1 + k2) as nat) == p1 * p2,
        ;
        assert(1 * pow2(1074) == pow2(1074));
        assert(m == m * (1 * pow2(0))) by (nonlinear_arith)
            requires
                pow2(0) == 1,
        ;
        lemma_encloses(
            m as nat,
            false,
            m as nat,
            1,
            0,
            (k1 + k2) as nat,
            1074,
        );
        lemma_pow2_pos(1074);
    }
    pack(m, s, false, Ghost(ua * ub), Ghost(pow2(1074)))
}

/// The quotient of two finite magnitudes, the divisor not zero.
fn divide(a: u64, b: u64) -> (r: u64)
    requires
        a < INFINITE,
        0 < b < INFINITE,
    ensures
        r == round_to_magnitude(
            magnitude_units(a as nat) * pow2(1074),
            magnitude_units(b as nat),
        ),
        r <= INFINITE,
{
    let (m1, k1) = split(a);
    let (m2, k2) = split(b);
    let ghost ua = magnitude_units(a as nat);
    let ghost ub = magnitude_units(b as nat);
    let ghost p1 = pow2(k1 as nat);
    let ghost p2 = pow2(k2 as nat);
    proof {
        lemma_pow2_pos(k2 as nat);
        assert(ub > 0) by (nonlinear_arith)
            requires
                ub == m2 * p2,
                m2 > 0,
                p2 > 0,
        ;
    }
    if m1 == 0 {
        proof {
            lemma_round_zero(ub);
            assert(ua * pow2(1074) == 0) by (nonlinear_arith)
                requires
                    ua == m1 * p1,
                    m1 == 0,
            ;
        }
        return 0;
    }
    let len: u32 = bit_length(m1 as u128);
    proof {
        lemma_pow2_wide();
        if len > 53 {
            lemma_pow2_ordered(53, (len - 1) as nat);
        }
    }
    let j: u32 = 116 - len;
    let scale: u128 = two_to(j);
    proof {
        lemma_pow2_adds(len as nat, j as nat);
        lemma_pow2_adds((len - 1) as nat, j as nat);
        lemma_pow2_adds(116, 4);
        lemma_pow2_adds(60, 55);
        lemma_pow2_pos(j as nat);
        vstd::arithmetic::power2::lemma2_to64();
        vstd::arithmetic::power2::lemma2_to64_rest();
        assert(pow2(115) <= m1 * scale < pow2(116)) by (nonlinear_arith)
            requires
                pow2((len - 1) as nat) <= m1 < pow2(len as nat),
                pow2(116) == pow2(len as nat) * scale,
                pow2(115) == pow2((len - 1) as nat) * scale,
                scale > 0,
        ;
    }
    let x: u128 = m1 as u128 * scale;
    let q: u128 = x / m2 as u128;
    let rest: u128 = x % m2 as u128;
    let s: i32 = k1 as i32 + 1074 - j as i32 - k2 as i32;
    proof {
        let e = (k1 + 1074 - j) as nat;
        vstd::arithmetic::div_mod::lemma_fundamental_div_mod(x as int, m2 as int);
        assert(q >= 2 * SIGNIFICAND_BOUND) by (nonlinear_arith)
            requires
                x == m2 * q + rest,
                0 <= rest < m2,
                m2 < SIGNIFICAND_BOUND,
                x >= 0x8_0000_0000_0000_0000_0000_0000_0000,
        ;
        assert(q <= x) by (nonlinear_arith)
            requires
                x == m2 * q + rest,
                0 <= rest,
                m2 > 0,
        ;
        assert(m2 * (1 * pow2(0)) == m2);
        assert(m2 as nat * pow2(0) == m2);
        assert(q * m2 == m2 * q) by (nonlinear_arith);
        assert((q + 1) * m2 == m2 * q + m2) by (nonlinear_arith);
        lemma_encloses(q as nat, rest > 0, x as nat, m2 as nat, 0, e, k2 as nat);
        lemma_pow2_adds(k1 as nat, 1074);
        lemma_pow2_adds(j as nat, e);
        assert(ua * pow2(1074) == x * pow2(e)) by (nonlinear_arith)
            requires
                ua == m1 * p1,
                x == m1 * scale,
                p1 * pow2(1074) == scale * pow2(e),
        ;
    }
    pack(q, s, rest > 0, Ghost(ua * pow2(1074)), Ghost(ub))
}

/// The sum of two finite magnitudes, or what is left of the larger one when the
/// smaller is taken away.
fn combine(a: u64, b: u64, less: bool) -> (r: u64)
    requires
        b <= a < INFINITE,
        less ==> b < a,
    ensures
        r == round_to_magnitude(
            (magnitude_units(a as nat) + if less {
                -magnitude_units(b as nat)
            } else {
                magnitude_units(b as nat) as int
            }) as nat,
            1,
        ),
        r <= INFINITE,
{
    let (m1, k1) = split(a);
    let (m2, k2) = split(b);
    let ghost ua = magnitude_units(a as nat);
    let ghost ub = magnitude_units(b as nat);
    let ghost p1 = pow2(k1 as nat);
    let ghost p2 = pow2(k2 as nat);
    proof {
        vstd::arithmetic::power2::lemma2_to64();
        lemma_pow2_wide();
        lemma_pow2_pos(k2 as nat);
        if k1 < k2 {
            assert(k1 * BINADE + m1 < k2 * BINADE + m2);
        }
        if b < a {
            lemma_units_monotone(b as nat, a as nat);
        }
    }
    let gap: u32 = k1 - k2;
    let ghost x = if less {
        m1 * pow2(gap as nat) - m2
    } else {
        m1 * pow2(gap as nat) + m2
    };
    let ghost n = if less {
        (ua - ub) as nat
    } else {
        ua + ub
    };
    proof {
        lemma_pow2_adds(gap as nat, k2 as nat);
        assert(ua == (m1 * pow2(gap as nat)) * p2) by (nonlinear_arith)
            requires
                ua == m1 * p1,
                p1 == pow2(gap as nat) * p2,
        ;
        assert(n == x * p2) by (nonlinear_arith)
            requires
                ua == (m1 * pow2(gap as nat)) * p2,
                ub == m2 * p2,
                less && x == m1 * pow2(gap as nat) - m2 && n == ua - ub || !less && x == m1 * pow2(
                    gap as nat,
                ) + m2 && n == ua + ub,
        ;
        assert(x >= 0 && (less ==> x > 0)) by (nonlinear_arith)
            requires
                n == x * p2,
                n >= 0,
                less ==> n > 0,
                p2 > 0,
        ;
        assert(1 * pow2(0) == 1);
    }
    if gap <= 64 {
        let scale: u128 = two_to(gap);
        proof {
            lemma_pow2_ordered(gap as nat, 64);
            assert(0 <= m1 * scale < 0x20_0000_0000_0000_0000_0000_0000_0000) by (nonlinear_arith)
                requires
                    0 <= m1 < SIGNIFICAND_BOUND,
                    0 <= scale <= 0x1_0000_0000_0000_0000,
            ;
        }
        let wide: u128 = m1 as u128 * scale;
        let m: u128 = if less {
            wide - m2 as u128
        } else {
            wide + m2 as u128
        };
        if m == 0 {
            proof {
                lemma_round_zero(1);
                assert(n == 0) by (nonlinear_arith)
                    requires
                        n == x * p2,
                        x == 0,
                ;
            }
            return 0;
        }
        proof {
            assert(m == m * (1 * pow2(0)));
            lemma_encloses(m as nat, false, m as nat, 1, 0, k2 as nat, 0);
        }
        pack(m, k2 as i32, false, Ghost(n), Ghost(1))
    } else if m2 == 0 {
        proof {
            assert(n == m1 * p1);
            assert(m1 == m1 * (1 * pow2(0)));
            lemma_encloses(m1 as nat, false, m1 as nat, 1, 0, k1 as nat, 0);
        }
        pack(m1 as u128, k1 as i32, false, Ghost(n), Ghost(1))
    } else {
        let m: u128 = if less {
            m1 as u128 * 1024 - 1
        } else {
            m1 as u128 * 1024
        };
        proof {
            let g = (gap - 10) as nat;
            lemma_pow2_adds(10, g);
            let pg = pow2(g);
            lemma_pow2_ordered(54, g);
            assert(pg > m2);
            assert(m1 * pow2(gap as nat) == (m1 * 1024) * pg) by (nonlinear_arith)
                requires
                    pow2(gap as nat) == 1024 * pg,
            ;
            let all = (m1 * 1024) * pg;
            assert(m * (1 * pg) == if less { all - pg } else { all }) by (nonlinear_arith)
                requires
                    m == if less { m1 * 1024 - 1 } else { m1 * 1024 },
                    all == (m1 * 1024) * pg,
            ;
            assert((m + 1) * (1 * pg) == if less { all } else { all + pg }) by (nonlinear_arith)
                requires
                    m == if less { m1 * 1024 - 1 } else { m1 * 1024 },
                    all == (m1 * 1024) * pg,
            ;
            lemma_encloses(m as nat, true, x as nat, 1, g, k2 as nat, 0);
        }
        pack(m, k1 as i32 - 10, true, Ghost(n), Ghost(1))
    }
}

impl Double {
    fn plus(self, other: Double) -> (r: Double)
        ensures
            r == self + other,
    {
        proof {
            reveal(sum);
        }
        let a: u64 = self.without_sign();
        let b: u64 = other.without_sign();
        let opposed = self.has_sign() != other.has_sign();
        if a > INFINITE || b > INFINITE || (a == INFINITE && b == INFINITE && opposed) {
            return Double { bits: QUIET_NAN };
        }
        if a == INFINITE {
            return self;
        }
        if b == INFINITE {
            return other;
        }
        proof {
            if a < b {
                lemma_units_monotone(a as nat, b as nat);
            }
            if b < a {
                lemma_units_monotone(b as nat, a as nat);
            }
            lemma_units_zero(a as nat);
            lemma_units_zero(b as nat);
        }
        if a == b && (opposed || a == 0) {
            return assemble(self.has_sign() && other.has_sign(), 0);
        }
        if a >= b {
            assemble(self.has_sign(), combine(a, b, opposed))
        } else {
            assemble(other.has_sign(), combine(b, a, opposed))
        }
    }
}

pub proof fn lemma_units_zero(b: nat)
    ensures
        magnitude_units(b) == 0 <==> b == 0,
{
    if b > 0 {
        lemma_units_monotone(0, b);
    }
    assert(magnitude_units(0) == 0) by (nonlinear_arith)
        requires
            magnitude_significand(0) == 0,
            magnitude_units(0) == magnitude_significand(0) * pow2(
                magnitude_exponent(0),
            ),
    ;
}

impl Double {
    /// The square root; of a negative number there is none.
    pub fn sqrt(self) -> (r: Double)
        ensures
            r == self.root(),
    {
        proof {
            reveal(square_root);
        }
        let a: u64 = self.without_sign();
        if a > INFINITE || (self.has_sign() && a != 0) {
            return Double { bits: QUIET_NAN };
        }
        if a == 0 || a == INFINITE {
            return self;
        }
        let (m, k) = split(a);
        proof {
            lemma_pow2_adds(k as nat, 1074);
            let p = pow2(k as nat);
            let q = pow2(1074);
            assert((m * p) * q == m * (p * q)) by (nonlinear_arith);
        }
        assemble(false, root(m, k + 1074))
    }

    /// The double nearest to an integer.
    pub fn from_integer(n: u64) -> (r: Double)
        ensures
            r == Double::of(n as nat),
    {
        proof {
            reveal(of_integer);
        }
        if n == 0 {
            proof {
                lemma_round_zero(1);
                assert(0nat * pow2(1074) == 0) by (nonlinear_arith);
            }
            return Double { bits: 0 };
        }
        proof {
            lemma_pow2_zero();
            assert(1 * pow2(0) == 1);
            assert(n == n * (1 * pow2(0))) by (nonlinear_arith)
                requires
                    pow2(0) == 1,
            ;
            lemma_encloses(n as nat, false, n as nat, 1, 0, 1074, 0);
        }
        assemble(false, pack(n as u128, 1074, false, Ghost(n as nat * pow2(1074)), Ghost(1)))
    }

    /// Rounded up to an integer and clamped to what a `usize` holds; 0 for a NaN.
    pub fn ceil_to_count(self) -> (r: usize)
        ensures
            r == self.count(),
    {
        proof {
            reveal(count_of);
        }
        let a: u64 = self.without_sign();
        if a > INFINITE || self.has_sign() {
            return 0;
        }
        if a == INFINITE {
            return usize::MAX;
        }
        let (m, k) = split(a);
        let ghost u = magnitude_units(a as nat);
        let ghost one = pow2(1074);
        proof {
            lemma_pow2_wide();
            lemma_pow2_zero();
            lemma_pow2_pos(1074);
        }
        if k >= 1074 {
            let t: u32 = k - 1074;
            let ghost pt = pow2(t as nat);
            proof {
                lemma_pow2_adds(t as nat, 1074);
                lemma_pow2_pos(t as nat);
                assert(u == (m * pt) * one) by (nonlinear_arith)
                    requires
                        u == m * pow2(k as nat),
                        pow2(k as nat) == pt * one,
                ;
                vstd::arithmetic::div_mod::lemma_div_multiples_vanish((m * pt) as int, one as int);
                assert((m * pt) * one == one * (m * pt)) by (nonlinear_arith);
                vstd::arithmetic::div_mod::lemma_mod_multiples_basic((m * pt) as int, one as int);
                assert(ceiling(self) == m * pt);
                if t > 60 {
                    lemma_pow2_ordered(60, t as nat);
                    assert(m * pt > 0xffff_ffff_ffff_ffff) by (nonlinear_arith)
                        requires
                            m >= BINADE,
                            pt >= 0x1000_0000_0000_0000,
                    ;
                }
            }
            if t > 60 {
                return usize::MAX;
            }
            proof {
                lemma_pow2_ordered(t as nat, 60);
                assert(m * pt < 0x20_0000_0000_0000_0000_0000_0000_0000) by (nonlinear_arith)
                    requires
                        0 <= m < SIGNIFICAND_BOUND,
                        0 <= pt <= 0x1000_0000_0000_0000,
                ;
            }
            let wide: u128 = m as u128 * two_to(t);
            if wide > usize::MAX as u128 {
                usize::MAX
            } else {
                wide as usize
            }
        } else {
            let t: u32 = 1074 - k;
            let ghost pt = pow2(t as nat);
            let ghost pk = pow2(k as nat);
            proof {
                lemma_pow2_adds(t as nat, k as nat);
                lemma_pow2_pos(t as nat);
                lemma_pow2_pos(k as nat);
                lemma_scaled_division(m as nat, pt, pk);
                assert(one == pt * pk);
                let part = m as nat % pt;
                assert(part > 0 ==> part * pk > 0) by (nonlinear_arith)
                    requires
                        pk > 0,
                ;
                assert(0 * pk == 0);
            }
            if t > 60 {
                proof {
                    lemma_pow2_ordered(60, t as nat);
                    vstd::arithmetic::div_mod::lemma_basic_div(m as int, pt as int);
                    vstd::arithmetic::div_mod::lemma_small_mod(m as nat, pt);
                }
                if m == 0 {
                    0
                } else {
                    1
                }
            } else {
                let p: u128 = two_to(t);
                let q: u128 = m as u128 / p;
                let rest: u128 = m as u128 % p;
                proof {
                    vstd::arithmetic::div_mod::lemma_div_nonincreasing(m as int, p as int);
                }
                let up: u128 = if rest == 0 {
                    q
                } else {
                    q + 1
                };
                if up > usize::MAX as u128 {
                    usize::MAX
                } else {
                    up as usize
                }
            }
        }
    }
}

/// Quotient and remainder when both sides are scaled by `c`.
proof fn lemma_scaled_division(m: nat, d: nat, c: nat)
    requires
        d > 0,
        c > 0,
    ensures
        (m * c) / (d * c) == m / d,
        (m * c) % (d * c) == (m % d) * c,
{
    let q = m / d;
    let r = m % d;
    vstd::arithmetic::div_mod::lemma_fundamental_div_mod(m as int, d as int);
    assert(m * c == q * (d * c) + r * c) by (nonlinear_arith)
        requires
            m == d * q + r,
    ;
    assert(0 <= r * c < d * c) by (nonlinear_arith)
        requires
            0 <= r < d,
            c > 0,
    ;
    vstd::arithmetic::div_mod::lemma_fundamental_div_mod_converse(
        (m * c) as int,
        (d * c) as int,
        q as int,
        (r * c) as int,
    );
}

} // verus!
