//! How the arithmetic of doubles goes with their order.
use vstd::prelude::*;
use vstd::arithmetic::div_mod::lemma_fundamental_div_mod;
use vstd::arithmetic::div_mod::lemma_fundamental_div_mod_converse;
use vstd::arithmetic::power2::lemma_pow2_adds;
use vstd::arithmetic::power2::lemma_pow2_pos;
use vstd::arithmetic::power2::lemma_pow2_unfold;
use vstd::arithmetic::power2::pow2;
use crate::double::Double;
use crate::double::lemma_round_zero;
use crate::double::lemma_units_zero;
use crate::double::of_parts;
use crate::double::product;
use crate::double::sum;
use crate::rounding::BINADE;
use crate::rounding::INFINITE;
use crate::rounding::SIGNIFICAND_BOUND;
use crate::rounding::binade;
use crate::rounding::floor_root;
use crate::rounding::lemma_binade_bounds;
use crate::rounding::lemma_floor_root_exists;
use crate::rounding::lemma_pow2_ordered;
use crate::rounding::lemma_pow2_wide;
use crate::rounding::lemma_pow2_zero;
use crate::rounding::lemma_round_exact;
use crate::rounding::lemma_round_monotone;
use crate::rounding::lemma_units_monotone;
use crate::rounding::magnitude_units;
use crate::rounding::round_to_magnitude;

verus! {

/// The rank of the double nearest to an integer count of units.
spec fn rounded_rank(s: int) -> int {
    if s < 0 {
        -round_to_magnitude((-s) as nat, 1)
    } else {
        round_to_magnitude(s as nat, 1) as int
    }
}

proof fn lemma_rounded_rank_monotone(s: int, t: int)
    requires
        s <= t,
    ensures
        rounded_rank(s) <= rounded_rank(t),
{
    if s < 0 && t < 0 {
        lemma_round_monotone((-t) as nat, 1, (-s) as nat, 1);
    } else if s >= 0 {
        lemma_round_monotone(s as nat, 1, t as nat, 1);
    }
}

/// A finite sum is ranked by the exact sum.
proof fn lemma_finite_sum(a: Double, b: Double)
    requires
        a.finite(),
        b.finite(),
    ensures
        (a + b).rank() == rounded_rank(a.units() + b.units()),
        !(a + b).nan(),
{
    reveal(sum);
    lemma_round_zero(1);
}

pub(crate) proof fn lemma_units_ordered(a: Double, b: Double)
    requires
        a.finite(),
        b.finite(),
        a.rank() <= b.rank(),
    ensures
        a.units() <= b.units(),
{
    let m = a.magnitude();
    let n = b.magnitude();
    lemma_units_zero(m);
    lemma_units_zero(n);
    if m < n {
        lemma_units_monotone(m, n);
    }
    if n < m {
        lemma_units_monotone(n, m);
    }
}

/// Adding the same to both sides keeps their order.
pub proof fn law_sum_keeps_order(a: Double, b: Double, c: Double)
    requires
        a.at_most(b),
        !(a + c).nan(),
        !(b + c).nan(),
    ensures
        (a + c).at_most(b + c),
{
    reveal(sum);
    if a.finite() && b.finite() && c.finite() {
        lemma_finite_sum(a, c);
        lemma_finite_sum(b, c);
        lemma_units_ordered(a, b);
        lemma_rounded_rank_monotone(a.units() + c.units(), b.units() + c.units());
    } else {
        if a.finite() && c.finite() {
            lemma_finite_sum(a, c);
        }
        if b.finite() && c.finite() {
            lemma_finite_sum(b, c);
        }
    }
}

/// Addition does not depend on the order of its operands.
pub proof fn law_sum_commutes(a: Double, b: Double)
    ensures
        a + b == b + a,
{
    reveal(sum);
}

/// Multiplication does not depend on the order of its operands.
pub proof fn law_product_commutes(a: Double, b: Double)
    ensures
        a * b == b * a,
{
    reveal(product);
    let m = magnitude_units(a.magnitude());
    let n = magnitude_units(b.magnitude());
    assert(m * n == n * m) by (nonlinear_arith);
}

/// Two signs cancel.
pub proof fn law_product_of_opposites(a: Double, b: Double)
    ensures
        a.opposite() * b.opposite() == a * b,
{
    reveal(product);
}

/// Zero does not change where a number stands.
pub proof fn law_zero_changes_nothing(a: Double)
    requires
        !a.nan(),
    ensures
        (a + Double::nought()).same(a),
{
    reveal(sum);
    lemma_units_zero(0);
    if a.finite() {
        lemma_finite_sum(a, Double::nought());
        let b = a.magnitude();
        lemma_round_exact(b, 1);
        lemma_units_zero(b);
        assert(magnitude_units(b) * 1 == magnitude_units(b));
    }
}

/// A number that is not below zero does not make a sum smaller.
pub proof fn law_adding_makes_no_smaller(a: Double, c: Double)
    requires
        !a.nan(),
        Double::nought().at_most(c),
        !(a + c).nan(),
    ensures
        a.at_most(a + c),
{
    law_zero_changes_nothing(a);
    law_sum_commutes(a, c);
    law_sum_commutes(a, Double::nought());
    law_sum_keeps_order(Double::nought(), c, a);
}

/// The product of numbers that are not below zero is not below zero.
pub proof fn law_product_is_not_negative(a: Double, b: Double)
    requires
        Double::nought().at_most(a),
        Double::nought().at_most(b),
        !(a * b).nan(),
    ensures
        Double::nought().at_most(a * b),
{
    reveal(product);
    if a.zero() || b.zero() {
        let m = magnitude_units(a.magnitude());
        let n = magnitude_units(b.magnitude());
        lemma_units_zero(a.magnitude());
        lemma_units_zero(b.magnitude());
        assert(m * n == 0) by (nonlinear_arith)
            requires
                m == 0 || n == 0,
        ;
        lemma_pow2_pos(1074);
        lemma_round_zero(pow2(1074));
    }
}

/// Zero times a finite number is zero.
pub proof fn law_zero_times_anything(a: Double, b: Double)
    requires
        a.zero(),
        b.finite(),
    ensures
        (a * b).zero(),
{
    reveal(product);
    let n = magnitude_units(b.magnitude());
    lemma_units_zero(a.magnitude());
    assert(0 * n == 0);
    lemma_pow2_pos(1074);
    lemma_round_zero(pow2(1074));
}

/// Zero divided by a positive number is zero.
pub proof fn law_zero_divided(a: Double, b: Double)
    requires
        a.zero(),
        Double::nought().below(b),
    ensures
        (a / b).zero(),
{
    reveal(crate::double::ratio);
    lemma_units_zero(a.magnitude());
    lemma_units_zero(b.magnitude());
    assert(0 * pow2(1074) == 0);
    if b.finite() {
        lemma_round_zero(magnitude_units(b.magnitude()));
    }
}

/// A square is not below zero.
pub proof fn law_square_is_not_negative(a: Double)
    requires
        !(a * a).nan(),
    ensures
        Double::nought().at_most(a * a),
{
    reveal(product);
}

/// Multiplying both sides by the same positive number keeps their order.
pub proof fn law_product_keeps_order(a: Double, b: Double, c: Double)
    requires
        a.at_most(b),
        c.finite(),
        Double::nought().below(c),
    ensures
        (c * a).at_most(c * b),
{
    reveal(product);
    let one = pow2(1074);
    lemma_pow2_pos(1074);
    let l = magnitude_units(c.magnitude());
    let m = magnitude_units(a.magnitude());
    let n = magnitude_units(b.magnitude());
    lemma_units_zero(a.magnitude());
    lemma_units_zero(b.magnitude());
    lemma_round_zero(one);
    assert(l * 0 == 0 && 0 * one == 0);
    if a.finite() && b.finite() {
        if a.magnitude() < b.magnitude() {
            lemma_units_monotone(a.magnitude(), b.magnitude());
        }
        if b.magnitude() < a.magnitude() {
            lemma_units_monotone(b.magnitude(), a.magnitude());
        }
        if m <= n {
            assert((l * m) * one <= (l * n) * one) by (nonlinear_arith)
                requires
                    m <= n,
                    l >= 0,
                    one > 0,
            ;
            lemma_round_monotone(l * m, one, l * n, one);
        }
        if n <= m {
            assert((l * n) * one <= (l * m) * one) by (nonlinear_arith)
                requires
                    n <= m,
                    l >= 0,
                    one > 0,
            ;
            lemma_round_monotone(l * n, one, l * m, one);
        }
    }
}

// ---- numbers that can be told exactly ----

/// The magnitude with this exponent and significand.
pub open spec fn magnitude_of(k: nat, m: nat) -> nat {
    (k * BINADE + m) as nat
}

/// What a magnitude with a given exponent and significand stands for.
pub(crate) proof fn lemma_magnitude_of(k: nat, m: nat)
    requires
        m < SIGNIFICAND_BOUND,
        k > 0 ==> m >= BINADE,
    ensures
        magnitude_units(magnitude_of(k, m)) == m * pow2(k),
{
    let b = magnitude_of(k, m);
    if k == 0 {
        assert(crate::rounding::magnitude_exponent(b) == 0) by {
            if m >= BINADE {
                lemma_fundamental_div_mod_converse(
                    b as int,
                    BINADE as int,
                    1,
                    m - BINADE,
                );
            }
        }
    } else {
        lemma_fundamental_div_mod_converse(b as int, BINADE as int, k as int + 1, m - BINADE);
    }
}

/// An integer below 2^53 times a power of two is a double.
pub proof fn lemma_representable(n: nat, k: nat) -> (b: nat)
    requires
        n < SIGNIFICAND_BOUND,
        k <= 2045,
    ensures
        b < INFINITE,
        magnitude_units(b) == n * pow2(k),
    decreases k,
{
    if k == 0 || n >= BINADE {
        lemma_magnitude_of(k, n);
        magnitude_of(k, n)
    } else {
        lemma_pow2_unfold(k);
        let p = pow2((k - 1) as nat);
        assert(n * (2 * p) == (2 * n) * p) by (nonlinear_arith);
        lemma_representable(2 * n, (k - 1) as nat)
    }
}

/// An integer below 2^53 is a double.
pub proof fn law_small_integers_are_exact(n: nat)
    requires
        n < SIGNIFICAND_BOUND,
    ensures
        Double::of(n).finite(),
        !Double::of(n).negative(),
        Double::of(n).units() == n * pow2(1074),
{
    reveal(crate::double::of_integer);
    let b = lemma_representable(n, 1074);
    lemma_round_exact(b, 1);
    assert(magnitude_units(b) * 1 == magnitude_units(b));
}

/// A quotient of two integers below 2^53, the divisor not zero.
proof fn lemma_quotient_at_most(n: nat, d: nat, b: nat)
    requires
        0 < n < SIGNIFICAND_BOUND,
        0 < d < SIGNIFICAND_BOUND,
        b < INFINITE,
        n * pow2(1074) <= magnitude_units(b) * d,
    ensures
        (Double::of(n) / Double::of(d)).finite(),
        0 <= (Double::of(n) / Double::of(d)).rank() <= b,
{
    reveal(crate::double::ratio);
    law_small_integers_are_exact(n);
    law_small_integers_are_exact(d);
    let one = pow2(1074);
    lemma_pow2_pos(1074);
    let u = n * one;
    let v = d * one;
    assert(u > 0 && v > 0) by (nonlinear_arith)
        requires
            u == n * one,
            v == d * one,
            n > 0,
            d > 0,
            one > 0,
    ;
    lemma_units_zero(Double::of(n).magnitude());
    lemma_units_zero(Double::of(d).magnitude());
    let w = magnitude_units(b);
    lemma_round_exact(b, v);
    assert((u * one) * v <= (w * v) * v) by (nonlinear_arith)
        requires
            u <= w * d,
            v == d * one,
            one > 0,
            v > 0,
    ;
    lemma_round_monotone(u * one, v, w * v, v);
}

/// A quotient of two integers below 2^53 that is a double itself.
proof fn lemma_quotient_exact(n: nat, d: nat, b: nat)
    requires
        0 < n < SIGNIFICAND_BOUND,
        0 < d < SIGNIFICAND_BOUND,
        b < INFINITE,
        n * pow2(1074) == magnitude_units(b) * d,
    ensures
        Double::of(n) / Double::of(d) == of_parts(false, b),
{
    reveal(crate::double::ratio);
    law_small_integers_are_exact(n);
    law_small_integers_are_exact(d);
    let one = pow2(1074);
    lemma_pow2_pos(1074);
    let u = n * one;
    let v = d * one;
    let w = magnitude_units(b);
    assert(u > 0 && v > 0 && u * one == w * v) by (nonlinear_arith)
        requires
            u == n * one,
            v == d * one,
            u == w * d,
            n > 0,
            d > 0,
            one > 0,
    ;
    lemma_units_zero(Double::of(n).magnitude());
    lemma_units_zero(Double::of(d).magnitude());
    lemma_round_exact(b, v);
}

/// A positive integer below 2^53 is a positive double.
pub proof fn law_small_integers_are_positive(n: nat)
    requires
        0 < n < SIGNIFICAND_BOUND,
    ensures
        Double::of(n).finite(),
        Double::nought().below(Double::of(n)),
{
    law_small_integers_are_exact(n);
    lemma_pow2_pos(1074);
    assert(n * pow2(1074) > 0) by (nonlinear_arith)
        requires
            n > 0,
            pow2(1074) > 0,
    ;
    lemma_units_zero(Double::of(n).magnitude());
}

/// One, as a bit pattern.
pub proof fn law_one_is_one()
    ensures
        Double::of(1) == of_parts(false, magnitude_of(1022, BINADE as nat)),
        Double::of(1).units() == pow2(1074),
{
    let b = magnitude_of(1022, BINADE as nat);
    lemma_magnitude_of(1022, BINADE as nat);
    lemma_pow2_wide();
    lemma_pow2_adds(52, 1022);
    law_small_integers_are_exact(1);
    let c = Double::of(1).magnitude();
    assert(1 * pow2(1074) == pow2(1074));
    if c < b {
        lemma_units_monotone(c, b);
    }
    if b < c {
        lemma_units_monotone(b, c);
    }
}

/// The quotient of a number that is not below zero by a positive one is not below
/// zero.
pub proof fn law_quotient_is_not_negative(a: Double, b: Double)
    requires
        Double::nought().at_most(a),
        Double::nought().below(b),
        a.finite() || b.finite(),
    ensures
        Double::nought().at_most(a / b),
{
    reveal(crate::double::ratio);
    if a.zero() {
        lemma_units_zero(a.magnitude());
        lemma_units_zero(b.magnitude());
        assert(0 * pow2(1074) == 0);
        if b.finite() {
            lemma_round_zero(magnitude_units(b.magnitude()));
        }
    }
}

/// The difference of two finite numbers, the second of them smaller, is positive.
pub proof fn law_difference_is_positive(a: Double, b: Double)
    requires
        a.finite(),
        b.finite(),
        b.below(a),
    ensures
        Double::nought().below(a - b),
{
    let c = b.opposite();
    lemma_finite_sum(a, c);
    lemma_units_ordered(b, a);
    let m = a.magnitude();
    let n = b.magnitude();
    lemma_units_zero(m);
    lemma_units_zero(n);
    if m < n {
        lemma_units_monotone(m, n);
    }
    if n < m {
        lemma_units_monotone(n, m);
    }
    let s = a.units() + c.units();
    assert(s >= 1);
    lemma_rounded_rank_monotone(1, s);
    lemma_magnitude_of(0, 1);
    lemma_round_exact(1, 1);
    lemma_pow2_zero();
    assert(magnitude_units(1) == 1 * pow2(0));
}

/// The root of a number that is not within 2^-21 of one is below one.
pub proof fn lemma_root_below_one(y: Double)
    requires
        y.finite(),
        0 <= y.rank() <= magnitude_of(1021, 0x1f_ffff_0000_0000),
    ensures
        y.root().finite(),
        0 <= y.root().rank() < magnitude_of(1022, BINADE as nat),
{
    reveal(crate::double::square_root);
    let b = y.magnitude();
    lemma_units_zero(b);
    if b > 0 {
        let m: nat = 0x1f_ffff_0000_0000;
        let top = magnitude_of(1021, m);
        lemma_magnitude_of(1021, m);
        if b < top {
            lemma_units_monotone(b, top);
        }
        let u = magnitude_units(b);
        let v = u * pow2(1074);
        lemma_pow2_pos(1074);
        // v <= m * 2^2095, which is below the square of 2^1074
        lemma_pow2_adds(1021, 1074);
        assert(v <= m * pow2(2095)) by (nonlinear_arith)
            requires
                u <= m * pow2(1021),
                v == u * pow2(1074),
                pow2(2095) == pow2(1021) * pow2(1074),
                pow2(1074) > 0,
        ;
        lemma_pow2_pos(2095);
        lemma_pow2_wide();
        lemma_pow2_adds(53, 2095);
        lemma_pow2_adds(1074, 1074);
        assert(v < pow2(1074) * pow2(1074)) by (nonlinear_arith)
            requires
                v <= m * pow2(2095),
                m < SIGNIFICAND_BOUND,
                pow2(2095) > 0,
                SIGNIFICAND_BOUND * pow2(2095) == pow2(1074) * pow2(1074),
        ;
        let q = floor_root(v);
        lemma_floor_root_exists(v);
        let p = pow2(1074);
        assert(q < p) by (nonlinear_arith)
            requires
                q * q <= v,
                v < p * p,
        ;
        let k = binade(q, 1);
        lemma_binade_bounds(q, 1);
        let pk = pow2(k);
        lemma_pow2_pos(k);
        if k >= 1022 {
            lemma_pow2_ordered(1022, k);
            lemma_pow2_adds(52, 1022);
            assert(BINADE * pk >= p) by (nonlinear_arith)
                requires
                    pk >= pow2(1022),
                    p == BINADE * pow2(1022),
            ;
            assert(false);
        }
        // what the significand is taken from is below 2^108
        lemma_pow2_adds(k, k);
        let w = (4 * v) / pow2(2 * k);
        let square = pow2(2 * k);
        lemma_pow2_pos(2 * k);
        lemma_fundamental_div_mod((4 * v) as int, square as int);
        let r = floor_root(w);
        lemma_floor_root_exists(w);
        let cap: nat = 0x1000_0000_0000_0000_0000_0000_0000;
        assert(w < cap) by (nonlinear_arith)
            requires
                4 * v == square * w + (4 * v) % square,
                0 <= (4 * v) % square,
                v < (q + 1) * (q + 1),
                q + 1 <= SIGNIFICAND_BOUND * pk,
                square == pk * pk,
                pk > 0,
                cap == 4 * (SIGNIFICAND_BOUND * SIGNIFICAND_BOUND),
        ;
        assert(r < 0x40_0000_0000_0000) by (nonlinear_arith)
            requires
                r * r <= w,
                w < cap,
                cap == 0x40_0000_0000_0000 * 0x40_0000_0000_0000,
        ;
        if k == 1021 {
            lemma_pow2_adds(55, 2042);
            lemma_pow2_adds(2, 2095);
            vstd::arithmetic::power2::lemma2_to64();
            vstd::arithmetic::power2::lemma2_to64_rest();
            let c: nat = m * 0x80_0000_0000_0000;
            assert(w <= c) by (nonlinear_arith)
                requires
                    4 * v == square * w + (4 * v) % square,
                    0 <= (4 * v) % square,
                    v <= m * pow2(2095),
                    4 * pow2(2095) == 0x80_0000_0000_0000 * square,
                    square > 0,
                    c == m * 0x80_0000_0000_0000,
            ;
            assert(r < 0x3f_ffff_ffff_ffff) by (nonlinear_arith)
                requires
                    r * r <= w,
                    w <= c,
                    c < 0x3f_ffff_ffff_ffff * 0x3f_ffff_ffff_ffff,
            ;
        }
    }
}

/// Half of one more than `x` is not within 2^-21 of one, for any `x` up to
/// 0.999999.
pub proof fn lemma_half_of_one_more(x: Double)
    requires
        x.at_most(Double::of(999_999) / Double::of(1_000_000)),
    ensures
        ({
            let y = (Double::of(1) / Double::of(2)) * (Double::of(1) + x);
            !y.nan() && y.rank() <= magnitude_of(1021, 0x1f_ffff_0000_0000)
        }),
{
    let one = Double::of(1);
    let half = Double::of(1) / Double::of(2);
    let nearly = Double::of(999_999) / Double::of(1_000_000);
    law_one_is_one();
    lemma_pow2_wide();
    // 0.999999 is not above 1 - 2^-20
    let n: nat = 0x1f_fffe_0000_0000;
    let near = of_parts(false, magnitude_of(1021, n));
    lemma_magnitude_of(1021, n);
    lemma_pow2_adds(53, 1021);
    let p = pow2(1021);
    lemma_pow2_pos(1021);
    assert(999_999 * pow2(1074) <= (n * p) * 1_000_000) by (nonlinear_arith)
        requires
            pow2(1074) == SIGNIFICAND_BOUND * p,
            n == 0x1f_fffe_0000_0000,
            p > 0,
    ;
    lemma_quotient_at_most(999_999, 1_000_000, magnitude_of(1021, n));
    assert(nearly.at_most(near));
    // one more than that is 2 - 2^-20
    let m: nat = 0x1f_ffff_0000_0000;
    let top = of_parts(false, magnitude_of(1022, m));
    lemma_magnitude_of(1022, m);
    lemma_finite_sum(near, one);
    lemma_pow2_unfold(1022);
    assert(n * p + pow2(1074) == m * pow2(1022)) by (nonlinear_arith)
        requires
            pow2(1074) == SIGNIFICAND_BOUND * p,
            pow2(1022) == 2 * p,
            n == 0x1f_fffe_0000_0000,
            m == 0x1f_ffff_0000_0000,
    ;
    lemma_round_exact(magnitude_of(1022, m), 1);
    assert((m * pow2(1022)) * 1 == m * pow2(1022));
    assert((near + one).rank() == top.rank());
    assert(!(x + one).nan()) by {
        reveal(sum);
    }
    law_sum_keeps_order(x, near, one);
    law_sum_commutes(x, one);
    assert((one + x).at_most(top));
    // and half of that is 1 - 2^-21
    lemma_magnitude_of(1021, BINADE as nat);
    lemma_half();
    law_product_keeps_order(one + x, top, half);
    assert((half * top).rank() == magnitude_of(1021, m)) by {
        reveal(product);
        lemma_magnitude_of(1021, m);
        lemma_pow2_pos(1074);
        let d = pow2(1074);
        assert((BINADE * p) * (m * pow2(1022)) == (m * p) * d) by (nonlinear_arith)
            requires
                d == SIGNIFICAND_BOUND * p,
                pow2(1022) == 2 * p,
        ;
        lemma_round_exact(magnitude_of(1021, m), d);
    }
}

/// One half, as a bit pattern.
pub proof fn lemma_half()
    ensures
        Double::of(1) / Double::of(2) == of_parts(false, magnitude_of(1021, BINADE as nat)),
{
    lemma_pow2_wide();
    lemma_magnitude_of(1021, BINADE as nat);
    lemma_pow2_adds(53, 1021);
    let p = pow2(1021);
    assert(1 * pow2(1074) == (BINADE * p) * 2) by (nonlinear_arith)
        requires
            pow2(1074) == SIGNIFICAND_BOUND * p,
    ;
    lemma_quotient_exact(1, 2, magnitude_of(1021, BINADE as nat));
}

/// A positive count of what a machine can count to is a positive double.
pub proof fn lemma_count_is_positive(n: nat)
    requires
        0 < n <= u64::MAX,
    ensures
        Double::of(n).finite(),
        Double::nought().below(Double::of(n)),
{
    reveal(crate::double::of_integer);
    lemma_pow2_pos(1074);
    let one = pow2(1074);
    // at least one, and at most 2^64
    law_one_is_one();
    assert(1 * one <= n * one <= 0x1_0000_0000_0000_0000 * one) by (nonlinear_arith)
        requires
            1 <= n <= 0xffff_ffff_ffff_ffff,
            one > 0,
    ;
    lemma_round_monotone(1 * one, 1, n * one, 1);
    let b = lemma_representable(BINADE as nat, 1086);
    lemma_pow2_wide();
    vstd::arithmetic::power2::lemma2_to64();
    lemma_pow2_adds(12, 1074);
    assert(BINADE * pow2(1086) == 0x1_0000_0000_0000_0000 * one) by (nonlinear_arith)
        requires
            pow2(1086) == 4096 * one,
    ;
    lemma_round_exact(b, 1);
    assert(magnitude_units(b) * 1 == magnitude_units(b));
    lemma_round_monotone(n * one, 1, 0x1_0000_0000_0000_0000 * one, 1);
}

/// To multiply by one changes nothing.
pub proof fn law_times_one(a: Double)
    requires
        a.finite(),
    ensures
        a * Double::of(1) == a,
{
    reveal(product);
    law_small_integers_are_exact(1);
    let one = pow2(1074);
    lemma_pow2_pos(1074);
    let b = a.magnitude();
    assert(magnitude_units(Double::of(1).magnitude()) == one);
    lemma_round_exact(b, one);
}

/// Nothing was lost to rounding in `a - b`.
pub open spec fn exact_difference(a: Double, b: Double) -> bool {
    &&& a.finite()
    &&& b.finite()
    &&& (a - b).finite()
    &&& (a - b).units() == a.units() - b.units()
}

/// What was taken away without loss can be added back.
pub proof fn law_difference_goes_back(a: Double, b: Double)
    requires
        exact_difference(a, b),
    ensures
        (b + (a - b)).same(a),
        ((a - b) + b).same(a),
{
    let d = a - b;
    law_sum_commutes(b, d);
    lemma_sum_of_units(b, d, a);
}

/// A sum that is a double is found without loss.
pub(crate) proof fn lemma_sum_of_units(b: Double, d: Double, a: Double)
    requires
        a.finite(),
        b.finite(),
        d.finite(),
        b.units() + d.units() == a.units(),
    ensures
        (b + d).same(a),
{
    reveal(sum);
    let m = a.magnitude();
    lemma_units_zero(m);
    lemma_round_exact(m, 1);
    assert(magnitude_units(m) * 1 == magnitude_units(m));
}

/// No less than it is rounded up to: a number is at most the integer that it is rounded
/// up to, taken for a double.
pub proof fn law_rounded_up_is_not_less(a: Double, n: nat)
    requires
        a.finite(),
        !a.negative(),
        crate::double::ceiling(a) <= n <= u64::MAX,
    ensures
        a.at_most(Double::of(n)),
{
    reveal(crate::double::of_integer);
    let u = magnitude_units(a.magnitude());
    let one = pow2(1074);
    lemma_pow2_pos(1074);
    vstd::arithmetic::div_mod::lemma_fundamental_div_mod(u as int, one as int);
    assert(u <= n * one) by (nonlinear_arith)
        requires
            u == one * (u / one) + u % one,
            0 <= u % one < one,
            n >= u / one + if u % one == 0 { 0nat } else { 1 },
    ;
    lemma_round_monotone(u, 1, n * one, 1);
    lemma_round_exact(a.magnitude(), 1);
    assert(u * 1 == u);
    if n > 0 {
        lemma_count_is_positive(n);
    } else {
        lemma_round_zero(1);
        lemma_units_zero(a.magnitude());
        assert(0 * one == 0);
    }
}

/// Nor is it rounded up further than need be.
pub proof fn law_rounded_up_no_further(a: Double, n: nat)
    requires
        a.finite(),
        !a.negative(),
        n < crate::double::ceiling(a),
        n < SIGNIFICAND_BOUND,
    ensures
        Double::of(n).below(a),
{
    law_small_integers_are_exact(n);
    let u = magnitude_units(a.magnitude());
    let one = pow2(1074);
    lemma_pow2_pos(1074);
    vstd::arithmetic::div_mod::lemma_fundamental_div_mod(u as int, one as int);
    assert(n * one < u) by (nonlinear_arith)
        requires
            u == one * (u / one) + u % one,
            0 <= u % one < one,
            n < u / one + if u % one == 0 { 0nat } else { 1 },
            one > 0,
    ;
    let b = Double::of(n).magnitude();
    if a.magnitude() <= b {
        if a.magnitude() < b {
            lemma_units_monotone(a.magnitude(), b);
        }
        assert(false);
    }
}

} // verus!
