//! What the numbers stand for, and how far the result of each operation is from the
//! exact one.
//!
//! A finite number stands for a real one, its value. Every operation gives the number
//! nearest to the exact result, so that it is off by at most `grain()` times that result,
//! or by `least()` where the result is so small that there are no nearer numbers.
use vstd::prelude::*;
use vstd::arithmetic::power2::lemma_pow2_adds;
use vstd::arithmetic::power2::lemma_pow2_pos;
use vstd::arithmetic::power2::lemma_pow2_unfold;
use vstd::arithmetic::power2::pow2;
use crate::double::Double;
use crate::double::lemma_round_zero;
use crate::double::lemma_units_zero;
use crate::order::law_small_integers_are_exact;
use crate::order::lemma_magnitude_of;
use crate::order::lemma_representable;
use crate::order::lemma_units_ordered;
use crate::order::magnitude_of;
use crate::rounding::BINADE;
use crate::rounding::INFINITE;
use crate::rounding::SIGNIFICAND_BOUND;
use crate::rounding::binade;
use crate::rounding::floor_root;
use crate::rounding::lemma_binade_bounds;
use crate::rounding::lemma_floor_root_exists;
use crate::rounding::lemma_pow2_ordered;
use crate::rounding::lemma_pow2_wide;
use crate::rounding::lemma_round_exact;
use crate::rounding::lemma_round_monotone;
use crate::rounding::lemma_units_monotone;
use crate::rounding::magnitude_units;
use crate::rounding::nearest_even;
use crate::rounding::root_to_magnitude;
use crate::rounding::round_to_magnitude;

verus! {

impl Double {
    /// The real number that a finite number stands for.
    pub open spec fn value(self) -> real {
        self.units() as real / pow2(1074) as real
    }
}

/// Half of the distance from one to the next number.
pub open spec fn grain() -> real {
    1 as real / SIGNIFICAND_BOUND as real
}

/// The least positive number.
pub open spec fn least() -> real {
    1 as real / pow2(1074) as real
}

/// A bound below which nothing overflows: 2^1000.
pub open spec fn vast() -> real {
    pow2(1000) as real
}

/// A bound on what is multiplied: 2^400.
pub open spec fn large() -> real {
    pow2(400) as real
}

/// A finite number that is not too large to be squared, or multiplied by another one.
pub open spec fn moderate(a: Double) -> bool {
    a.finite() && absolute(a.value()) <= large()
}

/// The size of a real number.
pub open spec fn absolute(x: real) -> real {
    if x < 0 as real {
        -x
    } else {
        x
    }
}

/// Two real numbers are no further apart than this.
pub open spec fn near(x: real, y: real, by: real) -> bool {
    y - by <= x <= y + by
}

// ---- the error of rounding, in units ----

/// What a significand and an exponent stand for, a carry included.
proof fn lemma_units_of_packed(k: nat, q: nat)
    requires
        q <= SIGNIFICAND_BOUND,
        k > 0 ==> q >= BINADE,
    ensures
        magnitude_units((k * BINADE + q) as nat) == q * pow2(k),
{
    if q < SIGNIFICAND_BOUND {
        lemma_magnitude_of(k, q);
    } else {
        lemma_magnitude_of(k + 1, BINADE as nat);
        lemma_pow2_unfold(k + 1);
        assert(magnitude_of(k + 1, BINADE as nat) == k * BINADE + q);
        assert(BINADE * (2 * pow2(k)) == SIGNIFICAND_BOUND * pow2(k)) by (nonlinear_arith);
    }
}

/// A rounded rational is off by half a step of its grid.
proof fn lemma_round_error(n: nat, d: nat)
    requires
        d > 0,
        round_to_magnitude(n, d) < INFINITE,
    ensures
        ({
            let off = magnitude_units(round_to_magnitude(n, d)) * d - n;
            &&& -(n + BINADE * d) <= off * SIGNIFICAND_BOUND <= n + BINADE * d
            &&& d == 1 ==> -n <= off * SIGNIFICAND_BOUND <= n
        }),
{
    let k = binade(n, d);
    lemma_binade_bounds(n, d);
    let p = pow2(k);
    lemma_pow2_pos(k);
    let e = d * p;
    assert(e > 0) by (nonlinear_arith)
        requires
            e == d * p,
            d > 0,
            p > 0,
    ;
    let q = nearest_even(n, e);
    vstd::arithmetic::div_mod::lemma_fundamental_div_mod(n as int, e as int);
    let w = n / e;
    let r = n % e;
    assert(n == e * w + r && 0 <= r < e);
    assert(-e <= 2 * (q * e - n) <= e) by (nonlinear_arith)
        requires
            n == e * w + r,
            0 <= r < e,
            (q == w + 1 && 2 * r >= e) || (q == w && 2 * r <= e),
    ;
    assert(d * (SIGNIFICAND_BOUND * p) == SIGNIFICAND_BOUND * e) by (nonlinear_arith)
        requires
            e == d * p,
    ;
    assert(d * (BINADE * p) == BINADE * e) by (nonlinear_arith)
        requires
            e == d * p,
    ;
    assert(w < SIGNIFICAND_BOUND) by (nonlinear_arith)
        requires
            n == e * w + r,
            0 <= r,
            n < SIGNIFICAND_BOUND * e,
            e > 0,
    ;
    if k > 0 {
        assert(w >= BINADE) by (nonlinear_arith)
            requires
                n == e * w + r,
                r < e,
                n >= BINADE * e,
                e > 0,
        ;
    }
    lemma_units_of_packed(k, q);
    let v = q * p;
    assert(v * d == q * e) by (nonlinear_arith)
        requires
            v == q * p,
            e == d * p,
    ;
    let off = v * d - n;
    if k == 0 {
        assert(p == 1) by {
            vstd::arithmetic::power2::lemma2_to64();
        }
        assert(e == d) by (nonlinear_arith)
            requires
                e == d * p,
                p == 1,
        ;
        if d == 1 {
            assert(off == 0);
        }
    } else {
        assert(-n <= off * SIGNIFICAND_BOUND <= n);
    }
}

/// A rounded root is off by half a step of its grid, and never overflows.
proof fn lemma_root_error(a: nat)
    requires
        0 < a < pow2(2098),
    ensures
        ({
            let v = (a * pow2(1074)) as int;
            let r = magnitude_units(root_to_magnitude(a * pow2(1074))) as int;
            &&& root_to_magnitude(a * pow2(1074)) < INFINITE
            &&& exists|p: int|
                0 < p && #[trigger] (p * BINADE) <= r && (2 * r - p) * (2 * r - p) <= 4 * v <= (2
                    * r + p) * (2 * r + p)
        }),
{
    let v = a * pow2(1074);
    lemma_pow2_pos(1074);
    lemma_pow2_pos(2098);
    let q = floor_root(v);
    lemma_floor_root_exists(v);
    let k = binade(q, 1);
    lemma_binade_bounds(q, 1);
    let p = pow2(k);
    lemma_pow2_pos(k);
    lemma_pow2_adds(1074, 2098);
    lemma_pow2_adds(1586, 1586);
    lemma_pow2_adds(537, 537);
    lemma_pow2_wide();
    let big = pow2(1586);
    let small = pow2(537);
    assert(v < big * big && small * small <= v) by (nonlinear_arith)
        requires
            v == a * pow2(1074),
            0 < a < pow2(2098),
            pow2(1074) * pow2(2098) == big * big,
            small * small == pow2(1074),
            pow2(1074) > 0,
    ;
    assert(q < big) by (nonlinear_arith)
        requires
            q * q <= v,
            v < big * big,
    ;
    assert(small <= q) by (nonlinear_arith)
        requires
            v < (q + 1) * (q + 1),
            small * small <= v,
    ;
    lemma_pow2_ordered(53, 537);
    assert(k > 0) by {
        if k == 0 {
            vstd::arithmetic::power2::lemma2_to64();
        }
    }
    if k >= 1534 {
        lemma_pow2_ordered(1534, k);
        lemma_pow2_adds(52, 1534);
        assert(BINADE * p >= big) by (nonlinear_arith)
            requires
                p >= pow2(1534),
                big == BINADE * pow2(1534),
        ;
        assert(false);
    }
    lemma_pow2_adds(k, k);
    let square = pow2(2 * k);
    lemma_pow2_pos(2 * k);
    let w = (4 * v) / square;
    vstd::arithmetic::div_mod::lemma_fundamental_div_mod((4 * v) as int, square as int);
    let rest = (4 * v) % square;
    let s = floor_root(w);
    lemma_floor_root_exists(w);
    let m = (s + 1) / 2;
    // the root of 4 v lies between s and s + 1 steps
    assert(s * p * (s * p) <= 4 * v && 4 * v <= (s + 1) * p * ((s + 1) * p)) by (nonlinear_arith)
        requires
            4 * v == square * w + rest,
            0 <= rest < square,
            s * s <= w,
            w + 1 <= (s + 1) * (s + 1),
            square == p * p,
            p > 0,
    ;
    assert(s + 1 >= 2 * BINADE) by (nonlinear_arith)
        requires
            4 * v <= (s + 1) * p * ((s + 1) * p),
            q * q <= v,
            q >= BINADE * p,
            p > 0,
            s >= 0,
    ;
    assert(s < 2 * SIGNIFICAND_BOUND) by (nonlinear_arith)
        requires
            s * p * (s * p) <= 4 * v,
            v < (q + 1) * (q + 1),
            q + 1 <= SIGNIFICAND_BOUND * p,
            p > 0,
            s >= 0,
    ;
    lemma_units_of_packed(k, m);
    let r = m * p;
    assert(p * BINADE <= r) by (nonlinear_arith)
        requires
            r == m * p,
            m >= BINADE,
            p > 0,
    ;
    assert((2 * r - p) * (2 * r - p) <= 4 * v <= (2 * r + p) * (2 * r + p)) by (nonlinear_arith)
        requires
            r == m * p,
            s * p * (s * p) <= 4 * v,
            4 * v <= (s + 1) * p * ((s + 1) * p),
            2 * m == s || 2 * m == s + 1,
            p > 0,
            m >= 1,
    ;
    assert((p as int * BINADE) <= r);
}

// ---- the error of the operations ----

pub proof fn lemma_one_is_positive()
    ensures
        pow2(1074) as real > 0 as real,
        least() > 0 as real,
        (0 as real) < grain(),
        grain() * 9007199254740992 as real == 1 as real,
{
    let s = SIGNIFICAND_BOUND as real;
    let g = grain();
    assert((0 as real) < g && g * 9007199254740992 as real == 1 as real) by (nonlinear_arith)
        requires
            g == 1 as real / s,
            s == 9007199254740992 as real,
    ;
    lemma_pow2_pos(1074);
    let u = pow2(1074) as real;
    assert(1 as real / u > 0 as real) by (nonlinear_arith)
        requires
            u > 0 as real,
    ;
}

/// The value of a number and that of the count of its units.
proof fn lemma_value_of_magnitude(a: Double)
    ensures
        ({
            let m = magnitude_units(a.magnitude()) as real / pow2(1074) as real;
            &&& m >= 0 as real
            &&& a.value() == if a.negative() {
                -m
            } else {
                m
            }
        }),
{
    lemma_one_is_positive();
    let u = pow2(1074) as real;
    let m = magnitude_units(a.magnitude()) as real;
    assert(m / u >= 0 as real && (-m) / u == -(m / u)) by (nonlinear_arith)
        requires
            m >= 0 as real,
            u > 0 as real,
    ;
}

/// The value of the opposite number is the opposite value.
pub proof fn law_opposite_value(a: Double)
    ensures
        a.opposite().value() == -a.value(),
        a.size().value() == absolute(a.value()),
{
    lemma_value_of_magnitude(a);
    lemma_value_of_magnitude(a.opposite());
    lemma_value_of_magnitude(a.size());
}

/// Finite numbers are ordered as their values are.
pub proof fn law_order_of_values(a: Double, b: Double)
    requires
        a.finite(),
        b.finite(),
    ensures
        a.at_most(b) <==> a.value() <= b.value(),
        a.below(b) <==> a.value() < b.value(),
        a.same(b) <==> a.value() == b.value(),
        a.zero() <==> a.value() == 0 as real,
{
    lemma_one_is_positive();
    let u = pow2(1074) as real;
    let x = a.units();
    let y = b.units();
    if a.rank() <= b.rank() {
        lemma_units_ordered(a, b);
    }
    if b.rank() <= a.rank() {
        lemma_units_ordered(b, a);
    }
    lemma_units_zero(a.magnitude());
    lemma_units_zero(b.magnitude());
    assert(x < y ==> a.rank() < b.rank());
    assert(y < x ==> b.rank() < a.rank());
    assert(x == y ==> a.rank() == b.rank()) by {
        if a.magnitude() < b.magnitude() {
            lemma_units_monotone(a.magnitude(), b.magnitude());
        }
        if b.magnitude() < a.magnitude() {
            lemma_units_monotone(b.magnitude(), a.magnitude());
        }
    }
    let (xr, yr) = (x as real, y as real);
    assert((xr / u < yr / u <==> xr < yr) && (xr / u == yr / u <==> xr == yr) && (xr / u
        == 0 as real <==> xr == 0 as real)) by (nonlinear_arith)
        requires
            u > 0 as real,
    ;
}

/// The value of zero.
pub proof fn law_zero_value()
    ensures
        Double::nought().finite(),
        Double::nought().value() == 0 as real,
{
    law_order_of_values(Double::nought(), Double::nought());
}

/// The value of a small integer is the integer.
pub proof fn law_integer_value(n: nat)
    requires
        n < SIGNIFICAND_BOUND,
    ensures
        Double::of(n).finite(),
        Double::of(n).value() == n as real,
{
    law_small_integers_are_exact(n);
    lemma_one_is_positive();
    let u = pow2(1074);
    let (nr, ur) = (n as real, u as real);
    let m = magnitude_units(Double::of(n).magnitude());
    reveal(crate::double::of_integer);
    assert(!Double::of(n).negative());
    assert(m == n * u);
    assert((n * u) as real == nr * ur) by (nonlinear_arith)
        requires
            nr == n as real,
            ur == u as real,
    ;
    assert(nr * ur / ur == nr) by (nonlinear_arith)
        requires
            ur > 0 as real,
    ;
}

/// The value of a number that is rounded from a count of units is near that of the count.
proof fn lemma_rounded_value(n: nat, d: nat)
    requires
        d > 0,
        round_to_magnitude(n, d) < INFINITE,
    ensures
        ({
            let u = pow2(1074) as real;
            let v = magnitude_units(round_to_magnitude(n, d)) as real / u;
            let x = n as real / d as real / u;
            &&& x >= 0 as real
            &&& near(v, x, grain() * x + least())
            &&& d == 1 ==> near(v, x, grain() * x)
        }),
{
    lemma_round_error(n, d);
    lemma_one_is_positive();
    let m = magnitude_units(round_to_magnitude(n, d));
    let s = SIGNIFICAND_BOUND as real;
    let (u, nr, dr, mr) = (pow2(1074) as real, n as real, d as real, m as real);
    let off = m * d - n;
    assert((m * d) as real == mr * dr) by (nonlinear_arith)
        requires
            mr == m as real,
            dr == d as real,
    ;
    let o = off as real;
    assert(o == mr * dr - nr);
    assert((off * SIGNIFICAND_BOUND) as real == o * s);
    assert((BINADE * d) as real == BINADE as real * dr) by (nonlinear_arith)
        requires
            dr == d as real,
    ;
    let v = mr / u;
    let x = nr / dr / u;
    let y = nr / dr;
    let g = grain();
    let l = least();
    assert(y * dr == nr && y >= 0 as real) by (nonlinear_arith)
        requires
            y == nr / dr,
            dr > 0 as real,
            nr >= 0 as real,
    ;
    assert(x * u == y && x >= 0 as real) by (nonlinear_arith)
        requires
            x == y / u,
            u > 0 as real,
            y >= 0 as real,
    ;
    assert(v * u == mr && l * u == 1 as real) by (nonlinear_arith)
        requires
            v == mr / u,
            l == 1 as real / u,
            u > 0 as real,
    ;
    // the error, per unit of the denominator
    let z = mr - y;
    assert(o == z * dr) by (nonlinear_arith)
        requires
            o == mr * dr - nr,
            y * dr == nr,
            z == mr - y,
    ;
    assert(-(y + (s / 2 as real)) <= z * s <= y + s / 2 as real) by (nonlinear_arith)
        requires
            o == z * dr,
            y * dr == nr,
            -(nr + (s / 2 as real) * dr) <= o * s <= nr + (s / 2 as real) * dr,
            dr > 0 as real,
    ;
    assert(-(g * y + 1 as real) <= z <= g * y + 1 as real) by (nonlinear_arith)
        requires
            -(y + (s / 2 as real)) <= z * s <= y + s / 2 as real,
            g == 1 as real / s,
            s == 9007199254740992 as real,
    ;
    let t = v - x;
    assert(z == t * u) by (nonlinear_arith)
        requires
            z == mr - y,
            v * u == mr,
            x * u == y,
            t == v - x,
    ;
    assert(-(g * x + l) <= t <= g * x + l) by (nonlinear_arith)
        requires
            -(g * y + 1 as real) <= z <= g * y + 1 as real,
            z == t * u,
            x * u == y,
            l * u == 1 as real,
            u > 0 as real,
    ;
    if d == 1 {
        assert(-(g * y) <= z <= g * y) by (nonlinear_arith)
            requires
                o == z * dr,
                y * dr == nr,
                dr == 1 as real,
                -nr <= o * s <= nr,
                g == 1 as real / s,
                s == 9007199254740992 as real,
        ;
        assert(-(g * x) <= t <= g * x) by (nonlinear_arith)
            requires
                -(g * y) <= z <= g * y,
                z == t * u,
                x * u == y,
                u > 0 as real,
        ;
    }
}

/// A sum is off by no more than the grain of the exact one.
pub proof fn law_sum_is_near(a: Double, b: Double)
    requires
        a.finite(),
        b.finite(),
        (a + b).finite(),
    ensures
        near(
            (a + b).value(),
            a.value() + b.value(),
            grain() * absolute(a.value() + b.value()),
        ),
{
    reveal(crate::double::sum);
    lemma_one_is_positive();
    let s = a.units() + b.units();
    let u = pow2(1074) as real;
    let (x, y, z) = (a.units() as real, b.units() as real, s as real);
    assert(x / u + y / u == z / u) by (nonlinear_arith)
        requires
            z == x + y,
            u > 0 as real,
    ;
    lemma_value_of_magnitude(a + b);
    let e = z / u;
    if s == 0 {
        lemma_units_zero(0);
        assert(e == 0 as real) by (nonlinear_arith)
            requires
                e == z / u,
                z == 0 as real,
                u > 0 as real,
        ;
        let m = 0 as real / u;
        assert(m == 0 as real) by (nonlinear_arith)
            requires
                m == 0 as real / u,
                u > 0 as real,
        ;
        let g = grain();
        assert(g * absolute(e) == 0 as real) by (nonlinear_arith)
            requires
                e == 0 as real,
        ;
        assert((a + b).value() == 0 as real);
        assert(a.value() + b.value() == e);
    } else {
        let n: nat = if s < 0 { (-s) as nat } else { s as nat };
        lemma_rounded_value(n, 1);
        let nr = n as real;
        assert(nr / 1 as real == nr);
        assert(nr / u == absolute(e)) by (nonlinear_arith)
            requires
                nr == absolute(z),
                e == z / u,
                u > 0 as real,
        ;
        assert(e < (0 as real) <==> s < 0) by (nonlinear_arith)
            requires
                z < (0 as real) <==> s < 0,
                e == z / u,
                u > 0 as real,
        ;
        let v = magnitude_units((a + b).magnitude()) as real / u;
        assert(near(v, absolute(e), grain() * absolute(e)));
        assert((a + b).value() == if s < 0 { -v } else { v });
    }
}

/// So is a difference.
pub proof fn law_difference_is_near(a: Double, b: Double)
    requires
        a.finite(),
        b.finite(),
        (a - b).finite(),
    ensures
        near(
            (a - b).value(),
            a.value() - b.value(),
            grain() * absolute(a.value() - b.value()),
        ),
{
    law_opposite_value(b);
    law_sum_is_near(a, b.opposite());
}

/// A product is off by no more than the grain of the exact one, and the least number.
pub proof fn law_product_is_near(a: Double, b: Double)
    requires
        a.finite(),
        b.finite(),
        (a * b).finite(),
    ensures
        near(
            (a * b).value(),
            a.value() * b.value(),
            grain() * absolute(a.value() * b.value()) + least(),
        ),
{
    reveal(crate::double::product);
    lemma_one_is_positive();
    lemma_pow2_pos(1074);
    let m = magnitude_units(a.magnitude());
    let n = magnitude_units(b.magnitude());
    lemma_rounded_value(m * n, pow2(1074));
    lemma_value_of_magnitude(a);
    lemma_value_of_magnitude(b);
    lemma_value_of_magnitude(a * b);
    let u = pow2(1074) as real;
    let (x, y) = (m as real, n as real);
    assert((m * n) as real == x * y) by (nonlinear_arith)
        requires
            x == m as real,
            y == n as real,
    ;
    let e = x * y / u / u;
    let (p, q) = (x / u, y / u);
    assert(e == p * q && e >= 0 as real) by (nonlinear_arith)
        requires
            e == x * y / u / u,
            p == x / u,
            q == y / u,
            u > 0 as real,
            x >= 0 as real,
            y >= 0 as real,
    ;
    assert((-p) * q == -(p * q) && p * (-q) == -(p * q) && (-p) * (-q) == p * q)
        by (nonlinear_arith);
}

/// So is a quotient.
pub proof fn law_quotient_is_near(a: Double, b: Double)
    requires
        a.finite(),
        b.finite(),
        !b.zero(),
        (a / b).finite(),
    ensures
        near(
            (a / b).value(),
            a.value() / b.value(),
            grain() * absolute(a.value() / b.value()) + least(),
        ),
{
    reveal(crate::double::ratio);
    lemma_one_is_positive();
    lemma_pow2_pos(1074);
    let m = magnitude_units(a.magnitude());
    let n = magnitude_units(b.magnitude());
    lemma_units_zero(b.magnitude());
    lemma_rounded_value(m * pow2(1074), n);
    lemma_value_of_magnitude(a);
    lemma_value_of_magnitude(b);
    lemma_value_of_magnitude(a / b);
    let u = pow2(1074) as real;
    let one = pow2(1074);
    let (x, y) = (m as real, n as real);
    assert((m * one) as real == x * u) by (nonlinear_arith)
        requires
            x == m as real,
            u == one as real,
    ;
    let e = x * u / y / u;
    let (p, q) = (x / u, y / u);
    assert(q > 0 as real) by (nonlinear_arith)
        requires
            q == y / u,
            u > 0 as real,
            y > 0 as real,
    ;
    assert(e == p / q && e >= 0 as real) by (nonlinear_arith)
        requires
            e == x * u / y / u,
            p == x / u,
            q == y / u,
            u > 0 as real,
            x >= 0 as real,
            y > 0 as real,
            q > 0 as real,
    ;
    assert((-p) / q == -(p / q) && p / (-q) == -(p / q) && (-p) / (-q) == p / q)
        by (nonlinear_arith)
        requires
            q > 0 as real,
    ;
}

/// The square of a root is off by no more than three grains of what the root was taken
/// of. A root never overflows.
pub proof fn law_root_is_near(a: Double)
    requires
        a.finite(),
        a.value() >= 0 as real,
    ensures
        a.root().finite(),
        a.root().value() >= 0 as real,
        near(a.root().value() * a.root().value(), a.value(), 3 as real * grain() * a.value()),
{
    reveal(crate::double::square_root);
    lemma_one_is_positive();
    lemma_value_of_magnitude(a);
    lemma_value_of_magnitude(a.root());
    law_order_of_values(a, a);
    let u = pow2(1074) as real;
    let one = pow2(1074);
    if a.zero() {
        assert(a.root() == a);
        assert(0 as real * (0 as real) == 0 as real);
    } else {
        let n = magnitude_units(a.magnitude());
        lemma_units_zero(a.magnitude());
        let top = lemma_representable((SIGNIFICAND_BOUND - 1) as nat, 2045);
        assert(n < pow2(2098)) by {
            crate::rounding::lemma_magnitude_parts(a.magnitude());
            let k = crate::rounding::magnitude_exponent(a.magnitude());
            let m = crate::rounding::magnitude_significand(a.magnitude());
            assert(k <= 2045) by (nonlinear_arith)
                requires
                    a.magnitude() == k * BINADE + m,
                    k > 0 ==> m >= BINADE,
                    m >= 0,
                    a.magnitude() < 2047 * BINADE,
            ;
            lemma_pow2_ordered(k, 2045);
            lemma_pow2_adds(53, 2045);
            lemma_pow2_wide();
            lemma_pow2_pos(2045);
            lemma_pow2_pos(k);
            assert(m * pow2(k) < SIGNIFICAND_BOUND * pow2(2045)) by (nonlinear_arith)
                requires
                    m < SIGNIFICAND_BOUND,
                    0 < pow2(k) <= pow2(2045),
            ;
        }
        lemma_root_error(n);
        let v = (n * one) as int;
        let r = magnitude_units(a.root().magnitude()) as int;
        let p = choose|p: int|
            0 < p && #[trigger] (p * BINADE) <= r && (2 * r - p) * (2 * r - p) <= 4 * v <= (2 * r
                + p) * (2 * r + p);
        assert(-(r * p) <= v - r * r <= r * p + p * p && r * r >= 0) by (nonlinear_arith)
            requires
                (2 * r - p) * (2 * r - p) <= 4 * v <= (2 * r + p) * (2 * r + p),
                p > 0,
        ;
        let b = BINADE as int;
        assert((r * p) * b <= r * r && (p * p) * b <= r * p) by (nonlinear_arith)
            requires
                p * b <= r,
                p > 0,
                b > 0,
        ;
        // hence the error is at most that of two grains and a bit
        assert(-(r * r) <= b * (v - r * r) <= r * r + r * p) by (nonlinear_arith)
            requires
                -(r * p) <= v - r * r <= r * p + p * p,
                (r * p) * b <= r * r,
                (p * p) * b <= r * p,
                b > 0,
        ;
        let (x, y, nr) = (r as real, v as real, n as real);
        assert((r * r) as real == x * x) by (nonlinear_arith)
            requires
                x == r as real,
        ;
        assert((n * one) as real == nr * u) by (nonlinear_arith)
            requires
                nr == n as real,
                u == one as real,
        ;
        let w = (r * p) as real;
        let br = BINADE as real;
        assert(br * (y - x * x) == (b * (v - r * r)) as real);
        assert(((r * p) * b) as real == w * br);
        assert(-(x * x) <= br * (y - x * x) <= x * x + w);
        assert(w * br <= x * x);
        let g = grain();
        assert(g * 2 as real * br == 1 as real) by (nonlinear_arith)
            requires
                g * 9007199254740992 as real == 1 as real,
                br == 4503599627370496 as real,
        ;
        assert(y - 3 as real * g * y <= x * x <= y + 3 as real * g * y) by (nonlinear_arith)
            requires
                -(x * x) <= br * (y - x * x) <= x * x + w,
                w * br <= x * x,
                g * 2 as real * br == 1 as real,
                br == 4503599627370496 as real,
        ;
        let (s, c) = (x / u, nr / u);
        assert(s * s * (u * u) == x * x && c * (u * u) == y) by (nonlinear_arith)
            requires
                s == x / u,
                c == nr / u,
                y == nr * u,
                u > 0 as real,
        ;
        assert(c - 3 as real * g * c <= s * s <= c + 3 as real * g * c) by (nonlinear_arith)
            requires
                s * s * (u * u) == x * x,
                c * (u * u) == y,
                y - 3 as real * g * y <= x * x <= y + 3 as real * g * y,
                u > 0 as real,
        ;
    }
}

// ---- what does not overflow ----

/// How the bounds compare.
pub proof fn lemma_bounds()
    ensures
        1 as real <= large(),
        1000 as real * large() * large() <= vast(),
        1000 as real * large() <= vast(),
        least() <= grain() * grain() * grain(),
{
    vstd::arithmetic::power2::lemma2_to64();
    lemma_pow2_ordered(0, 400);
    lemma_pow2_adds(400, 400);
    lemma_pow2_adds(10, 800);
    lemma_pow2_ordered(810, 1000);
    let (a, b) = (pow2(400), pow2(800));
    assert((a * a) as real == a as real * (a as real)) by (nonlinear_arith);
    assert(1024 * (a * a) <= pow2(1000)) by (nonlinear_arith)
        requires
            a * a == b,
            1024 * b <= pow2(1000),
    ;
    let l = large();
    assert(1000 as real * l * l <= 1024 as real * (l * l) && 1000 as real * l <= 1024 as real * (l
        * l)) by (nonlinear_arith)
        requires
            l >= 1 as real,
    ;
    lemma_one_is_positive();
    lemma_pow2_wide();
    lemma_pow2_adds(53, 53);
    lemma_pow2_adds(53, 106);
    lemma_pow2_ordered(159, 1074);
    let g = grain();
    let u = pow2(1074) as real;
    let s = SIGNIFICAND_BOUND as real;
    let n = SIGNIFICAND_BOUND as int;
    assert((n * (n * n)) as real == s * (s * s)) by (nonlinear_arith)
        requires
            s == n as real,
    ;
    assert(1 as real / u <= g * g * g) by (nonlinear_arith)
        requires
            g == 1 as real / s,
            s == 9007199254740992 as real,
            u >= s * (s * s),
    ;
}

proof fn lemma_rounded_finite(n: nat, d: nat)
    requires
        d > 0,
        n as real / d as real <= vast() * pow2(1074) as real,
    ensures
        round_to_magnitude(n, d) < INFINITE,
{
    lemma_pow2_pos(1074);
    lemma_pow2_pos(1000);
    lemma_pow2_adds(1000, 1074);
    lemma_pow2_adds(52, 2022);
    lemma_pow2_wide();
    let top = pow2(2074);
    let (nr, dr, tr) = (n as real, d as real, top as real);
    let (a, b) = (pow2(1000), pow2(1074));
    assert((a * b) as real == a as real * (b as real)) by (nonlinear_arith);
    assert(nr <= dr * tr) by (nonlinear_arith)
        requires
            nr / dr <= tr,
            dr > 0 as real,
    ;
    assert((d * top) as real == dr * tr) by (nonlinear_arith)
        requires
            dr == d as real,
            tr == top as real,
    ;
    assert(n <= d * top);
    let m = lemma_representable(BINADE as nat, 2022);
    lemma_round_exact(m, 1);
    assert(magnitude_units(m) * 1 == top);
    assert(n * 1 <= top * d) by (nonlinear_arith)
        requires
            n <= d * top,
    ;
    lemma_round_monotone(n, d, top, 1);
}

/// A sum that is not vast is finite.
pub proof fn law_sum_is_finite(a: Double, b: Double)
    requires
        a.finite(),
        b.finite(),
        absolute(a.value() + b.value()) <= vast(),
    ensures
        (a + b).finite(),
{
    reveal(crate::double::sum);
    lemma_one_is_positive();
    let s = a.units() + b.units();
    let u = pow2(1074) as real;
    let (x, y, z) = (a.units() as real, b.units() as real, s as real);
    let n: nat = if s < 0 { (-s) as nat } else { s as nat };
    let t = vast();
    assert(absolute(z) / 1 as real <= t * u) by (nonlinear_arith)
        requires
            z == x + y,
            u > 0 as real,
            absolute(x / u + y / u) <= t,
    ;
    lemma_rounded_finite(n, 1);
}

/// A difference that is not vast is finite.
pub proof fn law_difference_is_finite(a: Double, b: Double)
    requires
        a.finite(),
        b.finite(),
        absolute(a.value() - b.value()) <= vast(),
    ensures
        (a - b).finite(),
{
    law_opposite_value(b);
    law_sum_is_finite(a, b.opposite());
}

/// A product that is not vast is finite.
pub proof fn law_product_is_finite(a: Double, b: Double)
    requires
        a.finite(),
        b.finite(),
        absolute(a.value() * b.value()) <= vast(),
    ensures
        (a * b).finite(),
{
    reveal(crate::double::product);
    lemma_one_is_positive();
    lemma_pow2_pos(1074);
    let m = magnitude_units(a.magnitude());
    let n = magnitude_units(b.magnitude());
    lemma_value_of_magnitude(a);
    lemma_value_of_magnitude(b);
    let u = pow2(1074) as real;
    let (x, y) = (m as real, n as real);
    assert((m * n) as real == x * y) by (nonlinear_arith)
        requires
            x == m as real,
            y == n as real,
    ;
    let (p, q) = (x / u, y / u);
    let t = vast();
    assert((-p) * q == -(p * q) && p * (-q) == -(p * q) && (-p) * (-q) == p * q)
        by (nonlinear_arith);
    assert(x * y / u <= t * u) by (nonlinear_arith)
        requires
            p == x / u,
            q == y / u,
            p * q <= t,
            u > 0 as real,
    ;
    lemma_rounded_finite(m * n, pow2(1074));
}

/// A quotient that is not vast is finite.
pub proof fn law_quotient_is_finite(a: Double, b: Double)
    requires
        a.finite(),
        b.finite(),
        !b.zero(),
        absolute(a.value()) <= vast() * absolute(b.value()),
    ensures
        (a / b).finite(),
{
    reveal(crate::double::ratio);
    lemma_one_is_positive();
    lemma_pow2_pos(1074);
    let m = magnitude_units(a.magnitude());
    let n = magnitude_units(b.magnitude());
    lemma_units_zero(b.magnitude());
    lemma_value_of_magnitude(a);
    lemma_value_of_magnitude(b);
    let u = pow2(1074) as real;
    let one = pow2(1074);
    let (x, y) = (m as real, n as real);
    assert((m * one) as real == x * u) by (nonlinear_arith)
        requires
            x == m as real,
            u == one as real,
    ;
    let (p, q) = (x / u, y / u);
    let t = vast();
    assert(x * u / y <= t * u) by (nonlinear_arith)
        requires
            p == x / u,
            q == y / u,
            p <= t * q,
            u > 0 as real,
            y > 0 as real,
    ;
    lemma_rounded_finite(m * one, n);
}

// ---- products of real numbers ----

/// The product of two numbers that are not negative is not negative.
pub proof fn lemma_times(p: real, q: real)
    by (nonlinear_arith)
    requires
        p >= 0 as real,
        q >= 0 as real,
    ensures
        p * q >= 0 as real,
{
}

/// What is multiplied by the same number keeps its order.
pub proof fn lemma_scaled(p: real, x: real, y: real)
    requires
        p >= 0 as real,
        x <= y,
    ensures
        p * x <= p * y,
{
    let d = y - x;
    lemma_times(p, d);
    assert(p * d == p * y - p * x) by (nonlinear_arith)
        requires
            d == y - x,
    ;
}

/// A positive factor does not change the sign.
pub proof fn lemma_cancelled(p: real, x: real)
    by (nonlinear_arith)
    requires
        p > 0 as real,
        p * x <= 0 as real,
    ensures
        x <= 0 as real,
{
}

/// The product of two numbers, by their bounds.
pub proof fn lemma_product_bound(x: real, y: real, a: real, b: real)
    requires
        -a <= x <= a,
        -b <= y <= b,
    ensures
        -(a * b) <= x * y <= a * b,
{
    let (p, q, r, s) = (a - x, a + x, b - y, b + y);
    lemma_times(p, s);
    lemma_times(q, r);
    lemma_times(p, r);
    lemma_times(q, s);
    assert(p * s + q * r == 2 as real * (a * b) - 2 as real * (x * y)) by (nonlinear_arith)
        requires
            p == a - x,
            q == a + x,
            r == b - y,
            s == b + y,
    ;
    assert(p * r + q * s == 2 as real * (a * b) + 2 as real * (x * y)) by (nonlinear_arith)
        requires
            p == a - x,
            q == a + x,
            r == b - y,
            s == b + y,
    ;
}

/// A square is not negative.
pub proof fn lemma_square(x: real)
    ensures
        x * x >= 0 as real,
        absolute(x) * absolute(x) == x * x,
{
    let a = absolute(x);
    lemma_times(a, a);
    let m = -x;
    assert(m * m == x * x) by (nonlinear_arith)
        requires
            m == -x,
    ;
}

/// Twice the product is at most the sum of the squares.
pub proof fn lemma_mixed_product(a: real, b: real)
    ensures
        2 as real * (a * b) <= a * a + b * b,
{
    let d = a - b;
    assert(d * d == a * a - 2 as real * (a * b) + b * b) by (nonlinear_arith)
        requires
            d == a - b,
    ;
    lemma_square(d);
}

/// A grain of a number.
pub proof fn lemma_grain_of(x: real)
    ensures
        (grain() * x) * 9007199254740992 as real == x,
        x >= 0 as real ==> 0 as real <= 1000000 as real * (grain() * x) <= x,
        x <= 0 as real ==> x <= 1000000 as real * (grain() * x) <= 0 as real,
{
    lemma_one_is_positive();
    let g = grain();
    let y = g * x;
    let k = 9007199254740992 as real;
    assert(y * k == x ==> (x >= 0 as real ==> 0 as real <= 1000000 as real * y <= x) && (x
        <= 0 as real ==> x <= 1000000 as real * y <= 0 as real)) by (nonlinear_arith)
        requires
            k == 9007199254740992 as real,
    ;
    assert(y * k == (g * k) * x) by (nonlinear_arith)
        requires
            y == g * x,
    ;
    assert((g * k) * x == x) by (nonlinear_arith)
        requires
            g * k == 1 as real,
    ;
}

/// The square of a number that is off by no more than so much.
pub proof fn lemma_square_near(v: real, d: real, off: real)
    requires
        near(v, d, off),
    ensures
        near(v * v, d * d, 2 as real * (absolute(d) * off) + off * off),
{
    let e = v - d;
    assert(v * v == d * d + 2 as real * (d * e) + e * e) by (nonlinear_arith)
        requires
            e == v - d,
    ;
    lemma_product_bound(d, e, absolute(d), off);
    lemma_product_bound(e, e, off, off);
    lemma_square(e);
}

/// A square, from a number that is off by a few grains of something that is not less.
pub proof fn lemma_square_near_scaled(v: real, d: real, c: real, few: real)
    requires
        near(v, d, few * (grain() * c)),
        absolute(d) <= c,
        0 as real <= few <= 1000 as real,
    ensures
        near(v * v, d * d, (2 as real * few + 1 as real) * (grain() * (c * c))),
{
    lemma_one_is_positive();
    let g = grain();
    let gc = g * c;
    let off = few * gc;
    let cc = c * c;
    let gcc = g * cc;
    lemma_square_near(v, d, off);
    lemma_times(g, c);
    lemma_times(few, gc);
    lemma_scaled(off, absolute(d), c);
    let a = absolute(d);
    assert(off * a == a * off) by (nonlinear_arith);
    assert(off * c == few * gcc) by (nonlinear_arith)
        requires
            off == few * gc,
            gc == g * c,
            gcc == g * cc,
            cc == c * c,
    ;
    lemma_few_grains_squared(c, few);
    assert((2 as real * few + 1 as real) * gcc == 2 as real * (few * gcc) + gcc)
        by (nonlinear_arith);
}

proof fn lemma_few_grains_squared(c: real, few: real)
    requires
        c >= 0 as real,
        0 as real <= few <= 1000 as real,
    ensures
        (few * (grain() * c)) * (few * (grain() * c)) <= grain() * (c * c),
{
    lemma_one_is_positive();
    let g = grain();
    let gc = g * c;
    let cc = c * c;
    let off = few * gc;
    lemma_times(g, c);
    lemma_times(few, gc);
    lemma_scaled(gc, few, 1000 as real);
    assert(gc * few == off) by (nonlinear_arith)
        requires
            off == few * gc,
    ;
    lemma_product_bound(off, off, 1000 as real * gc, 1000 as real * gc);
    let gcc = g * cc;
    let ggcc = g * gcc;
    lemma_square(c);
    lemma_times(g, cc);
    lemma_grain_of(gcc);
    let k = 1000 as real * gc;
    assert(k * k == 1000000 as real * ggcc) by (nonlinear_arith)
        requires
            k == 1000 as real * gc,
            gc == g * c,
            ggcc == g * gcc,
            gcc == g * cc,
            cc == c * c,
    ;
}

/// A square, from a number that is off by a few grains of it.
pub proof fn lemma_square_near_grains(v: real, d: real, few: real)
    requires
        near(v, d, few * (grain() * absolute(d))),
        0 as real <= few <= 1000 as real,
    ensures
        near(v * v, d * d, (2 as real * few + 1 as real) * (grain() * (d * d))),
{
    lemma_square(d);
    lemma_square_near_scaled(v, d, absolute(d), few);
}

/// The size of a product.
pub proof fn lemma_size_of_product(x: real, p: real)
    requires
        p >= 0 as real,
    ensures
        absolute(x * p) == absolute(x) * p,
{
    let m = -x;
    assert(m * p == -(x * p)) by (nonlinear_arith)
        requires
            m == -x,
    ;
    lemma_times(absolute(x), p);
}

/// A quotient, times what it was divided by.
pub proof fn lemma_quotient_times(w: real, v: real)
    requires
        v != 0 as real,
    ensures
        (w / v) * v == w,
{
    let q = w / v;
    assert(q * v == w) by (nonlinear_arith)
        requires
            q == w / v,
            v != 0 as real,
    ;
}

/// A number whose square is the lesser one is the lesser one.
pub proof fn lemma_root_order(a: real, b: real)
    requires
        a >= 0 as real,
        b >= 0 as real,
        a * a <= b * b,
    ensures
        a <= b,
{
    if a > b {
        let d = a - b;
        lemma_times(d, b);
        assert(a * a - b * b == d * d + 2 as real * (d * b)) by (nonlinear_arith)
            requires
                d == a - b,
        ;
        assert(d * d > 0 as real) by (nonlinear_arith)
            requires
                d > 0 as real,
        ;
    }
}

/// A quotient of doubles, times what it was divided by.
pub proof fn law_quotient_times_divisor(a: Double, b: Double)
    requires
        a.finite(),
        b.finite(),
        b.value() > 0 as real,
        (a / b).finite(),
    ensures
        near(
            (a / b).value() * b.value(),
            a.value(),
            grain() * absolute(a.value()) + least() * b.value(),
        ),
{
    law_order_of_values(b, b);
    law_quotient_is_near(a, b);
    let (u, w, v) = ((a / b).value(), a.value(), b.value());
    let q = w / v;
    lemma_quotient_times(w, v);
    let g = grain();
    let l = least();
    let c = g * absolute(q) + l;
    let e = u - q;
    lemma_product_bound(e, v, c, v);
    assert(e * v == u * v - q * v) by (nonlinear_arith)
        requires
            e == u - q,
    ;
    lemma_size_of_product(q, v);
    let s = absolute(q);
    assert(c * v == g * (s * v) + l * v) by (nonlinear_arith)
        requires
            c == g * s + l,
    ;
}

proof fn lemma_two_roundings(s: real, a: real, p: real, e: real, ge: real, gs: real, l: real)
    by (nonlinear_arith)
    requires
        near(p, e, ge + l),
        near(s, a + p, gs),
        ge * 9007199254740992 as real == absolute(e),
        gs * 9007199254740992 as real == absolute(a + p),
        l >= 0 as real,
    ensures
        ({
            let few = (3 as real * (absolute(a) + absolute(e))) / 9007199254740992 as real;
            near(s, a + e, few + 2 as real * l)
        }),
{
}

/// A number and a product, added up.
pub proof fn law_sum_with_product_is_near(a: Double, b: Double, c: Double)
    requires
        a.finite(),
        b.finite(),
        c.finite(),
        (b * c).finite(),
        (a + b * c).finite(),
    ensures
        ({
            let e = b.value() * c.value();
            near(
                (a + b * c).value(),
                a.value() + e,
                3 as real * (grain() * (absolute(a.value()) + absolute(e))) + 2 as real * least(),
            )
        }),
{
    lemma_one_is_positive();
    law_product_is_near(b, c);
    law_sum_is_near(a, b * c);
    let e = b.value() * c.value();
    let (s, x, p, l) = ((a + b * c).value(), a.value(), (b * c).value(), least());
    lemma_grain_of(absolute(e));
    lemma_grain_of(absolute(x + p));
    let t = absolute(x) + absolute(e);
    lemma_grain_of(t);
    lemma_two_roundings(s, x, p, e, grain() * absolute(e), grain() * absolute(x + p), l);
    let gt = grain() * t;
    assert((3 as real * t) / 9007199254740992 as real == 3 as real * gt) by (nonlinear_arith)
        requires
            gt * 9007199254740992 as real == t,
    ;
}

/// What is divided by one or more stays finite.
pub proof fn law_quotient_by_more_than_one_is_finite(a: Double, b: Double)
    requires
        a.finite(),
        b.finite(),
        b.value() >= 1 as real,
    ensures
        (a / b).finite(),
{
    reveal(crate::double::ratio);
    lemma_one_is_positive();
    lemma_pow2_pos(1074);
    law_order_of_values(b, b);
    lemma_value_of_magnitude(b);
    let m = magnitude_units(a.magnitude());
    let n = magnitude_units(b.magnitude());
    lemma_units_zero(b.magnitude());
    let one = pow2(1074);
    let (u, y) = (one as real, n as real);
    assert(y >= u) by (nonlinear_arith)
        requires
            y / u >= 1 as real,
            u > 0 as real,
    ;
    // no more than the magnitude of the first
    lemma_round_exact(a.magnitude(), 1);
    assert((m * one) * 1 <= m * n) by (nonlinear_arith)
        requires
            one <= n,
            m >= 0,
    ;
    assert(m * 1 == m);
    lemma_round_monotone(m * one, n, m, 1);
}

/// To double a number takes no rounding.
pub proof fn law_twice_is_exact(a: Double)
    requires
        a.finite(),
        absolute(a.value()) <= vast(),
    ensures
        (Double::of(2) * a).finite(),
        (Double::of(2) * a).value() == 2 as real * a.value(),
{
    reveal(crate::double::product);
    lemma_one_is_positive();
    law_small_integers_are_exact(2);
    law_integer_value(2);
    let two = Double::of(2);
    assert(!two.negative()) by {
        reveal(crate::double::of_integer);
    }
    let one = pow2(1074);
    lemma_pow2_pos(1074);
    let b = a.magnitude();
    let u = magnitude_units(b);
    assert(magnitude_units(two.magnitude()) == 2 * one);
    crate::rounding::lemma_magnitude_parts(b);
    let k = crate::rounding::magnitude_exponent(b);
    let m = crate::rounding::magnitude_significand(b);
    let p = pow2(k);
    lemma_pow2_pos(k);
    lemma_value_of_magnitude(a);
    if k > 2044 {
        // such a number is vast
        lemma_pow2_ordered(2023, k);
        lemma_pow2_adds(1000, 1074);
        lemma_pow2_adds(52, 2023);
        lemma_pow2_unfold(2075);
        lemma_pow2_wide();
        let (h, o) = (pow2(1000), pow2(1074));
        let top = pow2(2074);
        lemma_pow2_pos(2074);
        assert((h * o) as real == h as real * (o as real)) by (nonlinear_arith);
        assert(u >= 2 * top) by (nonlinear_arith)
            requires
                u == m * p,
                m >= BINADE,
                p >= pow2(2023),
                2 * top == BINADE * pow2(2023),
        ;
        let (x, y, z) = (u as real, o as real, h as real);
        assert(x <= z * y) by (nonlinear_arith)
            requires
                x / y <= z,
                y > 0 as real,
        ;
        assert(false);
    }
    let c = lemma_representable(m, k + 1);
    lemma_pow2_unfold(k + 1);
    assert(m * (2 * p) == 2 * (m * p)) by (nonlinear_arith);
    assert(magnitude_units(c) == 2 * u);
    lemma_round_exact(c, one);
    assert((2 * one) * u == (2 * u) * one) by (nonlinear_arith);
    let twice = two * a;
    assert(twice.magnitude() == c && twice.negative() == a.negative());
    lemma_value_of_magnitude(twice);
    let (x, y) = (u as real, one as real);
    assert((2 as real * x) / y == 2 as real * (x / y)) by (nonlinear_arith)
        requires
            y > 0 as real,
    ;
}

} // verus!
