//! What the speed at a corner has to do with its angle.
use vstd::prelude::*;
use crate::double::Double;
use crate::order::law_difference_is_positive;
use crate::order::law_one_is_one;
use crate::order::law_quotient_is_not_negative;
use crate::order::law_small_integers_are_positive;
use crate::order::lemma_half_of_one_more;
use crate::order::lemma_root_below_one;
use crate::value::absolute;
use crate::value::grain;
use crate::value::large;
use crate::value::law_difference_is_finite;
use crate::value::law_difference_is_near;
use crate::value::law_integer_value;
use crate::value::law_opposite_value;
use crate::value::law_order_of_values;
use crate::value::law_product_is_finite;
use crate::value::law_product_is_near;
use crate::value::law_quotient_is_finite;
use crate::value::law_quotient_is_near;
use crate::value::law_quotient_times_divisor;
use crate::value::law_root_is_near;
use crate::value::law_zero_value;
use crate::value::least;
use crate::value::lemma_bounds;
use crate::value::lemma_grain_of;
use crate::value::lemma_one_is_positive;
use crate::value::lemma_product_bound;
use crate::value::lemma_scaled;
use crate::value::lemma_times;
use crate::value::moderate;
use crate::value::near;
use crate::value::vast;
use super::path_laws::dot;
use super::queue::corner_speed_sqr;
use super::queue::nearly_one;

verus! {

/// The sine of half the angle between the way back and the way on, as it is found.
spec fn half_sine(dot: Double) -> Double {
    let half = Double::of(1) / Double::of(2);
    (half * (Double::of(1) - dot.opposite())).greater(Double::nought()).root()
}

proof fn lemma_half_linear(y: real, half: real, sum: real, d: real, hs: real, l: real, g: real)
    by (nonlinear_arith)
    requires
        near(half * sum, sum / 2 as real, 8 as real * g),
        hs == half * sum,
        near(sum, 1 as real + d, 3 as real * g),
        near(y, hs, 3 as real * g),
        g >= 0 as real,
    ensures
        near(y, (1 as real + d) / 2 as real, 13 as real * g),
{
}

/// Half of one and the share, nearly.
#[verifier::spinoff_prover]
proof fn lemma_half_sum(dot: Double)
    requires
        dot.finite(),
        absolute(dot.value()) <= 2 as real,
    ensures
        ({
            let y = (Double::of(1) / Double::of(2)) * (Double::of(1) - dot.opposite());
            &&& y.finite()
            &&& near(y.value(), (1 as real + dot.value()) / 2 as real, 13 as real * grain())
        }),
{
    lemma_bounds();
    lemma_one_is_positive();
    let (g, l) = (grain(), least());
    lemma_grain_of(g);
    lemma_grain_of(g * g);
    lemma_grain_of(1 as real);
    assert(g * 1 as real == g) by (nonlinear_arith);
    assert(g * g * g == g * (g * g)) by (nonlinear_arith);
    assert(l <= g);
    law_integer_value(1);
    law_integer_value(2);
    let (one, two) = (Double::of(1), Double::of(2));
    law_order_of_values(two, two);
    lemma_scaled(vast(), 1 as real, 2 as real);
    law_quotient_is_finite(one, two);
    law_quotient_is_near(one, two);
    let half = one / two;
    let hv = half.value();
    let q = 1 as real / 2 as real;
    assert(g * absolute(q) <= g) by (nonlinear_arith)
        requires
            q == 1 as real / 2 as real,
            g >= 0 as real,
    ;
    let back = dot.opposite();
    law_opposite_value(dot);
    let d = dot.value();
    law_difference_is_finite(one, back);
    law_difference_is_near(one, back);
    let sum = (one - back).value();
    let e = 1 as real + d;
    lemma_scaled(g, absolute(e), 3 as real);
    assert(g * 3 as real == 3 as real * g) by (nonlinear_arith);
    assert(near(sum, e, 3 as real * g));
    assert(-(4 as real) <= sum <= 4 as real);
    let off = hv - q;
    let g2 = 2 as real * g;
    assert(near(hv, q, g2));
    let hs = hv * sum;
    assert(off * sum == hs - sum / 2 as real) by (nonlinear_arith)
        requires
            off == hv - q,
            q == 1 as real / 2 as real,
            hs == hv * sum,
    ;
    lemma_eight_grains(off, sum, g, hs);
    lemma_product_bound(hv, sum, 1 as real, 4 as real);
    law_product_is_finite(half, one - back);
    law_product_is_near(half, one - back);
    lemma_scaled(g, absolute(hs), 2 as real);
    assert(g * 2 as real == 2 as real * g) by (nonlinear_arith);
    let y = (half * (one - back)).value();
    lemma_half_linear(y, hv, sum, d, hs, l, g);
}

#[verifier::spinoff_prover]
proof fn lemma_eight_grains(off: real, sum: real, g: real, hs: real)
    requires
        off * sum == hs - sum / 2 as real,
        near(off, 0 as real, 2 as real * g),
        absolute(sum) <= 4 as real,
        g >= 0 as real,
    ensures
        near(hs, sum / 2 as real, 8 as real * g),
{
    let g2 = 2 as real * g;
    lemma_product_bound(off, sum, g2, 4 as real);
    assert(g2 * 4 as real == 8 as real * g) by (nonlinear_arith)
        requires
            g2 == 2 as real * g,
    ;
}

/// The sine of half the angle is below one where the path does not go straight on.
#[verifier::spinoff_prover]
proof fn lemma_half_sine(d: Double)
    requires
        d.finite(),
        absolute(d.value()) <= 2 as real,
        !nearly_one().below(d),
    ensures
        ({
            let s = half_sine(d);
            let e = (1 as real + d.value()) / 2 as real;
            let clamped = if e < 0 as real {
                0 as real
            } else {
                e
            };
            &&& s.finite()
            &&& 0 as real <= s.value() < 1 as real
            &&& near(s.value() * s.value(), clamped, 20 as real * grain())
        }),
{
    lemma_one_is_positive();
    let one = Double::of(1);
    law_one_is_one();
    law_integer_value(1);
    law_zero_value();
    let y = (one / Double::of(2)) * (one - d.opposite());
    lemma_half_sum(d);
    assert(d.opposite().opposite() == d);
    assert(!nearly_one().nan()) by {
        law_small_integers_are_positive(999_999);
        law_small_integers_are_positive(1_000_000);
        law_quotient_is_not_negative(Double::of(999_999), Double::of(1_000_000));
    }
    lemma_half_of_one_more(d);
    let c = y.greater(Double::nought());
    law_order_of_values(y, Double::nought());
    law_order_of_values(Double::nought(), y);
    lemma_root_below_one(c);
    law_root_is_near(c);
    let s = c.root();
    law_order_of_values(s, one);
    assert(s.below(one));
    let (g, cv) = (grain(), c.value());
    assert(3 as real * g * cv == 3 as real * (g * cv)) by (nonlinear_arith);
    lemma_scaled(g, cv, 2 as real);
    assert(g * 2 as real == 2 as real * g) by (nonlinear_arith);
}

proof fn lemma_corner_linear(
    p: real,
    vw: real,
    n: real,
    ms: real,
    qs: real,
    gp: real,
    gn: real,
    gms: real,
    gqs: real,
    l: real,
)
    by (nonlinear_arith)
    requires
        near(ms, qs, gqs + l),
        near(n, ms, gms + l),
        near(vw, n, gn + 2 as real * l),
        near(vw, p, gp),
        gqs * 9007199254740992 as real == qs,
        gms * 9007199254740992 as real == absolute(ms),
        gn * 9007199254740992 as real == absolute(n),
        gp * 9007199254740992 as real == p,
        qs >= 0 as real,
        p >= 0 as real,
        l >= 0 as real,
    ensures
        near(p, qs, 6 as real * gqs + 6 as real * l),
{
}

/// A product of three numbers, of which the last is at most one.
#[verifier::spinoff_prover]
proof fn lemma_lead(accel: Double, deviation: Double, s: Double)
    requires
        moderate(accel) && accel.value() >= 0 as real,
        moderate(deviation) && deviation.value() >= 0 as real,
        s.finite() && 0 as real <= s.value() <= 1 as real,
    ensures
        ({
            let m = accel * deviation;
            let q = accel.value() * deviation.value();
            let qs = q * s.value();
            let ms = m.value() * s.value();
            &&& m.finite() && (m * s).finite()
            &&& q >= 0 as real && qs >= 0 as real
            &&& near(ms, qs, grain() * qs + least())
            &&& near((m * s).value(), ms, grain() * absolute(ms) + least())
        }),
{
    lemma_bounds();
    lemma_one_is_positive();
    let (a, b, z) = (accel.value(), deviation.value(), s.value());
    let (h, g, l) = (large(), grain(), least());
    let q = a * b;
    lemma_times(a, b);
    lemma_product_bound(a, b, h, h);
    let hh = h * h;
    assert(1000 as real * h * h == 1000 as real * hh) by (nonlinear_arith)
        requires
            hh == h * h,
    ;
    lemma_scaled(h, 1 as real, h);
    assert(h * 1 as real == h) by (nonlinear_arith);
    law_product_is_finite(accel, deviation);
    law_product_is_near(accel, deviation);
    let m = (accel * deviation).value();
    let gq = g * q;
    lemma_grain_of(q);
    let off = m - q;
    let bound = gq + l;
    lemma_times(g, q);
    lemma_product_bound(off, z, bound, z);
    let (ms, qs) = (m * z, q * z);
    assert(off * z == ms - qs) by (nonlinear_arith)
        requires
            off == m - q,
            ms == m * z,
            qs == q * z,
    ;
    let gqs = g * qs;
    assert(bound * z == gqs + l * z) by (nonlinear_arith)
        requires
            bound == gq + l,
            gq == g * q,
            gqs == g * qs,
            qs == q * z,
    ;
    lemma_scaled(l, z, 1 as real);
    assert(l * 1 as real == l) by (nonlinear_arith);
    lemma_times(q, z);
    lemma_slack_small();
    assert(-(2 as real * hh) <= m <= 2 as real * hh) by (nonlinear_arith)
        requires
            near(m, q, gq + l),
            gq * 9007199254740992 as real == q,
            0 as real <= q <= hh,
            0 as real <= l,
            2 as real * l <= 1 as real,
            hh >= 1 as real,
    ;
    lemma_product_bound(m, z, 2 as real * hh, 1 as real);
    let h2 = 2 as real * hh;
    assert(h2 * 1 as real == h2) by (nonlinear_arith);
    law_product_is_finite(accel * deviation, s);
    law_product_is_near(accel * deviation, s);
}

#[verifier::spinoff_prover]
proof fn lemma_slack_small()
    ensures
        2 as real * least() <= 1 as real,
{
    lemma_bounds();
    lemma_one_is_positive();
    let g = grain();
    lemma_grain_of(1 as real);
    assert(g * 1 as real == g) by (nonlinear_arith);
    lemma_grain_of(g);
    lemma_grain_of(g * g);
    assert(g * g * g == g * (g * g)) by (nonlinear_arith);
}

/// The speed at a corner follows from the angle there, the acceleration and the deviation.
/// Let `s` be the sine of half the angle between the way back and the way on, whose square
/// is half of one and the share that the one direction has in the other. Then the square of
/// the speed, times what `s` lacks of one, is the acceleration times the deviation times
/// `s`.
pub proof fn law_corner_speed_follows_from_the_angle(
    prev_unit: Seq<Double>,
    curr_unit: Seq<Double>,
    accel: Double,
    junction_deviation: Double,
) -> (s: Double)
    requires
        moderate(accel) && accel.value() >= 0 as real,
        moderate(junction_deviation) && junction_deviation.value() >= 0 as real,
        dot(prev_unit, curr_unit).finite(),
        absolute(dot(prev_unit, curr_unit).value()) <= 2 as real,
        !nearly_one().below(dot(prev_unit, curr_unit)),
        corner_speed_sqr(prev_unit, curr_unit, accel, junction_deviation).finite(),
    ensures
        ({
            let e = (1 as real + dot(prev_unit, curr_unit).value()) / 2 as real;
            let clamped = if e < 0 as real {
                0 as real
            } else {
                e
            };
            let v = corner_speed_sqr(prev_unit, curr_unit, accel, junction_deviation).value();
            let goal = accel.value() * junction_deviation.value() * s.value();
            &&& s.finite()
            &&& 0 as real <= s.value() < 1 as real
            &&& near(s.value() * s.value(), clamped, 20 as real * grain())
            &&& v >= 0 as real
            &&& near(
                v * (1 as real - s.value()),
                goal,
                6 as real * (grain() * goal) + 6 as real * least(),
            )
        }),
{
    let d = dot(prev_unit, curr_unit);
    let s = half_sine(d);
    lemma_half_sine(d);
    lemma_lead(accel, junction_deviation, s);
    lemma_corner(d, accel, junction_deviation, s);
    s
}

#[verifier::spinoff_prover]
proof fn lemma_corner(d: Double, accel: Double, deviation: Double, s: Double)
    requires
        moderate(accel) && accel.value() >= 0 as real,
        moderate(deviation) && deviation.value() >= 0 as real,
        s.finite() && 0 as real <= s.value() < 1 as real,
        (((accel * deviation) * s) / (Double::of(1) - s)).finite(),
    ensures
        ({
            let v = (((accel * deviation) * s) / (Double::of(1) - s)).value();
            let goal = accel.value() * deviation.value() * s.value();
            &&& v >= 0 as real
            &&& near(
                v * (1 as real - s.value()),
                goal,
                6 as real * (grain() * goal) + 6 as real * least(),
            )
        }),
{
    lemma_one_is_positive();
    lemma_bounds();
    law_integer_value(1);
    law_zero_value();
    let one = Double::of(1);
    lemma_lead(accel, deviation, s);
    let n = (accel * deviation) * s;
    law_difference_is_finite(one, s);
    law_difference_is_near(one, s);
    law_order_of_values(s, one);
    law_difference_is_positive(one, s);
    let w = one - s;
    law_order_of_values(Double::nought(), w);
    law_quotient_times_divisor(n, w);
    let v = (n / w).value();
    let (nv, wv, rest, g, l) = (n.value(), w.value(), 1 as real - s.value(), grain(), least());
    lemma_quotient_sign(accel, deviation, s);
    law_order_of_values(Double::nought(), n / w);
    lemma_grain_of(rest);
    lemma_scaled(l, wv, 2 as real);
    assert(l * 2 as real == 2 as real * l) by (nonlinear_arith);
    let off = wv - rest;
    let gr = g * rest;
    lemma_product_bound(v, off, v, gr);
    let (p, vw) = (v * rest, v * wv);
    assert(v * off == vw - p) by (nonlinear_arith)
        requires
            off == wv - rest,
            p == v * rest,
            vw == v * wv,
    ;
    let gp = g * p;
    assert(v * gr == gp) by (nonlinear_arith)
        requires
            gr == g * rest,
            gp == g * p,
            p == v * rest,
    ;
    lemma_times(v, rest);
    let q = accel.value() * deviation.value();
    let qs = q * s.value();
    let ms = (accel * deviation).value() * s.value();
    lemma_grain_of(qs);
    lemma_grain_of(absolute(ms));
    lemma_grain_of(absolute(nv));
    lemma_grain_of(p);
    lemma_corner_linear(p, vw, nv, ms, qs, gp, g * absolute(nv), g * absolute(ms), g * qs, l);
}

/// The speed of a corner is not below zero.
#[verifier::spinoff_prover]
proof fn lemma_quotient_sign(accel: Double, deviation: Double, s: Double)
    requires
        moderate(accel) && accel.value() >= 0 as real,
        moderate(deviation) && deviation.value() >= 0 as real,
        s.finite() && 0 as real <= s.value() < 1 as real,
    ensures
        Double::nought().at_most(((accel * deviation) * s) / (Double::of(1) - s)),
{
    let zero = Double::nought();
    let one = Double::of(1);
    law_zero_value();
    law_integer_value(1);
    law_order_of_values(zero, accel);
    law_order_of_values(zero, deviation);
    law_order_of_values(zero, s);
    law_order_of_values(s, one);
    lemma_lead(accel, deviation, s);
    crate::order::law_product_is_not_negative(accel, deviation);
    crate::order::law_product_is_not_negative(accel * deviation, s);
    law_difference_is_positive(one, s);
    lemma_rest_is_finite(s);
    law_quotient_is_not_negative((accel * deviation) * s, one - s);
}

/// What a share lacks of one is finite.
#[verifier::spinoff_prover]
proof fn lemma_rest_is_finite(s: Double)
    requires
        s.finite() && 0 as real <= s.value() < 1 as real,
    ensures
        (Double::of(1) - s).finite(),
{
    lemma_bounds();
    law_integer_value(1);
    law_difference_is_finite(Double::of(1), s);
}

} // verus!
