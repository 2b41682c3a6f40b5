//! What blocks are for, in real numbers: their lengths, directions and speeds.
//!
//! Every statement leaves room for rounding, and for no more.
use vstd::prelude::*;
use crate::double::Double;
use crate::order::law_square_is_not_negative;
use crate::value::absolute;
use crate::value::grain;
use crate::value::large;
use crate::value::law_difference_is_finite;
use crate::value::law_difference_is_near;
use crate::value::law_integer_value;
use crate::value::law_order_of_values;
use crate::value::law_product_is_finite;
use crate::value::law_product_is_near;
use crate::value::law_quotient_is_finite;
use crate::value::law_quotient_is_near;
use crate::value::law_quotient_times_divisor;
use crate::value::law_root_is_near;
use crate::value::law_sum_is_finite;
use crate::value::law_sum_is_near;
use crate::value::law_zero_value;
use crate::value::least;
use crate::value::lemma_bounds;
use crate::value::lemma_cancelled;
use crate::value::lemma_grain_of;
use crate::value::lemma_mixed_product;
use crate::value::lemma_one_is_positive;
use crate::value::lemma_product_bound;
use crate::value::lemma_root_order;
use crate::value::lemma_scaled;
use crate::value::lemma_square;
use crate::value::lemma_square_near_grains;
use crate::value::lemma_square_near_scaled;
use crate::value::lemma_times;
use crate::value::moderate;
use crate::value::near;
use crate::value::vast;
use super::block::Block;
use super::block::distance_between;
use super::limits::MachineLimits;
use super::limits::least_share;
use super::position::Position;

verus! {

// ---- lengths ----

/// A position none of whose coordinates is too large to be squared.
pub open spec fn within_reach(p: Position) -> bool {
    moderate(p.x) && moderate(p.y) && moderate(p.z)
}

/// The square of the distance between two positions.
pub open spec fn distance_sqr(a: Position, b: Position) -> real {
    let dx = b.x.value() - a.x.value();
    let dy = b.y.value() - a.y.value();
    let dz = b.z.value() - a.z.value();
    dx * dx + dy * dy + dz * dz
}

/// How the difference of two numbers, and the square of it, are found.
#[verifier::spinoff_prover]
pub(crate) proof fn lemma_leg(a: Double, b: Double)
    requires
        moderate(a),
        moderate(b),
    ensures
        ({
            let d = b.value() - a.value();
            let x = b - a;
            &&& x.finite()
            &&& near(x.value(), d, grain() * absolute(d))
            &&& (x * x).finite()
            &&& (x * x).value() >= 0 as real
            &&& near((x * x).value(), d * d, 5 as real * (grain() * (d * d)) + least())
            &&& 0 as real <= d * d <= 4 as real * (large() * large())
        }),
{
    lemma_bounds();
    lemma_one_is_positive();
    let d = b.value() - a.value();
    let x = b - a;
    let h = large();
    law_difference_is_finite(b, a);
    law_difference_is_near(b, a);
    let v = x.value();
    let hh = h * h;
    let twice = h + h;
    assert(twice * twice == 4 as real * hh) by (nonlinear_arith)
        requires
            twice == h + h,
            hh == h * h,
    ;
    assert(1000 as real * h * h == 1000 as real * hh) by (nonlinear_arith)
        requires
            hh == h * h,
    ;
    lemma_product_bound(d, d, twice, twice);
    lemma_square(d);
    let dd = d * d;
    let gdd = grain() * dd;
    lemma_grain_of(dd);
    lemma_square_near_grains(v, d, 1 as real);
    let w = v * v;
    lemma_square(v);
    assert(near(w, dd, 3 as real * gdd));
    law_product_is_finite(x, x);
    law_product_is_near(x, x);
    lemma_grain_of(w);
    law_square_is_not_negative(x);
    law_zero_value();
    law_order_of_values(Double::nought(), x * x);
}

/// What counts as no length is still well above the grain of one.
#[verifier::spinoff_prover]
pub(crate) proof fn lemma_least_share()
    ensures
        least_share().finite(),
        1000 as real * grain() <= least_share().value(),
{
    lemma_bounds();
    lemma_one_is_positive();
    law_integer_value(1);
    law_integer_value(1_000_000_000_000);
    let (a, b) = (Double::of(1), Double::of(1_000_000_000_000));
    law_order_of_values(b, b);
    lemma_scaled(vast(), 1 as real, 1000000000000 as real);
    law_quotient_is_finite(a, b);
    law_quotient_is_near(a, b);
    let g = grain();
    let q = 1 as real / 1000000000000 as real;
    lemma_grain_of(q);
    lemma_grain_of(g);
    lemma_grain_of(g * g);
    assert(g * g * g == g * (g * g)) by (nonlinear_arith);
}

proof fn lemma_added_linear(
    n: real,
    m: real,
    c: real,
    s: real,
    z: real,
    gs: real,
    gz: real,
    gmc: real,
    l: real,
)
    by (nonlinear_arith)
    requires
        near(m, s, 7 as real * gs + 3 as real * l),
        near(c, z, 5 as real * gz + l),
        near(n, m + c, gmc),
        gs * 9007199254740992 as real == s,
        gz * 9007199254740992 as real == z,
        gmc * 9007199254740992 as real == m + c,
        s >= 0 as real && z >= 0 as real && m >= 0 as real && c >= 0 as real,
        l >= 0 as real,
    ensures
        near(n, s + z, 9 as real * (gs + gz) + 5 as real * l),
        n >= 0 as real,
{
}

proof fn lemma_pair_linear(
    m: real,
    a: real,
    b: real,
    x: real,
    y: real,
    gx: real,
    gy: real,
    gab: real,
    l: real,
)
    by (nonlinear_arith)
    requires
        near(a, x, 5 as real * gx + l),
        near(b, y, 5 as real * gy + l),
        near(m, a + b, gab),
        gx * 9007199254740992 as real == x,
        gy * 9007199254740992 as real == y,
        gab * 9007199254740992 as real == a + b,
        x >= 0 as real && y >= 0 as real && a >= 0 as real && b >= 0 as real,
        l >= 0 as real,
    ensures
        near(m, x + y, 7 as real * (gx + gy) + 3 as real * l),
        m >= 0 as real,
{
}

proof fn lemma_rooted_linear(dd: real, n: real, s: real, gs: real, gn: real, l: real)
    by (nonlinear_arith)
    requires
        near(n, s, 9 as real * gs + 5 as real * l),
        near(dd, n, 3 as real * gn),
        gs * 9007199254740992 as real == s,
        gn * 9007199254740992 as real == n,
        s >= 0 as real,
        n >= 0 as real,
        l >= 0 as real,
    ensures
        near(dd, s, 16 as real * gs + 8 as real * l),
{
}

proof fn lemma_square_bound(p: real, x: real, gx: real, l: real, top: real)
    by (nonlinear_arith)
    requires
        near(p, x, 5 as real * gx + l),
        gx * 9007199254740992 as real == x,
        0 as real <= x <= top,
        0 as real <= l <= 1 as real,
        1 as real <= top,
    ensures
        p <= 3 as real * top,
{
}

/// The sum of two numbers that are nearly squares.
#[verifier::spinoff_prover]
proof fn lemma_pair(a: Double, b: Double, x: real, y: real, top: real)
    requires
        a.finite() && b.finite(),
        a.value() >= 0 as real && b.value() >= 0 as real,
        near(a.value(), x, 5 as real * (grain() * x) + least()),
        near(b.value(), y, 5 as real * (grain() * y) + least()),
        0 as real <= x <= top,
        0 as real <= y <= top,
        1 as real <= top,
        100 as real * top <= vast(),
    ensures
        (a + b).finite(),
        0 as real <= (a + b).value() <= 7 as real * top,
        near(
            (a + b).value(),
            x + y,
            7 as real * (grain() * (x + y)) + 3 as real * least(),
        ),
{
    lemma_one_is_positive();
    lemma_slack_below_one();
    let (g, l, av, bv) = (grain(), least(), a.value(), b.value());
    lemma_grain_of(x);
    lemma_grain_of(y);
    lemma_grain_of(av + bv);
    lemma_square_bound(av, x, g * x, l, top);
    lemma_square_bound(bv, y, g * y, l, top);
    law_sum_is_finite(a, b);
    law_sum_is_near(a, b);
    lemma_pair_linear((a + b).value(), av, bv, x, y, g * x, g * y, g * (av + bv), l);
    assert(g * (x + y) == g * x + g * y) by (nonlinear_arith);
}

#[verifier::spinoff_prover]
proof fn lemma_slack_below_one()
    ensures
        0 as real <= least() <= 1 as real,
{
    lemma_bounds();
    lemma_one_is_positive();
    let g = grain();
    lemma_grain_of(1 as real);
    assert(g * 1 as real == g) by (nonlinear_arith);
    lemma_grain_of(g);
    lemma_grain_of(g * g);
    assert(g * g * g == g * (g * g)) by (nonlinear_arith);
}

/// The root of a sum that is nearly right.
#[verifier::spinoff_prover]
proof fn lemma_rooted(n: Double, s: real)
    requires
        n.finite(),
        n.value() >= 0 as real,
        s >= 0 as real,
        near(n.value(), s, 9 as real * (grain() * s) + 5 as real * least()),
    ensures
        n.root().finite(),
        n.root().value() >= 0 as real,
        near(
            n.root().value() * n.root().value(),
            s,
            16 as real * (grain() * s) + 8 as real * least(),
        ),
{
    lemma_one_is_positive();
    law_root_is_near(n);
    let (g, nv, d) = (grain(), n.value(), n.root().value());
    lemma_grain_of(nv);
    lemma_grain_of(s);
    assert(3 as real * g * nv == 3 as real * (g * nv)) by (nonlinear_arith);
    lemma_rooted_linear(d * d, nv, s, g * s, g * nv, least());
}

/// Two numbers that are nearly squares, added up and rooted.
#[verifier::spinoff_prover]
pub(crate) proof fn lemma_root_of_two(a: Double, b: Double, x: real, y: real, top: real)
    requires
        a.finite() && b.finite(),
        a.value() >= 0 as real && b.value() >= 0 as real,
        near(a.value(), x, 5 as real * (grain() * x) + least()),
        near(b.value(), y, 5 as real * (grain() * y) + least()),
        0 as real <= x <= top,
        0 as real <= y <= top,
        1 as real <= top,
        100 as real * top <= vast(),
    ensures
        ({
            let d = (a + b).root();
            let s = x + y;
            &&& d.finite()
            &&& d.value() >= 0 as real
            &&& near(d.value() * d.value(), s, 16 as real * (grain() * s) + 8 as real * least())
        }),
{
    lemma_one_is_positive();
    lemma_pair(a, b, x, y, top);
    lemma_grain_of(x + y);
    lemma_rooted(a + b, x + y);
}

/// Three numbers that are nearly squares, added up and rooted.
#[verifier::spinoff_prover]
proof fn lemma_root_of_three(a: Double, b: Double, c: Double, x: real, y: real, z: real, top: real)
    requires
        a.finite() && b.finite() && c.finite(),
        a.value() >= 0 as real && b.value() >= 0 as real && c.value() >= 0 as real,
        near(a.value(), x, 5 as real * (grain() * x) + least()),
        near(b.value(), y, 5 as real * (grain() * y) + least()),
        near(c.value(), z, 5 as real * (grain() * z) + least()),
        0 as real <= x <= top,
        0 as real <= y <= top,
        0 as real <= z <= top,
        1 as real <= top,
        100 as real * top <= vast(),
    ensures
        ({
            let d = (a + b + c).root();
            let s = x + y + z;
            &&& d.finite()
            &&& d.value() >= 0 as real
            &&& near(d.value() * d.value(), s, 16 as real * (grain() * s) + 8 as real * least())
        }),
{
    lemma_one_is_positive();
    lemma_slack_below_one();
    lemma_pair(a, b, x, y, top);
    let m = a + b;
    let (g, l, mv, cv, s) = (grain(), least(), m.value(), c.value(), x + y);
    lemma_grain_of(z);
    lemma_grain_of(s);
    lemma_square_bound(cv, z, g * z, l, top);
    law_sum_is_finite(m, c);
    law_sum_is_near(m, c);
    lemma_grain_of(mv + cv);
    lemma_added_linear((m + c).value(), mv, cv, s, z, g * s, g * z, g * (mv + cv), l);
    assert(g * (s + z) == g * s + g * z) by (nonlinear_arith);
    lemma_rooted(m + c, s + z);
}

#[verifier::spinoff_prover]
pub(crate) proof fn lemma_distance(start: Position, target: Position)
    requires
        within_reach(start),
        within_reach(target),
    ensures
        ({
            let d = distance_between(start, target);
            let s = distance_sqr(start, target);
            &&& d.finite()
            &&& d.value() >= 0 as real
            &&& near(d.value() * d.value(), s, 16 as real * (grain() * s) + 8 as real * least())
        }),
{
    lemma_bounds();
    lemma_leg(start.x, target.x);
    lemma_leg(start.y, target.y);
    lemma_leg(start.z, target.z);
    let (x, y, z) = (target.x - start.x, target.y - start.y, target.z - start.z);
    let dx = target.x.value() - start.x.value();
    let dy = target.y.value() - start.y.value();
    let dz = target.z.value() - start.z.value();
    let h = large();
    let hh = h * h;
    assert(1000 as real * h * h == 1000 as real * hh) by (nonlinear_arith)
        requires
            hh == h * h,
    ;
    lemma_scaled(h, 1 as real, h);
    lemma_root_of_three(x * x, y * y, z * z, dx * dx, dy * dy, dz * dz, 4 as real * hh);
}

/// The length of a block is the distance of its ends: the square of the one is the sum of
/// the squares of the differences of the coordinates.
pub proof fn law_length_is_the_distance(
    start: Position,
    target: Position,
    feed_rate: Double,
    is_rapid: bool,
    limits: MachineLimits<3>,
    prev_unit_vector: Option<[Double; 3]>,
)
    requires
        within_reach(start),
        within_reach(target),
    ensures
        ({
            let d = Block::of_move(
                start,
                target,
                feed_rate,
                is_rapid,
                limits,
                prev_unit_vector,
            ).distance;
            let s = distance_sqr(start, target);
            &&& d.finite()
            &&& d.value() >= 0 as real
            &&& near(d.value() * d.value(), s, 16 as real * (grain() * s) + 8 as real * least())
        }),
{
    lemma_distance(start, target);
}

// ---- directions ----

/// A share of a direction, times the length, is the way along the axis.
pub open spec fn along(share: Double, length: real, from: Double, to: Double) -> bool {
    let way = to.value() - from.value();
    near(share.value() * length, way, 3 as real * (grain() * absolute(way)) + least() * length)
}

/// The squares of the three come to one.
pub open spec fn unit_length(x: real, y: real, z: real) -> bool {
    near(x * x + y * y + z * z, 1 as real, 32 as real * grain())
}

/// A share of a direction, times the length.
#[verifier::spinoff_prover]
proof fn lemma_share(a: Double, b: Double, d: Double)
    requires
        moderate(a),
        moderate(b),
        d.finite(),
        d.value() > 0 as real,
        (b.value() - a.value()) * (b.value() - a.value()) <= 2 as real * (d.value() * d.value()),
    ensures
        ((b - a) / d).finite(),
        along((b - a) / d, d.value(), a, b),
{
    lemma_bounds();
    lemma_leg(a, b);
    law_order_of_values(d, d);
    let x = b.value() - a.value();
    let w = (b - a).value();
    let v = d.value();
    let g = grain();
    lemma_square(x);
    lemma_square(v);
    lemma_grain_of(absolute(x));
    let twice = v + v;
    assert(twice * twice == 4 as real * (v * v)) by (nonlinear_arith)
        requires
            twice == v + v,
    ;
    lemma_root_order(absolute(x), twice);
    lemma_scaled(v, 1000 as real, vast());
    assert(v * vast() == vast() * v) by (nonlinear_arith);
    law_quotient_is_finite(b - a, d);
    law_quotient_times_divisor(b - a, d);
    lemma_grain_of(absolute(w));
}

/// The square of a sum of which one part is a grain of something.
#[verifier::spinoff_prover]
proof fn lemma_sum_squared(a: real, d: real)
    requires
        a >= 0 as real,
        d >= 0 as real,
    ensures
        ({
            let c = a + grain() * d;
            c * c <= a * a + grain() * (a * a) + 2 as real * (grain() * (d * d))
        }),
{
    lemma_one_is_positive();
    let g = grain();
    let (aa, dd, ad) = (a * a, d * d, a * d);
    let c = a + g * d;
    let gdd = g * dd;
    assert(c * c == aa + g * (2 as real * ad) + g * gdd) by (nonlinear_arith)
        requires
            c == a + g * d,
            aa == a * a,
            ad == a * d,
            gdd == g * dd,
            dd == d * d,
    ;
    lemma_mixed_product(a, d);
    lemma_scaled(g, 2 as real * ad, aa + dd);
    assert(g * (aa + dd) == g * aa + gdd) by (nonlinear_arith)
        requires
            gdd == g * dd,
    ;
    lemma_square(d);
    lemma_times(g, dd);
    lemma_grain_of(gdd);
}

/// The square of a share times the length.
#[verifier::spinoff_prover]
proof fn lemma_share_squared(e: real, x: real, d: real)
    requires
        near(e, x, 3 as real * (grain() * absolute(x)) + least() * d),
        d > 0 as real,
    ensures
        near(
            e * e,
            x * x,
            8 as real * (grain() * (x * x)) + 15 as real * (grain() * (grain() * (d * d))),
        ),
{
    let g = grain();
    let a = absolute(x);
    let c = a + g * d;
    lemma_slack_is_a_grain(d);
    lemma_one_is_positive();
    lemma_times(g, d);
    assert(g * c == g * a + g * (g * d)) by (nonlinear_arith)
        requires
            c == a + g * d,
    ;
    lemma_times(g, a);
    lemma_times(g, g * d);
    lemma_square_near_scaled(e, x, c, 3 as real);
    lemma_sum_squared(a, d);
    let (aa, dd, cc) = (a * a, d * d, c * c);
    lemma_square(x);
    lemma_square(d);
    lemma_scaled(g, cc, aa + g * aa + 2 as real * (g * dd));
    assert(g * (aa + g * aa + 2 as real * (g * dd)) == g * aa + g * (g * aa) + 2 as real * (g * (g
        * dd))) by (nonlinear_arith);
    lemma_times(g, aa);
    lemma_grain_of(g * aa);
    lemma_times(g, dd);
    lemma_times(g, g * dd);
    let gcc = g * cc;
    assert((2 as real * 3 as real + 1 as real) * gcc == 7 as real * gcc) by (nonlinear_arith);
    assert(near(e * e, x * x, 7 as real * gcc));
    assert(g * (x * x) == g * aa);
    let (gaa, ggaa, ggdd) = (g * aa, g * (g * aa), g * (g * dd));
    assert(gcc <= gaa + ggaa + 2 as real * ggdd);
    assert(gaa >= 0 as real);
    assert(ggdd >= 0 as real);
    assert(1000000 as real * ggaa <= gaa);
    assert(7 as real * gcc <= 8 as real * gaa + 15 as real * ggdd) by (nonlinear_arith)
        requires
            gcc <= gaa + ggaa + 2 as real * ggdd,
            gaa >= 0 as real,
            ggdd >= 0 as real,
            1000000 as real * ggaa <= gaa,
    ;
}

/// The least number is below the grain of a grain.
#[verifier::spinoff_prover]
proof fn lemma_slack_is_a_grain(d: real)
    requires
        d >= 0 as real,
    ensures
        0 as real <= least() * d <= grain() * (grain() * d),
{
    lemma_bounds();
    lemma_one_is_positive();
    let g = grain();
    let l = least();
    lemma_grain_of(g);
    lemma_grain_of(g * g);
    assert(g * g * g == g * (g * g)) by (nonlinear_arith);
    lemma_times(g, g);
    lemma_scaled(d, l, g * g);
    lemma_times(d, l);
    assert(d * l == l * d && d * (g * g) == g * (g * d)) by (nonlinear_arith);
}

/// A length that counts leaves no slack for what is below all numbers.
#[verifier::spinoff_prover]
proof fn lemma_no_slack(d: real, s: real)
    requires
        near(d * d, s, 16 as real * (grain() * s) + 8 as real * least()),
        d >= 1000 as real * grain(),
        s >= 0 as real,
    ensures
        near(d * d, s, 17 as real * (grain() * s)),
        s <= 2 as real * (d * d),
        d * d > 0 as real,
{
    lemma_bounds();
    lemma_one_is_positive();
    let g = grain();
    let (e, gg, l) = (d * d, g * g, least());
    let gs = g * s;
    lemma_grain_of(s);
    lemma_grain_of(e);
    lemma_grain_of(gg);
    lemma_square(g);
    let ggg = g * gg;
    assert(g * g * g == ggg) by (nonlinear_arith)
        requires
            ggg == g * gg,
            gg == g * g,
    ;
    let k = 1000 as real * g;
    lemma_product_bound(k, k, d, d);
    assert(k * k == 1000000 as real * gg) by (nonlinear_arith)
        requires
            k == 1000 as real * g,
            gg == g * g,
    ;
    assert(gg > 0 as real) by (nonlinear_arith)
        requires
            gg == g * g,
            g > 0 as real,
    ;
    let ge = g * e;
    lemma_scaled(g, 1000000 as real * gg, e);
    assert(g * (1000000 as real * gg) == 1000000 as real * ggg) by (nonlinear_arith)
        requires
            ggg == g * gg,
    ;
    assert(near(e, s, 17 as real * gs) && s <= 2 as real * e) by (nonlinear_arith)
        requires
            near(e, s, 16 as real * gs + 8 as real * l),
            l <= ggg,
            1000000 as real * ggg <= ge,
            ge * 9007199254740992 as real == e,
            gs * 9007199254740992 as real == s,
            s >= 0 as real,
            e > 0 as real,
            l >= 0 as real,
    ;
}

proof fn lemma_three_terms(
    w: real,
    e: real,
    near_legs: (real, real, real),
    legs: (real, real, real),
    grains: (real, real, real),
    ge: real,
    gge: real,
)
    by (nonlinear_arith)
    requires
        w == near_legs.0 + near_legs.1 + near_legs.2,
        near(near_legs.0, legs.0, 8 as real * grains.0 + 15 as real * gge),
        near(near_legs.1, legs.1, 8 as real * grains.1 + 15 as real * gge),
        near(near_legs.2, legs.2, 8 as real * grains.2 + 15 as real * gge),
        near(e, legs.0 + legs.1 + legs.2, 17 as real * (grains.0 + grains.1 + grains.2)),
        grains.0 * 9007199254740992 as real == legs.0,
        grains.1 * 9007199254740992 as real == legs.1,
        grains.2 * 9007199254740992 as real == legs.2,
        ge * 9007199254740992 as real == e,
        gge * 9007199254740992 as real == ge,
        legs.0 >= 0 as real && legs.1 >= 0 as real && legs.2 >= 0 as real,
    ensures
        near(w, e, 32 as real * ge),
{
}

/// Of two numbers that are so many grains of the one apart, the quotient.
#[verifier::spinoff_prover]
proof fn lemma_quotient_near_one(n: real, e: real)
    requires
        near(n * e, e, 32 as real * (grain() * e)),
        e > 0 as real,
    ensures
        near(n, 1 as real, 32 as real * grain()),
{
    let g = grain();
    let (ge, w) = (g * e, n * e);
    let over = n - 1 as real - 32 as real * g;
    let under = 1 as real - n - 32 as real * g;
    assert(e * over == w - e - 32 as real * ge) by (nonlinear_arith)
        requires
            over == n - 1 as real - 32 as real * g,
            w == n * e,
            ge == g * e,
    ;
    assert(e * under == e - w - 32 as real * ge) by (nonlinear_arith)
        requires
            under == 1 as real - n - 32 as real * g,
            w == n * e,
            ge == g * e,
    ;
    lemma_cancelled(e, over);
    lemma_cancelled(e, under);
}

/// What the squares of the shares come to, times the square of the length.
#[verifier::spinoff_prover]
proof fn lemma_unit_sum(w: real, e: real, p: real, q: real, r: real, a: real, b: real, c: real)
    requires
        w == p + q + r,
        near(p, a, 8 as real * (grain() * a) + 15 as real * (grain() * (grain() * e))),
        near(q, b, 8 as real * (grain() * b) + 15 as real * (grain() * (grain() * e))),
        near(r, c, 8 as real * (grain() * c) + 15 as real * (grain() * (grain() * e))),
        near(e, a + b + c, 17 as real * (grain() * (a + b + c))),
        a >= 0 as real && b >= 0 as real && c >= 0 as real,
    ensures
        near(w, e, 32 as real * (grain() * e)),
{
    let g = grain();
    lemma_grain_of(a);
    lemma_grain_of(b);
    lemma_grain_of(c);
    lemma_grain_of(e);
    lemma_grain_of(g * e);
    assert(g * (a + b + c) == g * a + g * b + g * c) by (nonlinear_arith);
    lemma_three_terms(w, e, (p, q, r), (a, b, c), (g * a, g * b, g * c), g * e, g * (g * e));
}

/// How a share and its square are found.
#[verifier::spinoff_prover]
proof fn lemma_axis(a: Double, b: Double, d: Double, s: real)
    requires
        moderate(a),
        moderate(b),
        d.finite(),
        d.value() > 0 as real,
        (b.value() - a.value()) * (b.value() - a.value()) <= s,
        s <= 2 as real * (d.value() * d.value()),
    ensures
        ({
            let x = b.value() - a.value();
            let u = (b - a) / d;
            let v = d.value();
            &&& u.finite()
            &&& along(u, v, a, b)
            &&& near(
                (u.value() * u.value()) * (v * v),
                x * x,
                8 as real * (grain() * (x * x)) + 15 as real * (grain() * (grain() * (v * v))),
            )
        }),
{
    lemma_share(a, b, d);
    let (x, u, v) = (b.value() - a.value(), ((b - a) / d).value(), d.value());
    lemma_share_squared(u * v, x, v);
    assert((u * u) * (v * v) == (u * v) * (u * v)) by (nonlinear_arith);
}

/// The direction of a block that has a length is a unit vector, and it points from the
/// start to the target: times the length it is the way between them.
pub proof fn law_direction_is_a_unit_vector(
    start: Position,
    target: Position,
    feed_rate: Double,
    is_rapid: bool,
    limits: MachineLimits<3>,
    prev_unit_vector: Option<[Double; 3]>,
)
    requires
        within_reach(start),
        within_reach(target),
    ensures
        ({
            let block = Block::of_move(
                start,
                target,
                feed_rate,
                is_rapid,
                limits,
                prev_unit_vector,
            );
            let d = block.distance.value();
            let u = block.unit_vector@;
            least_share().below(block.distance) ==> {
                &&& u[0].finite() && u[1].finite() && u[2].finite()
                &&& along(u[0], d, start.x, target.x)
                &&& along(u[1], d, start.y, target.y)
                &&& along(u[2], d, start.z, target.z)
                &&& unit_length(u[0].value(), u[1].value(), u[2].value())
            }
        }),
{
    lemma_distance(start, target);
    lemma_least_share();
    let distance = distance_between(start, target);
    law_order_of_values(least_share(), distance);
    if least_share().below(distance) {
        lemma_direction(start, target, distance);
    }
}

#[verifier::spinoff_prover]
proof fn lemma_direction(start: Position, target: Position, d: Double)
    requires
        within_reach(start),
        within_reach(target),
        d.finite(),
        near(
            d.value() * d.value(),
            distance_sqr(start, target),
            16 as real * (grain() * distance_sqr(start, target)) + 8 as real * least(),
        ),
        d.value() >= 1000 as real * grain(),
    ensures
        ({
            let v = d.value();
            let (ux, uy, uz) = (
                (target.x - start.x) / d,
                (target.y - start.y) / d,
                (target.z - start.z) / d,
            );
            &&& ux.finite() && uy.finite() && uz.finite()
            &&& along(ux, v, start.x, target.x)
            &&& along(uy, v, start.y, target.y)
            &&& along(uz, v, start.z, target.z)
            &&& unit_length(ux.value(), uy.value(), uz.value())
        }),
{
    lemma_one_is_positive();
    let dx = target.x.value() - start.x.value();
    let dy = target.y.value() - start.y.value();
    let dz = target.z.value() - start.z.value();
    let s = distance_sqr(start, target);
    lemma_square(dx);
    lemma_square(dy);
    lemma_square(dz);
    lemma_no_slack(d.value(), s);
    lemma_axis(start.x, target.x, d, s);
    lemma_axis(start.y, target.y, d, s);
    lemma_axis(start.z, target.z, d, s);
    let ux = ((target.x - start.x) / d).value();
    let uy = ((target.y - start.y) / d).value();
    let uz = ((target.z - start.z) / d).value();
    let e = d.value() * d.value();
    let (a, b, c) = (ux * ux, uy * uy, uz * uz);
    assert((a + b + c) * e == a * e + b * e + c * e) by (nonlinear_arith);
    lemma_unit_sum((a + b + c) * e, e, a * e, b * e, c * e, dx * dx, dy * dy, dz * dz);
    lemma_quotient_near_one(a + b + c, e);
}

} // verus!
