//! Where the center of an arc lies that is given by a radius: as far from both ends as the
//! radius says.
use vstd::prelude::*;
use crate::double::Double;
use crate::order::law_square_is_not_negative;
use crate::value::absolute;
use crate::value::grain;
use crate::value::large;
use crate::value::law_difference_is_finite;
use crate::value::law_difference_is_near;
use crate::value::law_integer_value;
use crate::value::law_opposite_value;
use crate::value::law_order_of_values;
use crate::value::law_product_is_finite;
use crate::value::law_product_is_near;
use crate::value::law_quotient_is_finite;
use crate::value::law_quotient_is_near;
use crate::value::law_quotient_times_divisor;
use crate::value::law_root_is_near;
use crate::value::law_sum_is_finite;
use crate::value::law_sum_is_near;
use crate::value::law_zero_value;
use crate::value::least;
use crate::value::lemma_bounds;
use crate::value::lemma_cancelled;
use crate::value::lemma_grain_of;
use crate::value::lemma_one_is_positive;
use crate::value::lemma_product_bound;
use crate::value::lemma_quotient_times;
use crate::value::lemma_root_order;
use crate::value::lemma_scaled;
use crate::value::lemma_size_of_product;
use crate::value::lemma_square;
use crate::value::lemma_square_near;
use crate::value::lemma_times;
use crate::value::moderate;
use crate::value::near;
use crate::value::vast;
use crate::planner::geometry_laws::lemma_leg;
use super::circle::distance_fits;
use super::circle::height_fits;
use super::circle::lemma_chord_within;
use super::circle::lemma_distance_from_end;
use super::circle::lemma_perpendicular;
use super::circle::lemma_shares_come_to_one;
use super::circle::radius_fits;
use super::circle::turned;
use super::motion::arc_center;
use super::motion::center_side;
use super::motion::circle_center;
use super::motion::in_plane;
use super::state::Plane;
use super::state::Position;

verus! {

// ---- the chord ----

proof fn lemma_chord_linear(
    d2: real,
    p: real,
    q: real,
    a: real,
    b: real,
    ga: real,
    gb: real,
    gpq: real,
    l: real,
)
    by (nonlinear_arith)
    requires
        near(p, a, 5 as real * ga + l),
        near(q, b, 5 as real * gb + l),
        near(d2, p + q, gpq),
        ga * 9007199254740992 as real == a,
        gb * 9007199254740992 as real == b,
        gpq * 9007199254740992 as real == p + q,
        a >= 0 as real && b >= 0 as real && p >= 0 as real && q >= 0 as real,
        0 as real <= l <= ga + gb,
    ensures
        near(d2, a + b, 12 as real * (ga + gb)),
        d2 >= 0 as real,
{
}

proof fn lemma_root_linear(dd: real, d2: real, s: real, gs: real, gd2: real)
    by (nonlinear_arith)
    requires
        near(d2, s, 12 as real * gs),
        near(dd, d2, 3 as real * gd2),
        gs * 9007199254740992 as real == s,
        gd2 * 9007199254740992 as real == d2,
        s >= 0 as real,
        d2 >= 0 as real,
    ensures
        near(dd, s, 16 as real * gs),
{
}

/// How the square of the chord, and its length, are found.
#[verifier::spinoff_prover]
proof fn lemma_chord(from: (Double, Double), to: (Double, Double))
    requires
        moderate(from.0) && moderate(from.1) && moderate(to.0) && moderate(to.1),
        ({
            let dx = to.0.value() - from.0.value();
            let dy = to.1.value() - from.1.value();
            least() <= grain() * (dx * dx + dy * dy)
        }),
    ensures
        ({
            let dx = to.0.value() - from.0.value();
            let dy = to.1.value() - from.1.value();
            let s = dx * dx + dy * dy;
            let (x, y) = (to.0 - from.0, to.1 - from.1);
            let d2 = x * x + y * y;
            let d = d2.root();
            &&& x.finite() && y.finite() && d2.finite() && d.finite()
            &&& near(x.value(), dx, grain() * absolute(dx))
            &&& near(y.value(), dy, grain() * absolute(dy))
            &&& (0 as real) < s <= 8 as real * (large() * large())
            &&& near(d2.value(), s, 12 as real * (grain() * s))
            &&& near(d.value() * d.value(), s, 16 as real * (grain() * s))
            &&& d.value() > 0 as real
        }),
{
    lemma_bounds();
    lemma_one_is_positive();
    lemma_leg(from.0, to.0);
    lemma_leg(from.1, to.1);
    let dx = to.0.value() - from.0.value();
    let dy = to.1.value() - from.1.value();
    let (a, b) = (dx * dx, dy * dy);
    let s = a + b;
    let (x, y) = (to.0 - from.0, to.1 - from.1);
    let (p, q) = ((x * x).value(), (y * y).value());
    let (g, l, h) = (grain(), least(), large());
    let hh = h * h;
    assert(1000 as real * h * h == 1000 as real * hh) by (nonlinear_arith)
        requires
            hh == h * h,
    ;
    lemma_scaled(h, 1 as real, h);
    lemma_grain_of(a);
    lemma_grain_of(b);
    lemma_grain_of(s);
    lemma_grain_of(p + q);
    assert(g * s == g * a + g * b) by (nonlinear_arith)
        requires
            s == a + b,
    ;
    lemma_leg_bounds(p, a, g * a, l, hh);
    lemma_leg_bounds(q, b, g * b, l, hh);
    law_sum_is_finite(x * x, y * y);
    law_sum_is_near(x * x, y * y);
    let d2 = x * x + y * y;
    lemma_chord_linear(d2.value(), p, q, a, b, g * a, g * b, g * (p + q), l);
    law_root_is_near(d2);
    let d = d2.root().value();
    let v = d2.value();
    lemma_grain_of(v);
    assert(3 as real * g * v == 3 as real * (g * v)) by (nonlinear_arith);
    lemma_root_linear(d * d, v, s, g * s, g * v);
    lemma_positive_length(d, s);
}

proof fn lemma_leg_bounds(p: real, a: real, ga: real, l: real, hh: real)
    by (nonlinear_arith)
    requires
        near(p, a, 5 as real * ga + l),
        ga * 9007199254740992 as real == a,
        0 as real <= a <= 4 as real * hh,
        l <= 2 as real * hh,
        hh >= 1 as real,
    ensures
        p <= 10 as real * hh,
{
}

/// A length whose square is near a positive number is positive.
#[verifier::spinoff_prover]
proof fn lemma_positive_length(d: real, s: real)
    requires
        d >= 0 as real,
        least() <= grain() * s,
        near(d * d, s, 16 as real * (grain() * s)),
    ensures
        s > 0 as real,
        d > 0 as real,
{
    lemma_one_is_positive();
    lemma_grain_of(s);
    if d == 0 as real {
        assert(d * d == 0 as real) by (nonlinear_arith)
            requires
                d == 0 as real,
        ;
    }
}

// ---- the height ----

proof fn lemma_height_linear(
    h2: real,
    rr: real,
    q: real,
    e: real,
    s: real,
    d2: real,
    ge: real,
    gs: real,
    gq: real,
    grq: real,
    l: real,
)
    by (nonlinear_arith)
    requires
        near(rr, e, ge + l),
        near(q, d2 / 4 as real, gq + l),
        near(d2, s, 12 as real * gs),
        near(h2, rr - q, grq),
        ge * 9007199254740992 as real == e,
        gs * 9007199254740992 as real == s,
        gq * 9007199254740992 as real == absolute(d2 / 4 as real),
        grq * 9007199254740992 as real == absolute(rr - q),
        e >= 0 as real,
        s >= 0 as real,
        0 as real <= l <= gs,
    ensures
        near(h2, e - s / 4 as real, 8 as real * (ge + gs)),
{
}

proof fn lemma_height_root_linear(hh: real, h2: real, e: real, s: real, ge: real, gs: real, gh: real)
    by (nonlinear_arith)
    requires
        near(h2, e - s / 4 as real, 8 as real * (ge + gs)),
        near(hh, h2, 3 as real * gh),
        ge * 9007199254740992 as real == e,
        gs * 9007199254740992 as real == s,
        gh * 9007199254740992 as real == h2,
        h2 >= 0 as real,
        e >= 0 as real,
        s >= 0 as real,
    ensures
        near(hh, e - s / 4 as real, 12 as real * (ge + gs)),
        hh <= 2 as real * e + s,
{
}

/// How the height over the chord is found.
#[verifier::spinoff_prover]
proof fn lemma_height(r: Double, d2: Double, s: real)
    requires
        moderate(r),
        d2.finite(),
        near(d2.value(), s, 12 as real * (grain() * s)),
        least() <= grain() * s,
        (0 as real) < s <= 8 as real * (large() * large()),
        !(r * r - d2 / Double::of(4)).below(Double::nought()),
    ensures
        ({
            let h2 = r * r - d2 / Double::of(4);
            let h = h2.root();
            let e = r.value() * r.value();
            &&& h2.finite()
            &&& h.finite()
            &&& h.value() >= 0 as real
            &&& near(
                h.value() * h.value(),
                e - s / 4 as real,
                12 as real * (grain() * e + grain() * s),
            )
            &&& h.value() * h.value() <= 2 as real * e + s
        }),
{
    lemma_bounds();
    lemma_one_is_positive();
    let (g, l, big) = (grain(), least(), large());
    let hh = big * big;
    assert(1000 as real * big * big == 1000 as real * hh) by (nonlinear_arith)
        requires
            hh == big * big,
    ;
    lemma_scaled(big, 1 as real, big);
    let rv = r.value();
    let e = rv * rv;
    lemma_product_bound(rv, rv, big, big);
    lemma_square(rv);
    law_product_is_finite(r, r);
    law_product_is_near(r, r);
    let four = Double::of(4);
    law_integer_value(4);
    law_order_of_values(four, four);
    lemma_grain_of(s);
    lemma_grain_of(e);
    let v = d2.value();
    lemma_scaled(vast(), 1 as real, 4 as real);
    law_quotient_is_finite(d2, four);
    law_quotient_is_near(d2, four);
    let (rr, q) = ((r * r).value(), (d2 / four).value());
    lemma_grain_of(absolute(v / 4 as real));
    lemma_grain_of(absolute(rr - q));
    lemma_height_bounds(rr, q, e, s, v, g * e, g * s, g * absolute(v / 4 as real), l, hh);
    law_difference_is_finite(r * r, d2 / four);
    law_difference_is_near(r * r, d2 / four);
    let h2 = r * r - d2 / four;
    law_zero_value();
    law_order_of_values(h2, Double::nought());
    lemma_height_linear(
        h2.value(),
        rr,
        q,
        e,
        s,
        v,
        g * e,
        g * s,
        g * absolute(v / 4 as real),
        g * absolute(rr - q),
        l,
    );
    law_root_is_near(h2);
    let w = h2.value();
    lemma_grain_of(w);
    assert(3 as real * g * w == 3 as real * (g * w)) by (nonlinear_arith);
    let h = h2.root().value();
    lemma_height_root_linear(h * h, w, e, s, g * e, g * s, g * w);
}

proof fn lemma_height_bounds(
    rr: real,
    q: real,
    e: real,
    s: real,
    d2: real,
    ge: real,
    gs: real,
    gq: real,
    l: real,
    hh: real,
)
    by (nonlinear_arith)
    requires
        near(rr, e, ge + l),
        near(q, d2 / 4 as real, gq + l),
        near(d2, s, 12 as real * gs),
        ge * 9007199254740992 as real == e,
        gs * 9007199254740992 as real == s,
        gq * 9007199254740992 as real == absolute(d2 / 4 as real),
        0 as real <= e <= hh,
        0 as real <= s <= 8 as real * hh,
        0 as real <= l <= gs,
        hh >= 1 as real,
    ensures
        -(100 as real * hh) <= rr - q <= 100 as real * hh,
{
}

// ---- the direction of the height ----

/// A share of the direction of the chord.
#[verifier::spinoff_prover]
proof fn lemma_share(x: Double, dx: real, d: Double, s: real)
    requires
        x.finite(),
        near(x.value(), dx, grain() * absolute(dx)),
        d.finite(),
        d.value() > 0 as real,
        dx * dx <= s,
        near(d.value() * d.value(), s, 16 as real * (grain() * s)),
    ensures
        (x / d).finite(),
        near((x / d).value(), dx / d.value(), 7 as real * grain()),
        absolute(dx / d.value()) <= 2 as real,
{
    lemma_bounds();
    lemma_one_is_positive();
    law_order_of_values(d, d);
    let (v, w, g, l) = (d.value(), x.value(), grain(), least());
    lemma_square(dx);
    lemma_square(v);
    lemma_grain_of(s);
    lemma_grain_of(absolute(dx));
    lemma_grain_of(absolute(w));
    let twice = v + v;
    assert(twice * twice == 4 as real * (v * v)) by (nonlinear_arith)
        requires
            twice == v + v,
    ;
    lemma_root_order(absolute(dx), twice);
    lemma_scaled(v, 1000 as real, vast());
    assert(v * vast() == vast() * v) by (nonlinear_arith);
    law_quotient_is_finite(x, d);
    law_quotient_times_divisor(x, d);
    let u = (x / d).value();
    let b = dx / v;
    lemma_quotient_times(dx, v);
    lemma_size_of_product(b, v);
    let c = absolute(b);
    // the share is at most two
    let over = c - 2 as real;
    assert(v * over == c * v - twice) by (nonlinear_arith)
        requires
            over == c - 2 as real,
            twice == v + v,
    ;
    lemma_cancelled(v, over);
    // and it is off by a few grains
    lemma_slack(v);
    let (gv, lv) = (g * v, l * v);
    lemma_grain_of(v);
    lemma_share_linear(
        u * v,
        w,
        dx,
        g * absolute(dx),
        g * absolute(w),
        absolute(dx),
        v,
        gv,
        lv,
    );
    let up = u - b - 7 as real * g;
    let down = b - u - 7 as real * g;
    assert(v * up == u * v - dx - 7 as real * gv) by (nonlinear_arith)
        requires
            up == u - b - 7 as real * g,
            b * v == dx,
            gv == g * v,
    ;
    assert(v * down == dx - u * v - 7 as real * gv) by (nonlinear_arith)
        requires
            down == b - u - 7 as real * g,
            b * v == dx,
            gv == g * v,
    ;
    lemma_cancelled(v, up);
    lemma_cancelled(v, down);
}

proof fn lemma_share_linear(
    uv: real,
    w: real,
    dx: real,
    gdx: real,
    gw: real,
    a: real,
    v: real,
    gv: real,
    lv: real,
)
    by (nonlinear_arith)
    requires
        near(w, dx, gdx),
        near(uv, w, gw + lv),
        gdx * 9007199254740992 as real == absolute(dx),
        gw * 9007199254740992 as real == absolute(w),
        gv * 9007199254740992 as real == v,
        0 as real <= lv <= gv,
        a == absolute(dx),
        a <= v + v,
    ensures
        near(uv, dx, 7 as real * gv),
{
}

/// The least number of times something is below a grain of it.
#[verifier::spinoff_prover]
proof fn lemma_slack(v: real)
    requires
        v >= 0 as real,
    ensures
        0 as real <= least() * v <= grain() * v,
{
    lemma_bounds();
    lemma_one_is_positive();
    let g = grain();
    lemma_grain_of(g);
    lemma_grain_of(g * g);
    assert(g * g * g == g * (g * g)) by (nonlinear_arith);
    lemma_scaled(v, least(), g);
    lemma_times(v, least());
    assert(v * least() == least() * v && v * g == g * v) by (nonlinear_arith);
}

// ---- the center ----

proof fn lemma_offset_linear(p: real, ku: real, kb: real, gku: real, gh: real, h: real, l: real)
    by (nonlinear_arith)
    requires
        near(p, ku, gku + l),
        near(ku, kb, 7 as real * gh),
        absolute(kb) <= 2 as real * h,
        gku * 9007199254740992 as real == absolute(ku),
        gh * 9007199254740992 as real == h,
        h >= 0 as real,
        l >= 0 as real,
    ensures
        near(p, kb, 10 as real * gh + l),
        absolute(ku) <= 3 as real * h,
{
}

/// How far the center is from the middle of the chord, on one axis.
#[verifier::spinoff_prover]
proof fn lemma_offset(k: Double, u: Double, b: real, h: real)
    requires
        k.finite(),
        u.finite(),
        absolute(k.value()) == h,
        h <= 20 as real * large(),
        near(u.value(), b, 7 as real * grain()),
        absolute(b) <= 2 as real,
    ensures
        (k * u).finite(),
        near((k * u).value(), k.value() * b, 10 as real * (grain() * h) + least()),
        absolute(k.value() * b) <= 2 as real * h,
{
    lemma_bounds();
    lemma_one_is_positive();
    let (kv, uv, g, l, big) = (k.value(), u.value(), grain(), least(), large());
    let off = uv - b;
    let b7 = 7 as real * g;
    lemma_product_bound(kv, off, h, b7);
    let (ku, kb) = (kv * uv, kv * b);
    assert(kv * off == ku - kb) by (nonlinear_arith)
        requires
            off == uv - b,
            ku == kv * uv,
            kb == kv * b,
    ;
    let gh = g * h;
    assert(h * b7 == 7 as real * gh) by (nonlinear_arith)
        requires
            b7 == 7 as real * g,
            gh == g * h,
    ;
    lemma_product_bound(kv, b, h, 2 as real);
    assert(h * 2 as real == 2 as real * h) by (nonlinear_arith);
    lemma_grain_of(h);
    let gku = g * absolute(ku);
    lemma_grain_of(absolute(ku));
    assert(absolute(ku) <= 3 as real * h) by (nonlinear_arith)
        requires
            near(ku, kb, 7 as real * gh),
            absolute(kb) <= 2 as real * h,
            gh * 9007199254740992 as real == h,
            h >= 0 as real,
    ;
    law_product_is_finite(k, u);
    law_product_is_near(k, u);
    lemma_offset_linear((k * u).value(), ku, kb, gku, gh, h, l);
}

proof fn lemma_axis_linear(
    c: real,
    m: real,
    p: real,
    sum: real,
    st: real,
    kb: real,
    gst: real,
    ghalf: real,
    gmp: real,
    gh: real,
    h: real,
    l: real,
    size: real,
    gsize: real,
)
    by (nonlinear_arith)
    requires
        near(sum, st, gst),
        near(m, sum / 2 as real, ghalf + l),
        near(p, kb, 10 as real * gh + l),
        near(c, m + p, gmp),
        absolute(kb) <= 2 as real * h,
        gst * 9007199254740992 as real == absolute(st),
        ghalf * 9007199254740992 as real == absolute(sum / 2 as real),
        gmp * 9007199254740992 as real == absolute(m + p),
        gh * 9007199254740992 as real == h,
        gsize * 9007199254740992 as real == size,
        absolute(st) <= size,
        0 as real <= h <= 2 as real * size,
        0 as real <= l <= gsize,
    ensures
        near(c - st / 2 as real, kb, 33 as real * gsize),
{
}

proof fn lemma_axis_bounds(
    m: real,
    p: real,
    sum: real,
    st: real,
    kb: real,
    gst: real,
    ghalf: real,
    gh: real,
    h: real,
    l: real,
    size: real,
    gsize: real,
)
    by (nonlinear_arith)
    requires
        near(sum, st, gst),
        near(m, sum / 2 as real, ghalf + l),
        near(p, kb, 10 as real * gh + l),
        absolute(kb) <= 2 as real * h,
        gst * 9007199254740992 as real == absolute(st),
        ghalf * 9007199254740992 as real == absolute(sum / 2 as real),
        gh * 9007199254740992 as real == h,
        gsize * 9007199254740992 as real == size,
        absolute(st) <= size,
        0 as real <= h <= 2 as real * size,
        0 as real <= l <= gsize,
    ensures
        absolute(m + p) <= 10 as real * size,
{
}

/// How one coordinate of the center is found.
#[verifier::spinoff_prover]
proof fn lemma_coordinate(from: Double, to: Double, k: Double, u: Double, b: real, size: real)
    requires
        moderate(from),
        moderate(to),
        k.finite(),
        u.finite(),
        absolute(k.value()) <= 2 as real * size,
        size <= 5 as real * large(),
        absolute(from.value()) + absolute(to.value()) <= size,
        near(u.value(), b, 7 as real * grain()),
        absolute(b) <= 2 as real,
        least() <= grain() * size,
    ensures
        ({
            let c = (from + to) / Double::of(2) + k * u;
            &&& c.finite()
            &&& near(
                c.value() - (from.value() + to.value()) / 2 as real,
                k.value() * b,
                33 as real * (grain() * size),
            )
        }),
{
    lemma_bounds();
    lemma_one_is_positive();
    let h = absolute(k.value());
    lemma_offset(k, u, b, h);
    law_sum_is_finite(from, to);
    law_sum_is_near(from, to);
    let two = Double::of(2);
    law_integer_value(2);
    law_order_of_values(two, two);
    let sum = (from + to).value();
    let st = from.value() + to.value();
    let (g, l) = (grain(), least());
    lemma_grain_of(absolute(st));
    lemma_scaled(vast(), 1 as real, 2 as real);
    law_quotient_is_finite(from + to, two);
    law_quotient_is_near(from + to, two);
    let m = (from + to) / two;
    let p = k * u;
    let kb = k.value() * b;
    lemma_grain_of(absolute(sum / 2 as real));
    lemma_grain_of(h);
    lemma_grain_of(size);
    lemma_grain_of(absolute(m.value() + p.value()));
    lemma_axis_bounds(
        m.value(),
        p.value(),
        sum,
        st,
        kb,
        g * absolute(st),
        g * absolute(sum / 2 as real),
        g * h,
        h,
        l,
        size,
        g * size,
    );
    law_sum_is_finite(m, p);
    law_sum_is_near(m, p);
    lemma_axis_linear(
        (m + p).value(),
        m.value(),
        p.value(),
        sum,
        st,
        kb,
        g * absolute(st),
        g * absolute(sum / 2 as real),
        g * absolute(m.value() + p.value()),
        g * h,
        h,
        l,
        size,
        g * size,
    );
}

// ---- the law ----

/// The square of the distance of two points of a plane.
pub open spec fn apart_sqr(a: (Double, Double), b: (Double, Double)) -> real {
    let (x, y) = (b.0.value() - a.0.value(), b.1.value() - a.1.value());
    x * x + y * y
}

/// How large the numbers are that an arc is given by.
pub open spec fn extent(from: (Double, Double), to: (Double, Double), r: Double) -> real {
    absolute(from.0.value()) + absolute(from.1.value()) + absolute(to.0.value()) + absolute(
        to.1.value(),
    ) + absolute(r.value())
}

/// The height, on the one side of the chord or on the other.
#[verifier::spinoff_prover]
proof fn lemma_side(r: Double, clockwise: bool, h: Double)
    requires
        h.finite(),
        h.value() >= 0 as real,
    ensures
        ({
            let k = center_side(r, clockwise) * h;
            &&& k.finite()
            &&& k.value() == if (Double::nought().at_most(r)) != clockwise {
                h.value()
            } else {
                -h.value()
            }
        }),
{
    let one = Double::of(1);
    crate::order::law_one_is_one();
    crate::order::law_times_one(one);
    crate::order::law_times_one(h);
    crate::order::law_product_commutes(one, h);
    law_opposite_value(h);
    assert(one.opposite() * one == one.opposite() && one * one.opposite() == one.opposite()
        && one.opposite() * one.opposite() == one && one.opposite() * h == (one * h).opposite()) by {
        reveal(crate::double::product);
    }
}

/// The least number is below a grain of the extent, where it is below that of the chord.
#[verifier::spinoff_prover]
proof fn lemma_extent_above_least(s: real, size: real)
    requires
        least() <= grain() * s,
        s <= size * size,
        size >= 0 as real,
    ensures
        least() <= grain() * size,
{
    lemma_bounds();
    lemma_one_is_positive();
    let g = grain();
    if size <= 1 as real {
        lemma_scaled(size, size, 1 as real);
        assert(size * 1 as real == size) by (nonlinear_arith);
        lemma_scaled(g, s, size);
    } else {
        lemma_grain_of(g);
        lemma_grain_of(g * g);
        assert(g * g * g == g * (g * g)) by (nonlinear_arith);
        lemma_scaled(g, 1 as real, size);
        assert(g * 1 as real == g) by (nonlinear_arith);
    }
}

#[verifier::spinoff_prover]
proof fn lemma_extent(from: (Double, Double), to: (Double, Double), r: Double)
    requires
        moderate(from.0) && moderate(from.1) && moderate(to.0) && moderate(to.1),
        moderate(r),
    ensures
        ({
            let dx = to.0.value() - from.0.value();
            let dy = to.1.value() - from.1.value();
            let size = extent(from, to, r);
            &&& 0 as real <= size <= 5 as real * large()
            &&& absolute(dx) + absolute(dy) <= size
            &&& dx * dx + dy * dy <= size * size
            &&& 0 as real <= r.value() * r.value() <= size * size
        }),
{
    let dx = to.0.value() - from.0.value();
    let dy = to.1.value() - from.1.value();
    let size = extent(from, to, r);
    lemma_chord_within(dx, dy, size);
    lemma_square(r.value());
    lemma_product_bound(r.value(), r.value(), size, size);
}

/// The height is within the extent.
#[verifier::spinoff_prover]
proof fn lemma_height_within_extent(h: real, e: real, s: real, size: real)
    requires
        h >= 0 as real,
        size >= 0 as real,
        h * h <= 2 as real * e + s,
        e <= size * size,
        s <= size * size,
        size * size >= 0 as real,
    ensures
        h <= 2 as real * size,
{
    let z2 = 2 as real * size;
    let ss = size * size;
    assert(z2 * z2 == 4 as real * ss) by (nonlinear_arith)
        requires
            z2 == 2 as real * size,
            ss == size * size,
    ;
    lemma_root_order(h, z2);
}

/// The directions of the chord and of the height.
#[verifier::spinoff_prover]
proof fn lemma_turned(x: Double, y: Double, dx: real, dy: real, d: Double)
    requires
        x.finite() && y.finite() && d.finite(),
        near(x.value(), dx, grain() * absolute(dx)),
        near(y.value(), dy, grain() * absolute(dy)),
        d.value() > 0 as real,
        dx * dx + dy * dy > 0 as real,
        near(
            d.value() * d.value(),
            dx * dx + dy * dy,
            16 as real * (grain() * (dx * dx + dy * dy)),
        ),
    ensures
        ({
            let (b0, b1) = ((-dy) / d.value(), dx / d.value());
            let (u0, u1) = (y.opposite() / d, x / d);
            &&& u0.finite() && u1.finite()
            &&& near(u0.value(), b0, 7 as real * grain())
            &&& near(u1.value(), b1, 7 as real * grain())
            &&& absolute(b0) <= 2 as real && absolute(b1) <= 2 as real
            &&& turned(dx, dy, b0, b1)
            &&& turned(-dx, -dy, b0, b1)
        }),
{
    let s = dx * dx + dy * dy;
    let v = d.value();
    let (b0, b1) = ((-dy) / v, dx / v);
    law_opposite_value(y);
    lemma_square(dx);
    lemma_square(dy);
    let (mx, my) = (-dx, -dy);
    assert(my * my == dy * dy) by (nonlinear_arith)
        requires
            my == -dy,
    ;
    lemma_share(y.opposite(), my, d, s);
    lemma_share(x, dx, d, s);
    assert(turned(dx, dy, b0, b1) && turned(mx, my, b0, b1)) by {
        reveal(turned);
        lemma_perpendicular(dx, dy, v);
        let vv = v * v;
        assert(vv > 0 as real) by (nonlinear_arith)
            requires
                vv == v * v,
                v > 0 as real,
        ;
        lemma_shares_come_to_one(b0 * b0 + b1 * b1, vv, s);
        assert(mx * b0 + my * b1 == -(dx * b0 + dy * b1)) by (nonlinear_arith)
            requires
                mx == -dx,
                my == -dy,
        ;
    }
}

/// The center of the circle of radius `r` through two points is that far from both.
#[verifier::spinoff_prover]
proof fn lemma_circle(from: (Double, Double), to: (Double, Double), r: Double, clockwise: bool)
    requires
        moderate(from.0) && moderate(from.1) && moderate(to.0) && moderate(to.1),
        moderate(r),
        least() <= grain() * apart_sqr(from, to),
        circle_center(from, to, r, center_side(r, clockwise)) is Ok,
    ensures
        ({
            let c = circle_center(from, to, r, center_side(r, clockwise))->Ok_0;
            let dx = to.0.value() - from.0.value();
            let dy = to.1.value() - from.1.value();
            let e0 = c.0.value() - (from.0.value() + to.0.value()) / 2 as real;
            let e1 = c.1.value() - (from.1.value() + to.1.value()) / 2 as real;
            let e = r.value() * r.value();
            let size = extent(from, to, r);
            &&& c.0.finite() && c.1.finite()
            &&& distance_fits(dx, dy, e0, e1, e, size)
            &&& distance_fits(-dx, -dy, e0, e1, e, size)
        }),
{
    let dx = to.0.value() - from.0.value();
    let dy = to.1.value() - from.1.value();
    let s = dx * dx + dy * dy;
    let e = r.value() * r.value();
    let size = extent(from, to, r);
    let (x, y) = (to.0 - from.0, to.1 - from.1);
    let d2 = x * x + y * y;
    let d = d2.root();
    let h2 = r * r - d2 / Double::of(4);
    let h = h2.root();
    let k = center_side(r, clockwise) * h;
    lemma_chord(from, to);
    lemma_height(r, d2, s);
    lemma_extent(from, to, r);
    lemma_height_within_extent(h.value(), e, s, size);
    lemma_extent_above_least(s, size);
    lemma_side(r, clockwise, h);
    lemma_turned(x, y, dx, dy, d);
    let (b0, b1) = ((-dy) / d.value(), dx / d.value());
    lemma_coordinate(from.0, to.0, k, y.opposite() / d, b0, size);
    lemma_coordinate(from.1, to.1, k, x / d, b1, size);
    let c = circle_center(from, to, r, center_side(r, clockwise))->Ok_0;
    let e0 = c.0.value() - (from.0.value() + to.0.value()) / 2 as real;
    let e1 = c.1.value() - (from.1.value() + to.1.value()) / 2 as real;
    let kv = k.value();
    assert(height_fits(e0, kv, b0, size) && height_fits(e1, kv, b1, size)) by {
        reveal(height_fits);
    }
    lemma_radius_fits(kv, h.value(), s, e);
    let (mx, my) = (-dx, -dy);
    assert(mx * mx + my * my == s) by (nonlinear_arith)
        requires
            mx == -dx,
            my == -dy,
            s == dx * dx + dy * dy,
    ;
    lemma_distance_from_end(dx, dy, kv, b0, b1, e0, e1, e, size);
    lemma_distance_from_end(mx, my, kv, b0, b1, e0, e1, e, size);
}

#[verifier::spinoff_prover]
proof fn lemma_radius_fits(k: real, h: real, s: real, e: real)
    requires
        k == h || k == -h,
        near(h * h, e - s / 4 as real, 12 as real * (grain() * e + grain() * s)),
    ensures
        radius_fits(k, s, e),
{
    reveal(radius_fits);
    assert(k * k == h * h) by (nonlinear_arith)
        requires
            k == h || k == -h,
    ;
}

/// The center of an arc that is given by a radius is as far from its start, and from its
/// end, as the radius says, whatever the sign of that: the square of the distance in the
/// plane is the square of the radius. Where the ends are so close together that the square
/// of their distance is next to nothing among the numbers, there is no telling.
pub proof fn law_center_is_a_radius_from_both_ends(
    plane: Plane,
    start: Position,
    end: Position,
    r: Double,
    clockwise: bool,
)
    requires
        moderate(in_plane(plane, start).0) && moderate(in_plane(plane, start).1),
        moderate(in_plane(plane, end).0) && moderate(in_plane(plane, end).1),
        moderate(r),
        least() <= grain() * apart_sqr(in_plane(plane, start), in_plane(plane, end)),
        arc_center(plane, start, end, None, Some(r), clockwise) is Ok,
    ensures
        ({
            let (from, to) = (in_plane(plane, start), in_plane(plane, end));
            let c = in_plane(
                plane,
                arc_center(plane, start, end, None, Some(r), clockwise)->Ok_0,
            );
            let size = extent(from, to, r);
            let bound = 1000 as real * (grain() * (size * size));
            &&& c.0.finite() && c.1.finite()
            &&& near(apart_sqr(from, c), r.value() * r.value(), bound)
            &&& near(apart_sqr(to, c), r.value() * r.value(), bound)
        }),
{
    reveal(arc_center);
    let (from, to) = (in_plane(plane, start), in_plane(plane, end));
    lemma_circle(from, to, r, clockwise);
    lemma_apart(from, to, in_plane(
        plane,
        arc_center(plane, start, end, None, Some(r), clockwise)->Ok_0,
    ), r.value() * r.value(), extent(from, to, r));
}

#[verifier::spinoff_prover]
proof fn lemma_apart(
    from: (Double, Double),
    to: (Double, Double),
    c: (Double, Double),
    e: real,
    size: real,
)
    requires
        ({
            let dx = to.0.value() - from.0.value();
            let dy = to.1.value() - from.1.value();
            let e0 = c.0.value() - (from.0.value() + to.0.value()) / 2 as real;
            let e1 = c.1.value() - (from.1.value() + to.1.value()) / 2 as real;
            &&& distance_fits(dx, dy, e0, e1, e, size)
            &&& distance_fits(-dx, -dy, e0, e1, e, size)
        }),
    ensures
        near(apart_sqr(from, c), e, 1000 as real * (grain() * (size * size))),
        near(apart_sqr(to, c), e, 1000 as real * (grain() * (size * size))),
{
    reveal(distance_fits);
    let dx = to.0.value() - from.0.value();
    let dy = to.1.value() - from.1.value();
    let e0 = c.0.value() - (from.0.value() + to.0.value()) / 2 as real;
    let e1 = c.1.value() - (from.1.value() + to.1.value()) / 2 as real;
    let (mx, my) = (-dx, -dy);
    assert(dx / 2 as real + e0 == c.0.value() - from.0.value());
    assert(dy / 2 as real + e1 == c.1.value() - from.1.value());
    assert(mx / 2 as real + e0 == c.0.value() - to.0.value());
    assert(my / 2 as real + e1 == c.1.value() - to.1.value());
}

} // verus!
