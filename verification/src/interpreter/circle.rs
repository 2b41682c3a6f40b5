//! The geometry of a circle through two points, in real numbers that are off by a little.
use vstd::prelude::*;
use crate::value::absolute;
use crate::value::grain;
use crate::value::lemma_cancelled;
use crate::value::lemma_grain_of;
use crate::value::lemma_one_is_positive;
use crate::value::lemma_product_bound;
use crate::value::lemma_quotient_times;
use crate::value::lemma_scaled;
use crate::value::lemma_square;
use crate::value::lemma_square_near;
use crate::value::lemma_times;
use crate::value::near;

verus! {

/// The shares of the height's direction are perpendicular to the chord.
#[verifier::spinoff_prover]
pub(crate) proof fn lemma_perpendicular(dx: real, dy: real, v: real)
    requires
        v > 0 as real,
    ensures
        ({
            let (b0, b1) = ((-dy) / v, dx / v);
            &&& dx * b0 + dy * b1 == 0 as real
            &&& (b0 * b0 + b1 * b1) * (v * v) == dx * dx + dy * dy
        }),
{
    let (b0, b1) = ((-dy) / v, dx / v);
    lemma_quotient_times(-dy, v);
    lemma_quotient_times(dx, v);
    let z = dx * b0 + dy * b1;
    let (p, q) = (b0 * v, b1 * v);
    assert(v * z == dx * p + dy * q) by (nonlinear_arith)
        requires
            z == dx * b0 + dy * b1,
            p == b0 * v,
            q == b1 * v,
    ;
    assert(dx * p + dy * q == 0 as real) by (nonlinear_arith)
        requires
            p == -dy,
            q == dx,
    ;
    let n = -z;
    assert(v * n == -(v * z)) by (nonlinear_arith)
        requires
            n == -z,
    ;
    lemma_cancelled(v, z);
    lemma_cancelled(v, n);
    assert((b0 * b0 + b1 * b1) * (v * v) == p * p + q * q) by (nonlinear_arith)
        requires
            p == b0 * v,
            q == b1 * v,
    ;
    assert(p * p + q * q == dx * dx + dy * dy) by (nonlinear_arith)
        requires
            p == -dy,
            q == dx,
    ;
}

/// Their squares come to one.
#[verifier::spinoff_prover]
pub(crate) proof fn lemma_shares_come_to_one(beta: real, e: real, s: real)
    requires
        beta * e == s,
        near(e, s, 16 as real * (grain() * s)),
        s > 0 as real,
        e > 0 as real,
    ensures
        near(beta, 1 as real, 17 as real * grain()),
{
    let g = grain();
    lemma_grain_of(s);
    lemma_grain_of(e);
    let (gs, ge) = (g * s, g * e);
    let up = beta - 1 as real - 17 as real * g;
    let down = 1 as real - beta - 17 as real * g;
    assert(e * up == s - e - 17 as real * ge) by (nonlinear_arith)
        requires
            up == beta - 1 as real - 17 as real * g,
            beta * e == s,
            ge == g * e,
    ;
    assert(e * down == e - s - 17 as real * ge) by (nonlinear_arith)
        requires
            down == 1 as real - beta - 17 as real * g,
            beta * e == s,
            ge == g * e,
    ;
    assert(-(17 as real * ge) <= s - e <= 17 as real * ge) by (nonlinear_arith)
        requires
            near(e, s, 16 as real * gs),
            gs * 9007199254740992 as real == s,
            ge * 9007199254740992 as real == e,
            s > 0 as real,
    ;
    lemma_cancelled(e, up);
    lemma_cancelled(e, down);
}

/// The square of one coordinate of the height.
#[verifier::spinoff_prover]
proof fn lemma_height_coordinate(e: real, kb: real, size: real)
    requires
        near(e, kb, 33 as real * (grain() * size)),
        absolute(kb) <= 4 as real * size,
    ensures
        near(e * e, kb * kb, 265 as real * (grain() * (size * size))),
{
    lemma_one_is_positive();
    let g = grain();
    let gz = g * size;
    let off = 33 as real * gz;
    lemma_square_near(e, kb, off);
    lemma_times(g, size);
    lemma_scaled(off, absolute(kb), 4 as real * size);
    let (a, ss) = (absolute(kb), size * size);
    let gss = g * ss;
    let z4 = 4 as real * size;
    assert(off * a == a * off) by (nonlinear_arith);
    assert(off * z4 == 132 as real * gss) by (nonlinear_arith)
        requires
            off == 33 as real * gz,
            gz == g * size,
            z4 == 4 as real * size,
            gss == g * ss,
            ss == size * size,
    ;
    let ggss = g * gss;
    lemma_square(size);
    lemma_times(g, ss);
    lemma_grain_of(gss);
    assert(off * off == 1089 as real * ggss) by (nonlinear_arith)
        requires
            off == 33 as real * gz,
            gz == g * size,
            ggss == g * gss,
            gss == g * ss,
            ss == size * size,
    ;
    let ao = a * off;
    let oo = off * off;
    let ee = e * e;
    let kk = kb * kb;
    assert(near(ee, kk, 265 as real * gss)) by (nonlinear_arith)
        requires
            near(ee, kk, 2 as real * ao + oo),
            ao <= 132 as real * gss,
            oo == 1089 as real * ggss,
            1000000 as real * ggss <= gss,
    ;
}

/// What the height adds across the chord.
#[verifier::spinoff_prover]
proof fn lemma_cross(
    dx: real,
    dy: real,
    k: real,
    b0: real,
    b1: real,
    e0: real,
    e1: real,
    size: real,
)
    requires
        dx * b0 + dy * b1 == 0 as real,
        near(e0, k * b0, 33 as real * (grain() * size)),
        near(e1, k * b1, 33 as real * (grain() * size)),
        absolute(dx) + absolute(dy) <= size,
    ensures
        absolute(dx * e0 + dy * e1) <= 33 as real * (grain() * (size * size)),
{
    lemma_one_is_positive();
    let g = grain();
    let (f0, f1) = (e0 - k * b0, e1 - k * b1);
    let off = 33 as real * (g * size);
    let gz = g * size;
    lemma_times(g, size);
    lemma_product_bound(dx, f0, absolute(dx), off);
    lemma_product_bound(dy, f1, absolute(dy), off);
    let (kb0, kb1) = (k * b0, k * b1);
    assert(dx * e0 + dy * e1 == dx * f0 + dy * f1 + (dx * kb0 + dy * kb1)) by (nonlinear_arith)
        requires
            f0 == e0 - kb0,
            f1 == e1 - kb1,
    ;
    let z = dx * b0 + dy * b1;
    assert(dx * kb0 + dy * kb1 == k * z) by (nonlinear_arith)
        requires
            kb0 == k * b0,
            kb1 == k * b1,
            z == dx * b0 + dy * b1,
    ;
    assert(k * z == 0 as real) by (nonlinear_arith)
        requires
            z == 0 as real,
    ;
    let (a, b) = (absolute(dx), absolute(dy));
    assert(a * off + b * off == off * (a + b)) by (nonlinear_arith);
    lemma_scaled(off, a + b, size);
    let gss = g * (size * size);
    assert(off * size == 33 as real * gss) by (nonlinear_arith)
        requires
            off == 33 as real * (g * size),
            gss == g * (size * size),
    ;
}

proof fn lemma_total_linear(
    total: real,
    s: real,
    cross: real,
    p: real,
    q: real,
    n0: real,
    n1: real,
    kkb: real,
    kk: real,
    e: real,
    ge: real,
    gs: real,
    gkk: real,
    gss: real,
)
    by (nonlinear_arith)
    requires
        total == s / 4 as real + cross + (p + q),
        absolute(cross) <= 33 as real * gss,
        near(p, n0, 265 as real * gss),
        near(q, n1, 265 as real * gss),
        n0 + n1 == kkb,
        near(kkb, kk, 17 as real * gkk),
        near(kk, e - s / 4 as real, 12 as real * (ge + gs)),
        0 as real <= ge <= gss,
        0 as real <= gs <= gss,
        0 as real <= gkk <= 4 as real * gss,
    ensures
        near(total, e, 1000 as real * gss),
{
}

/// The squares of the height's coordinates, together.
#[verifier::spinoff_prover]
proof fn lemma_height_squares(k: real, b0: real, b1: real, size: real)
    requires
        near(b0 * b0 + b1 * b1, 1 as real, 17 as real * grain()),
        absolute(k) <= 2 as real * size,
    ensures
        near(
            (k * b0) * (k * b0) + (k * b1) * (k * b1),
            k * k,
            17 as real * (grain() * (k * k)),
        ),
        0 as real <= grain() * (k * k) <= 4 as real * (grain() * (size * size)),
{
    lemma_one_is_positive();
    let g = grain();
    let kk = k * k;
    let beta = b0 * b0 + b1 * b1;
    let kkb = kk * beta;
    assert((k * b0) * (k * b0) + (k * b1) * (k * b1) == kkb) by (nonlinear_arith)
        requires
            kkb == kk * beta,
            kk == k * k,
            beta == b0 * b0 + b1 * b1,
    ;
    lemma_square(k);
    let off = beta - 1 as real;
    let g17 = 17 as real * g;
    let gkk = g * kk;
    lemma_product_bound(kk, off, kk, g17);
    assert(kk * off == kkb - kk) by (nonlinear_arith)
        requires
            off == beta - 1 as real,
            kkb == kk * beta,
    ;
    assert(kk * g17 == 17 as real * gkk) by (nonlinear_arith)
        requires
            g17 == 17 as real * g,
            gkk == g * kk,
    ;
    lemma_times(g, kk);
    lemma_height_within(k, size);
}

#[verifier::spinoff_prover]
proof fn lemma_height_within(k: real, size: real)
    requires
        absolute(k) <= 2 as real * size,
    ensures
        k * k <= 4 as real * (size * size),
        grain() * (k * k) <= 4 as real * (grain() * (size * size)),
{
    lemma_one_is_positive();
    let g = grain();
    let z2 = 2 as real * size;
    let (kk, ss) = (k * k, size * size);
    lemma_product_bound(k, k, z2, z2);
    assert(z2 * z2 == 4 as real * ss) by (nonlinear_arith)
        requires
            z2 == 2 as real * size,
            ss == size * size,
    ;
    lemma_scaled(g, kk, 4 as real * ss);
    let gss = g * ss;
    assert(g * (4 as real * ss) == 4 as real * gss) by (nonlinear_arith)
        requires
            gss == g * ss,
    ;
}

/// A grain of what is within the size is within a grain of it.
#[verifier::spinoff_prover]
proof fn lemma_grain_within(x: real, size: real)
    requires
        0 as real <= x <= size * size,
    ensures
        0 as real <= grain() * x <= grain() * (size * size),
{
    lemma_one_is_positive();
    lemma_scaled(grain(), x, size * size);
    lemma_times(grain(), x);
}

#[verifier::spinoff_prover]
proof fn lemma_expansion(dx: real, dy: real, e0: real, e1: real)
    ensures
        ({
            let (x, y) = (dx / 2 as real + e0, dy / 2 as real + e1);
            x * x + y * y == (dx * dx + dy * dy) / 4 as real + (dx * e0 + dy * e1) + (e0 * e0 + e1
                * e1)
        }),
{
    let (x, y) = (dx / 2 as real + e0, dy / 2 as real + e1);
    assert(x * x == (dx * dx) / 4 as real + dx * e0 + e0 * e0) by (nonlinear_arith)
        requires
            x == dx / 2 as real + e0,
    ;
    assert(y * y == (dy * dy) / 4 as real + dy * e1 + e1 * e1) by (nonlinear_arith)
        requires
            y == dy / 2 as real + e1,
    ;
}

/// The height's coordinates, by their bounds.
#[verifier::spinoff_prover]
proof fn lemma_height_bound(k: real, b: real, size: real)
    requires
        absolute(k) <= 2 as real * size,
        absolute(b) <= 2 as real,
    ensures
        absolute(k * b) <= 4 as real * size,
{
    lemma_product_bound(k, b, 2 as real * size, 2 as real);
    let z2 = 2 as real * size;
    assert(z2 * 2 as real == 4 as real * size) by (nonlinear_arith)
        requires
            z2 == 2 as real * size,
    ;
}

/// What the chord and the height come to.
#[verifier::opaque]
pub open spec fn radius_fits(k: real, s: real, e: real) -> bool {
    near(k * k, e - s / 4 as real, 12 as real * (grain() * e + grain() * s))
}

/// One coordinate of the height fits.
#[verifier::opaque]
pub open spec fn height_fits(e: real, k: real, b: real, size: real) -> bool {
    near(e, k * b, 33 as real * (grain() * size))
}

/// The two directions are perpendicular, and the second is of length one.
#[verifier::opaque]
pub open spec fn turned(dx: real, dy: real, b0: real, b1: real) -> bool {
    &&& dx * b0 + dy * b1 == 0 as real
    &&& near(b0 * b0 + b1 * b1, 1 as real, 17 as real * grain())
    &&& absolute(b0) <= 2 as real
    &&& absolute(b1) <= 2 as real
}

/// The square of the distance from the end of the chord.
#[verifier::opaque]
pub open spec fn distance_fits(dx: real, dy: real, e0: real, e1: real, e: real, size: real) -> bool {
    let (x, y) = (dx / 2 as real + e0, dy / 2 as real + e1);
    near(x * x + y * y, e, 1000 as real * (grain() * (size * size)))
}

/// A point off the middle of a chord, by the height and across it, is as far from either
/// end as the radius.
#[verifier::spinoff_prover]
pub(crate) proof fn lemma_distance_from_end(
    dx: real,
    dy: real,
    k: real,
    b0: real,
    b1: real,
    e0: real,
    e1: real,
    e: real,
    size: real,
)
    requires
        turned(dx, dy, b0, b1),
        height_fits(e0, k, b0, size),
        height_fits(e1, k, b1, size),
        radius_fits(k, dx * dx + dy * dy, e),
        absolute(k) <= 2 as real * size,
        absolute(dx) + absolute(dy) <= size,
        0 as real <= e <= size * size,
    ensures
        distance_fits(dx, dy, e0, e1, e, size),
{
    reveal(distance_fits);
    let g = grain();
    let s = dx * dx + dy * dy;
    let (x, y) = (dx / 2 as real + e0, dy / 2 as real + e1);
    let gss = g * (size * size);
    let cross = dx * e0 + dy * e1;
    let (p, q) = (e0 * e0, e1 * e1);
    let (n0, n1) = ((k * b0) * (k * b0), (k * b1) * (k * b1));
    let kk = k * k;
    assert(absolute(cross) <= 33 as real * gss) by {
        reveal(turned);
        reveal(height_fits);
        lemma_cross(dx, dy, k, b0, b1, e0, e1, size);
    }
    assert(near(p, n0, 265 as real * gss)) by {
        reveal(turned);
        reveal(height_fits);
        lemma_height_bound(k, b0, size);
        lemma_height_coordinate(e0, k * b0, size);
    }
    assert(near(q, n1, 265 as real * gss)) by {
        reveal(turned);
        reveal(height_fits);
        lemma_height_bound(k, b1, size);
        lemma_height_coordinate(e1, k * b1, size);
    }
    assert(near(n0 + n1, kk, 17 as real * (g * kk)) && 0 as real <= g * kk <= 4 as real * gss) by {
        reveal(turned);
        lemma_height_squares(k, b0, b1, size);
    }
    assert(near(kk, e - s / 4 as real, 12 as real * (g * e + g * s))) by {
        reveal(radius_fits);
    }
    assert(0 as real <= g * e <= gss) by {
        lemma_grain_within(e, size);
    }
    assert(0 as real <= g * s <= gss) by {
        lemma_square(dx);
        lemma_square(dy);
        lemma_chord_within(dx, dy, size);
        lemma_grain_within(s, size);
    }
    let total = x * x + y * y;
    assert(total == s / 4 as real + cross + (p + q)) by {
        lemma_expansion(dx, dy, e0, e1);
    }
    lemma_total_linear(total, s, cross, p, q, n0, n1, n0 + n1, kk, e, g * e, g * s, g * kk, gss);
}

/// A chord is no longer than its legs together.
#[verifier::spinoff_prover]
pub(crate) proof fn lemma_chord_within(dx: real, dy: real, size: real)
    requires
        absolute(dx) + absolute(dy) <= size,
    ensures
        dx * dx + dy * dy <= size * size,
{
    let (a, b) = (absolute(dx), absolute(dy));
    let c = a + b;
    lemma_square(dx);
    lemma_square(dy);
    lemma_times(a, b);
    lemma_product_bound(c, c, size, size);
    assert(c * c == a * a + b * b + 2 as real * (a * b)) by (nonlinear_arith)
        requires
            c == a + b,
    ;
}

} // verus!
