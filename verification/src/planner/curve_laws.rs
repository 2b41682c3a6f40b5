//! What holds of the points of an arc: at which angle they lie, how far from the center,
//! and which way they run.
use vstd::prelude::*;
use crate::double::Double;
use crate::order::law_product_commutes;
use crate::order::law_sum_commutes;
use crate::order::law_sum_keeps_order;
use crate::value::absolute;
use crate::value::grain;
use crate::value::law_difference_is_near;
use crate::value::law_integer_value;
use crate::value::law_opposite_value;
use crate::value::law_order_of_values;
use crate::value::law_product_is_near;
use crate::value::law_quotient_times_divisor;
use crate::value::law_sum_is_near;
use crate::value::law_sum_with_product_is_near;
use crate::value::law_twice_is_exact;
use crate::value::least;
use crate::value::moderate;
use crate::value::near;
use crate::rounding::SIGNIFICAND_BOUND;
use super::arc::ArcParams;
use super::arc::Plane;
use super::arc::chord;
use super::arc::joint;
use super::arc::sweep_between;
use super::arc_laws::law_sweep_is_at_most_a_turn;
use super::arc_laws::lemma_angle_difference;
use super::arc_laws::within_half_a_turn;
use super::geometry_laws::lemma_leg;
use super::geometry_laws::lemma_root_of_two;
use super::geometry_laws::within_reach;
use super::position::Position;
use super::trigonometry::Trigonometry;

verus! {

/// The coordinates of a position in a plane, and the one off it.
pub open spec fn seen_in(p: Position, plane: Plane) -> (Double, Double, Double) {
    match plane {
        Plane::Xy => (p.x, p.y, p.z),
        Plane::Yz => (p.y, p.z, p.x),
        Plane::Zx => (p.z, p.x, p.y),
    }
}

/// One number lies so many times a second one beyond a third, but for rounding.
pub open spec fn reaches(to: Double, from: real, times: real, by: real) -> bool {
    near(
        to.value(),
        from + times * by,
        3 as real * (grain() * (absolute(from) + absolute(times * by))) + 2 as real * least(),
    )
}

/// The point at fraction `t` of an arc lies at the angle that is reached when the share
/// `t` of the turn has been made: at the angle of the start and `t` times the turn. With a
/// negative turn the points run clockwise.
pub proof fn law_point_lies_at_its_share_of_the_turn<A, C, S>(
    params: ArcParams,
    t: Double,
    trigonometry: Trigonometry<A, C, S>,
) -> (angle: Double) where
    A: Fn(Double, Double) -> Double,
    C: Fn(Double) -> Double,
    S: Fn(Double) -> Double,

    requires
        params.angle0.finite(),
        params.sweep.finite(),
        t.finite(),
        (params.sweep * t).finite(),
        (params.angle0 + params.sweep * t).finite(),
    ensures
        params.point_along(t, trigonometry) == params.point(
            t,
            trigonometry.cosine(angle),
            trigonometry.sine(angle),
        ),
        reaches(angle, params.angle0.value(), params.sweep.value(), t.value()),
{
    law_sum_with_product_is_near(params.angle0, params.sweep, t);
    params.angle0 + params.sweep * t
}

/// From the cosine and the sine of its angle, a point lies on the circle: as far from the
/// center, in the plane, as the radius times each. Off the plane it lies at its share of
/// the way from the start to the end.
pub proof fn law_point_lies_on_the_circle(params: ArcParams, t: Double, cos: Double, sin: Double)
    requires
        ({
            let p = seen_in(params.point(t, cos, sin), params.plane);
            &&& p.0.finite() && p.1.finite() && p.2.finite()
        }),
        params.center_uv.0.finite() && params.center_uv.1.finite(),
        params.radius.finite() && cos.finite() && sin.finite() && t.finite(),
        (params.radius * cos).finite() && (params.radius * sin).finite(),
        params.linear0.finite() && (params.linear1 - params.linear0).finite(),
        ((params.linear1 - params.linear0) * t).finite(),
    ensures
        ({
            let p = seen_in(params.point(t, cos, sin), params.plane);
            &&& reaches(
                p.0,
                params.center_uv.0.value(),
                params.radius.value(),
                cos.value(),
            )
            &&& reaches(
                p.1,
                params.center_uv.1.value(),
                params.radius.value(),
                sin.value(),
            )
            &&& reaches(
                p.2,
                params.linear0.value(),
                (params.linear1 - params.linear0).value(),
                t.value(),
            )
        }),
{
    law_sum_with_product_is_near(params.center_uv.0, params.radius, cos);
    law_sum_with_product_is_near(params.center_uv.1, params.radius, sin);
    law_sum_with_product_is_near(params.linear0, params.linear1 - params.linear0, t);
}

/// Further along an arc the angle is further in the direction of the turn: never above
/// that of an earlier point on a clockwise arc, never below it on a counterclockwise one.
/// No point lies on the wrong side of the start.
pub proof fn law_points_run_the_way_of_the_turn<A, C, S>(
    params: ArcParams,
    t1: Double,
    t2: Double,
    trigonometry: Trigonometry<A, C, S>,
) -> (angles: (Double, Double)) where
    A: Fn(Double, Double) -> Double,
    C: Fn(Double) -> Double,
    S: Fn(Double) -> Double,

    requires
        Double::nought().at_most(t1),
        t1.at_most(t2),
        params.sweep.finite(),
        !(params.angle0 + params.sweep * t1).nan(),
        !(params.angle0 + params.sweep * t2).nan(),
    ensures
        params.point_along(t1, trigonometry) == params.point(
            t1,
            trigonometry.cosine(angles.0),
            trigonometry.sine(angles.0),
        ),
        params.point_along(t2, trigonometry) == params.point(
            t2,
            trigonometry.cosine(angles.1),
            trigonometry.sine(angles.1),
        ),
        params.sweep.below(Double::nought()) ==> angles.1.at_most(angles.0) && angles.0.at_most(
            params.angle0,
        ),
        Double::nought().below(params.sweep) ==> angles.0.at_most(angles.1)
            && params.angle0.at_most(angles.0),
{
    let zero = Double::nought();
    let (a, s) = (params.angle0, params.sweep);
    let r = s.opposite();
    assert(!(s * t1).nan() && !(s * t2).nan() && !a.nan()) by {
        reveal(crate::double::sum);
    }
    law_sum_commutes(a, s * t1);
    law_sum_commutes(a, s * t2);
    if zero.below(s) {
        crate::order::law_product_keeps_order(t1, t2, s);
        crate::order::law_product_keeps_order(zero, t1, s);
        lemma_times_nothing(s);
        law_sum_keeps_order(s * t1, s * t2, a);
        lemma_nothing_added(s * zero, a);
        law_sum_keeps_order(s * zero, s * t1, a);
    } else if s.below(zero) {
        crate::order::law_product_keeps_order(t1, t2, r);
        crate::order::law_product_keeps_order(zero, t1, r);
        lemma_times_nothing(s);
        lemma_times_nothing(r);
        assert(r * t1 == (s * t1).opposite() && r * t2 == (s * t2).opposite()) by {
            reveal(crate::double::product);
        }
        law_sum_keeps_order(s * t2, s * t1, a);
        lemma_nothing_added(s * zero, a);
        law_sum_keeps_order(s * t1, s * zero, a);
    }
    (a + s * t1, a + s * t2)
}

#[verifier::spinoff_prover]
proof fn lemma_times_nothing(s: Double)
    requires
        s.finite(),
    ensures
        (s * Double::nought()).zero(),
{
    crate::order::law_zero_times_anything(Double::nought(), s);
    law_product_commutes(Double::nought(), s);
}

#[verifier::spinoff_prover]
proof fn lemma_nothing_added(z: Double, a: Double)
    requires
        z.zero(),
        !a.nan(),
    ensures
        !(z + a).nan(),
        (z + a).same(a),
{
    reveal(crate::double::sum);
    crate::double::lemma_units_zero(0);
    crate::order::law_zero_changes_nothing(a);
}

/// The joints between the segments of an arc are spaced evenly: the `i`-th of `count`
/// lies at the share `i / count` of the turn.
pub proof fn law_joints_are_evenly_spaced<A, C, S>(
    params: ArcParams,
    start: Position,
    count: nat,
    i: nat,
    trigonometry: Trigonometry<A, C, S>,
) -> (t: Double) where
    A: Fn(Double, Double) -> Double,
    C: Fn(Double) -> Double,
    S: Fn(Double) -> Double,

    requires
        0 < i <= count < SIGNIFICAND_BOUND,
    ensures
        joint(params, start, count, i, trigonometry) == params.point_along(t, trigonometry),
        t.finite(),
        near(
            t.value() * count as real,
            i as real,
            grain() * i as real + least() * count as real,
        ),
{
    let (a, b) = (Double::of(i), Double::of(count));
    law_integer_value(i);
    law_integer_value(count);
    crate::value::lemma_bounds();
    crate::value::lemma_scaled(crate::value::vast(), 1 as real, count as real);
    law_order_of_values(b, b);
    crate::value::lemma_scaled(count as real, 1000 as real, crate::value::vast());
    let (c, f) = (count as real, crate::value::vast());
    assert(c * f == f * c) by (nonlinear_arith);
    crate::value::law_quotient_is_finite(a, b);
    law_quotient_times_divisor(a, b);
    a / b
}

proof fn lemma_onward_near(s: real, d: real, e: real, turn: real, ge: real, gt: real, bound: real)
    by (nonlinear_arith)
    requires
        near(d, e, ge),
        s == d || near(s, d + turn, gt),
        ge * 9007199254740992 as real == absolute(e),
        gt * 9007199254740992 as real == absolute(d + turn),
        turn >= 0 as real,
        bound * 9007199254740992 as real == absolute(e) + turn,
    ensures
        near(s, e, 4 as real * bound) || near(s, e + turn, 4 as real * bound),
{
}

/// A difference of angles, brought above zero by a whole turn if need be.
#[verifier::spinoff_prover]
proof fn lemma_onward_value(a: Double, b: Double, s: Double)
    requires
        a.finite(),
        b.finite(),
        (b - a).finite(),
        s.finite(),
        s == b - a || s == (b - a) + Double::full_turn(),
    ensures
        ({
            let e = b.value() - a.value();
            let turn = Double::full_turn().value();
            let bound = 4 as real * (grain() * (absolute(e) + turn));
            near(s.value(), e, bound) || near(s.value(), e + turn, bound)
        }),
{
    let f = Double::full_turn();
    assert(f.finite() && !f.negative());
    law_order_of_values(Double::nought(), f);
    crate::value::law_zero_value();
    law_difference_is_near(b, a);
    let d = b - a;
    let e = b.value() - a.value();
    let turn = f.value();
    if s != d {
        law_sum_is_near(d, f);
    }
    crate::value::lemma_grain_of(absolute(e));
    crate::value::lemma_grain_of(absolute(d.value() + turn));
    crate::value::lemma_grain_of(absolute(e) + turn);
    lemma_onward_near(
        s.value(),
        d.value(),
        e,
        turn,
        grain() * absolute(e),
        grain() * absolute(d.value() + turn),
        grain() * (absolute(e) + turn),
    );
}

/// The turn of an arc leads from the angle of its start to that of its end: it is their
/// difference, or that and one whole turn in the direction of the arc.
pub proof fn law_turn_leads_from_start_to_end(angle0: Double, angle1: Double, clockwise: bool)
    requires
        within_half_a_turn(angle0),
        within_half_a_turn(angle1),
    ensures
        ({
            let sweep = sweep_between(angle0, angle1, false, clockwise).value();
            let e = angle1.value() - angle0.value();
            let turn = Double::full_turn().value();
            let bound = 4 as real * (grain() * (absolute(e) + turn));
            let whole = if clockwise {
                -turn
            } else {
                turn
            };
            near(sweep, e, bound) || near(sweep, e + whole, bound)
        }),
{
    law_sweep_is_at_most_a_turn(angle0, angle1, clockwise);
    let sweep = sweep_between(angle0, angle1, false, clockwise);
    let e = angle1.value() - angle0.value();
    lemma_angle_difference(angle0, angle1);
    lemma_angle_difference(angle1, angle0);
    if clockwise {
        let s = sweep.opposite();
        assert(s.opposite() == sweep);
        law_opposite_value(s);
        lemma_onward_value(angle1, angle0, s);
        assert(absolute(e) == absolute(angle0.value() - angle1.value()));
    } else {
        lemma_onward_value(angle0, angle1, sweep);
    }
}

/// The length of an arc is its radius times its turn.
pub proof fn law_arc_length_is_radius_times_turn(params: ArcParams)
    requires
        params.radius.finite(),
        params.sweep.finite(),
        params.arc_length().finite(),
    ensures
        ({
            let e = params.radius.value() * absolute(params.sweep.value());
            near(params.arc_length().value(), e, grain() * absolute(e) + least())
        }),
{
    law_opposite_value(params.sweep);
    law_product_is_near(params.radius, params.sweep.size());
}

/// The radius of an arc is the distance of its start from its center, in the plane, which
/// is one of those that leave out an axis.
pub proof fn law_radius_is_the_distance_from_the_center(
    start: Position,
    target: Position,
    center: Position,
    clockwise: bool,
    angle0: Double,
    angle1: Double,
)
    requires
        within_reach(start),
        within_reach(center),
    ensures
        ({
            let params = ArcParams::between(start, target, center, clockwise, angle0, angle1);
            let (p, c) = (seen_in(start, params.plane), seen_in(center, params.plane));
            let (x, y) = (p.0.value() - c.0.value(), p.1.value() - c.1.value());
            let s = x * x + y * y;
            let r = params.radius;
            &&& r.finite()
            &&& r.value() >= 0 as real
            &&& near(r.value() * r.value(), s, 16 as real * (grain() * s) + 8 as real * least())
            &&& params.center_uv == (c.0, c.1)
            &&& params.linear0 == p.2
            &&& params.linear1 == seen_in(target, params.plane).2
            &&& params.angle0 == angle0
        }),
{
    crate::value::lemma_bounds();
    let params = ArcParams::between(start, target, center, clockwise, angle0, angle1);
    let (p, c) = (seen_in(start, params.plane), seen_in(center, params.plane));
    lemma_leg(c.0, p.0);
    lemma_leg(c.1, p.1);
    let (x, y) = (p.0.value() - c.0.value(), p.1.value() - c.1.value());
    let (a, b) = (p.0 - c.0, p.1 - c.1);
    let h = crate::value::large();
    let hh = h * h;
    assert(1000 as real * h * h == 1000 as real * hh) by (nonlinear_arith)
        requires
            hh == h * h,
    ;
    crate::value::lemma_scaled(h, 1 as real, h);
    lemma_root_of_two(a * a, b * b, x * x, y * y, 4 as real * hh);
}

// ---- chords ----

proof fn lemma_chord_linear(
    cc: real,
    rho: real,
    arg: real,
    td: real,
    e: real,
    ge: real,
    gtd: real,
    garg: real,
    l: real,
)
    by (nonlinear_arith)
    requires
        near(td, e, ge),
        near(arg, td, gtd + l),
        near(rho, arg, 3 as real * garg),
        cc == 4 as real * rho,
        ge * 9007199254740992 as real == e,
        gtd * 9007199254740992 as real == absolute(td),
        garg * 9007199254740992 as real == arg,
        e >= 0 as real,
        arg >= 0 as real,
        l >= 0 as real,
    ensures
        near(cc, 4 as real * e, 32 as real * ge + 8 as real * l),
{
}

proof fn lemma_argument_bound(arg: real, td: real, gtd: real, l: real, hh: real)
    by (nonlinear_arith)
    requires
        near(arg, td, gtd + l),
        gtd * 9007199254740992 as real == absolute(td),
        absolute(td) <= 4 as real * hh,
        hh >= 1 as real,
        l <= 1 as real,
    ensures
        arg <= 6 as real * hh,
{
}

/// A root is not larger than what it is taken of, or than one.
#[verifier::spinoff_prover]
proof fn lemma_root_bound(root: real, a: real, top: real)
    requires
        root >= 0 as real,
        a >= 0 as real,
        near(root * root, a, 3 as real * (grain() * a)),
        a <= top,
        1 as real <= top,
    ensures
        root <= 2 as real * top,
{
    crate::value::lemma_grain_of(a);
    if root > 1 as real {
        crate::value::lemma_scaled(root, 1 as real, root);
        assert(root * 1 as real == root) by (nonlinear_arith);
    }
}

/// The longest chord that leaves a circle by no more than the tolerance: half of it, the
/// radius less the tolerance, and the radius make a right triangle. So the square of the
/// chord is four times the tolerance times what the tolerance lacks of the diameter.
pub proof fn law_chord_leaves_the_circle_by_the_tolerance(radius: Double, tolerance: Double)
    requires
        moderate(radius) && radius.value() > 0 as real,
        moderate(tolerance) && tolerance.value() > 0 as real,
        tolerance.value() < 2 as real * radius.value(),
        Double::nought().below(tolerance * (Double::of(2) * radius - tolerance)),
    ensures
        ({
            let c = chord(radius, tolerance);
            let e = tolerance.value() * (2 as real * radius.value() - tolerance.value());
            &&& c.finite()
            &&& near(
                c.value() * c.value(),
                4 as real * e,
                32 as real * (grain() * e) + 8 as real * least(),
            )
        }),
{
    crate::value::lemma_bounds();
    crate::value::lemma_one_is_positive();
    crate::value::law_zero_value();
    let zero = Double::nought();
    law_order_of_values(radius, zero);
    law_order_of_values(tolerance, zero);
    let two = Double::of(2);
    law_twice_is_exact(radius);
    let (r, t, h) = (radius.value(), tolerance.value(), crate::value::large());
    let d = 2 as real * r - t;
    crate::value::law_difference_is_finite(two * radius, tolerance);
    law_difference_is_near(two * radius, tolerance);
    let diff = two * radius - tolerance;
    let (dv, g, l) = (diff.value(), grain(), least());
    let gd = g * d;
    crate::value::lemma_grain_of(d);
    let hh = h * h;
    assert(1000 as real * h * h == 1000 as real * hh) by (nonlinear_arith)
        requires
            hh == h * h,
    ;
    assert(-(4 as real * h) <= dv <= 4 as real * h) by (nonlinear_arith)
        requires
            near(dv, d, gd),
            gd * 9007199254740992 as real == d,
            0 as real <= d <= 2 as real * h,
    ;
    let h4 = 4 as real * h;
    crate::value::lemma_product_bound(t, dv, h, h4);
    assert(h * h4 == 4 as real * hh) by (nonlinear_arith)
        requires
            h4 == 4 as real * h,
            hh == h * h,
    ;
    crate::value::lemma_scaled(h, 1 as real, h);
    assert(l <= 1 as real) by {
        crate::value::lemma_grain_of(1 as real);
        assert(g * 1 as real == g) by (nonlinear_arith);
        crate::value::lemma_grain_of(g);
        crate::value::lemma_grain_of(g * g);
        assert(g * g * g == g * (g * g)) by (nonlinear_arith);
    }
    crate::value::law_product_is_finite(tolerance, diff);
    law_product_is_near(tolerance, diff);
    let arg = tolerance * diff;
    law_order_of_values(zero, arg);
    law_order_of_values(arg, zero);
    crate::value::law_root_is_near(arg);
    let root = arg.root();
    // the error of the difference, times the tolerance
    let e = t * d;
    let td = t * dv;
    let ge = g * e;
    crate::value::lemma_times(t, d);
    let off = dv - d;
    crate::value::lemma_product_bound(t, off, t, gd);
    assert(t * off == td - e) by (nonlinear_arith)
        requires
            off == dv - d,
            td == t * dv,
            e == t * d,
    ;
    assert(t * gd == ge) by (nonlinear_arith)
        requires
            gd == g * d,
            ge == g * e,
            e == t * d,
    ;
    let av = arg.value();
    crate::value::lemma_grain_of(e);
    crate::value::lemma_grain_of(absolute(td));
    crate::value::lemma_grain_of(av);
    assert(3 as real * g * av == 3 as real * (g * av)) by (nonlinear_arith);
    let rv = root.value();
    let rho = rv * rv;
    lemma_argument_bound(av, td, g * absolute(td), l, hh);
    lemma_root_bound(rv, av, 6 as real * hh);
    law_twice_is_exact(root);
    let cv = (two * root).value();
    assert(cv * cv == 4 as real * rho) by (nonlinear_arith)
        requires
            cv == 2 as real * rv,
            rho == rv * rv,
    ;
    lemma_chord_linear(cv * cv, rho, av, td, e, ge, g * absolute(td), g * av, l);
}

} // verus!
