//! What holds of arcs: the plane they lie in, where they end, how far they turn and how
//! finely they are cut.
use vstd::prelude::*;
use vstd::arithmetic::power2::lemma_pow2_pos;
use vstd::arithmetic::power2::lemma_pow2_unfold;
use vstd::arithmetic::power2::pow2;
use crate::double::Double;
use crate::double::FULL_TURN;
use crate::order::exact_difference;
use crate::order::law_difference_goes_back;
use crate::order::law_difference_is_positive;
use crate::order::law_product_commutes;
use crate::order::law_quotient_is_not_negative;
use crate::order::law_rounded_up_is_not_less;
use crate::order::law_rounded_up_no_further;
use crate::order::law_small_integers_are_exact;
use crate::order::law_small_integers_are_positive;
use crate::order::law_sum_commutes;
use crate::order::law_sum_keeps_order;
use crate::order::law_times_one;
use crate::order::law_zero_changes_nothing;
use crate::order::law_zero_times_anything;
use crate::order::lemma_representable;
use crate::rounding::BINADE;
use crate::rounding::SIGNIFICAND_BOUND;
use crate::rounding::lemma_round_exact;
use crate::rounding::lemma_round_monotone;
use crate::rounding::lemma_units_monotone;
use crate::rounding::magnitude_units;
use super::arc::ArcParams;
use super::arc::Plane;
use super::arc::across;
use super::arc::chords_in;
use super::arc::level;
use super::arc::longest_chord;
use super::arc::misfit;
use super::arc::onward;
use super::arc::pieces;
use super::arc::plane_of;
use super::arc::reach;
use super::arc::slack;
use super::arc::speck;
use super::arc::spoke;
use super::arc::sweep_between;
use super::arc::within;
use super::position::Position;

verus! {

// ---- the plane ----

/// Of all planes that the start allows, an arc lies in one in which its ends are as good
/// as equally far from the center, if there is one; else in one in which they are most
/// nearly so.
pub proof fn law_plane_fits_both_ends(
    start: Position,
    target: Position,
    center: Position,
    plane: Plane,
)
    requires
        level(start, center, plane),
        forall|p: Plane| !(#[trigger] misfit(start, target, center, p)).nan(),
    ensures
        level(start, center, plane_of(start, target, center)),
        ({
            let found = misfit(start, target, center, plane_of(start, target, center));
            found.at_most(slack()) || found.at_most(misfit(start, target, center, plane))
        }),
{
    assert(!misfit(start, target, center, Plane::Xy).nan());
    assert(!misfit(start, target, center, Plane::Yz).nan());
    assert(!misfit(start, target, center, Plane::Zx).nan());
    assert(!slack().nan()) by {
        law_small_integers_are_positive(1);
        law_small_integers_are_positive(1000);
        law_quotient_is_not_negative(Double::of(1), Double::of(1000));
    }
}

/// Where the center is closer to the start on one axis than on both others, that axis is
/// the one that is perpendicular to the plane of the arc.
pub proof fn law_closest_axis_is_perpendicular(
    start: Position,
    target: Position,
    center: Position,
    plane: Plane,
)
    requires
        level(start, center, plane),
        forall|p: Plane| p != plane ==> !(#[trigger] level(start, center, p)),
    ensures
        plane_of(start, target, center) == plane,
{
    assert(Plane::Xy != plane ==> !level(start, center, Plane::Xy));
    assert(Plane::Yz != plane ==> !level(start, center, Plane::Yz));
    assert(Plane::Zx != plane ==> !level(start, center, Plane::Zx));
}

// ---- the ends ----

/// The same position.
pub open spec fn same_place(a: Position, b: Position) -> bool {
    a.x.same(b.x) && a.y.same(b.y) && a.z.same(b.z)
}

/// The whole of the way along an arc is its target: where the cosine and the sine there
/// are those of the direction from the center to the target, and no difference of
/// coordinates was rounded.
pub proof fn law_arc_ends_at_its_target(
    start: Position,
    target: Position,
    center: Position,
    clockwise: bool,
    angle0: Double,
    angle1: Double,
    cos: Double,
    sin: Double,
)
    requires
        ({
            let plane = plane_of(start, target, center);
            let radius = reach(start, center, plane);
            let (u, v) = within(target, plane);
            let (cu, cv) = within(center, plane);
            &&& (radius * cos, radius * sin) == spoke(target, center, plane)
            &&& exact_difference(u, cu)
            &&& exact_difference(v, cv)
            &&& exact_difference(across(target, plane), across(start, plane))
        }),
    ensures
        same_place(
            ArcParams::between(start, target, center, clockwise, angle0, angle1).point(
                Double::of(1),
                cos,
                sin,
            ),
            target,
        ),
{
    let plane = plane_of(start, target, center);
    let (u, v) = within(target, plane);
    let (cu, cv) = within(center, plane);
    let (l0, l1) = (across(start, plane), across(target, plane));
    law_difference_goes_back(u, cu);
    law_difference_goes_back(v, cv);
    law_difference_goes_back(l1, l0);
    law_times_one(l1 - l0);
}

/// None of the way along an arc is its start, in the same sense.
pub proof fn law_arc_starts_at_its_start(
    start: Position,
    target: Position,
    center: Position,
    clockwise: bool,
    angle0: Double,
    angle1: Double,
    cos: Double,
    sin: Double,
)
    requires
        ({
            let plane = plane_of(start, target, center);
            let radius = reach(start, center, plane);
            let (u, v) = within(start, plane);
            let (cu, cv) = within(center, plane);
            &&& (radius * cos, radius * sin) == spoke(start, center, plane)
            &&& exact_difference(u, cu)
            &&& exact_difference(v, cv)
            &&& across(start, plane).finite()
            &&& (across(target, plane) - across(start, plane)).finite()
        }),
    ensures
        same_place(
            ArcParams::between(start, target, center, clockwise, angle0, angle1).point(
                Double::nought(),
                cos,
                sin,
            ),
            start,
        ),
{
    let plane = plane_of(start, target, center);
    let (u, v) = within(start, plane);
    let (cu, cv) = within(center, plane);
    let (l0, l1) = (across(start, plane), across(target, plane));
    law_difference_goes_back(u, cu);
    law_difference_goes_back(v, cv);
    let nothing = (l1 - l0) * Double::nought();
    law_product_commutes(l1 - l0, Double::nought());
    law_zero_times_anything(Double::nought(), l1 - l0);
    assert((l0 + nothing).same(l0)) by {
        law_zero_changes_nothing(l0);
        reveal(crate::double::sum);
        crate::double::lemma_units_zero(0);
    }
}

// ---- the turn ----

/// Half a turn, in radians.
pub open spec fn half_turn() -> Double {
    Double { bits: (FULL_TURN - BINADE) as u64 }
}

/// An angle as an arc tangent gives it: within half a turn to either side.
pub open spec fn within_half_a_turn(angle: Double) -> bool {
    half_turn().opposite().at_most(angle) && angle.at_most(half_turn())
}

proof fn lemma_half_turns()
    ensures
        half_turn().finite(),
        Double::full_turn().finite(),
        half_turn() + half_turn() == Double::full_turn(),
        half_turn().opposite() + half_turn().opposite() == Double::full_turn().opposite(),
        Double::full_turn().opposite() + Double::full_turn() == Double::nought(),
        Double::nought().below(Double::full_turn()),
{
    reveal(crate::double::sum);
    let h = half_turn().magnitude();
    let f = Double::full_turn().magnitude();
    lemma_pow2_unfold(1024);
    assert(crate::rounding::magnitude_exponent(h) == 1023);
    assert(crate::rounding::magnitude_exponent(f) == 1024);
    assert(crate::rounding::magnitude_significand(h) == crate::rounding::magnitude_significand(f));
    let m = crate::rounding::magnitude_significand(h);
    assert(m * (2 * pow2(1023)) == 2 * (m * pow2(1023))) by (nonlinear_arith);
    assert(magnitude_units(f) == 2 * magnitude_units(h));
    lemma_round_exact(f, 1);
    assert(magnitude_units(f) * 1 == magnitude_units(f));
    crate::double::lemma_units_zero(f);
}

pub(crate) proof fn lemma_angle_difference(a: Double, b: Double)
    requires
        within_half_a_turn(a),
        within_half_a_turn(b),
    ensures
        Double::full_turn().opposite().at_most(a - b),
        (a - b).at_most(Double::full_turn()),
{
    lemma_half_turns();
    let h = half_turn();
    let c = b.opposite();
    assert(h.opposite().at_most(c) && c.at_most(h));
    assert(!(a + c).nan() && !(h + c).nan() && !(h + h).nan() && !(h.opposite() + c).nan()
        && !(c + h).nan() && !(c + h.opposite()).nan() && !(h.opposite() + h.opposite()).nan())
        by {
        reveal(crate::double::sum);
    }
    law_sum_keeps_order(a, h, c);
    law_sum_commutes(h, c);
    law_sum_keeps_order(c, h, h);
    law_sum_keeps_order(h.opposite(), a, c);
    law_sum_commutes(h.opposite(), c);
    law_sum_keeps_order(h.opposite(), c, h.opposite());
}

proof fn lemma_onward(d: Double)
    requires
        Double::full_turn().opposite().at_most(d),
        d.at_most(Double::full_turn()),
    ensures
        Double::nought().at_most(onward(d)),
        onward(d).at_most(Double::full_turn()),
        Double::full_turn().opposite().below(d) ==> Double::nought().below(onward(d)),
{
    lemma_half_turns();
    let full = Double::full_turn();
    let zero = Double::nought();
    if d.at_most(zero) {
        assert(!(d + full).nan() && !(zero + full).nan()) by {
            reveal(crate::double::sum);
        }
        law_sum_keeps_order(full.opposite(), d, full);
        law_sum_keeps_order(d, zero, full);
        law_sum_commutes(zero, full);
        law_zero_changes_nothing(full);
        if full.opposite().below(d) {
            law_difference_is_positive(full, d.opposite());
            assert(d.opposite().opposite() == d);
            law_sum_commutes(full, d);
        }
    }
}

/// A turn goes the way that it is told and is a whole one at most; a full circle is a
/// whole one. It is none at all only where the angles themselves, half a turn to the one
/// side and half a turn to the other, are a whole one apart the wrong way.
pub proof fn law_sweep_is_at_most_a_turn(angle0: Double, angle1: Double, clockwise: bool)
    requires
        within_half_a_turn(angle0),
        within_half_a_turn(angle1),
    ensures
        ({
            let sweep = sweep_between(angle0, angle1, false, clockwise);
            let apart = if clockwise {
                angle0 - angle1
            } else {
                angle1 - angle0
            };
            &&& sweep.size().at_most(Double::full_turn())
            &&& clockwise ==> sweep.at_most(Double::nought())
            &&& !clockwise ==> Double::nought().at_most(sweep)
            &&& !apart.same(Double::full_turn().opposite()) ==> !sweep.zero()
        }),
        sweep_between(angle0, angle1, true, clockwise).size() == Double::full_turn(),
        sweep_between(angle0, angle1, true, clockwise).negative() == clockwise,
{
    lemma_angle_difference(angle0, angle1);
    lemma_angle_difference(angle1, angle0);
    let apart = if clockwise {
        angle0 - angle1
    } else {
        angle1 - angle0
    };
    lemma_onward(apart);
    lemma_half_turns();
}

/// What is left of a whole turn, added back to what was taken away.
proof fn lemma_rest_of_a_turn(d: Double)
    requires
        Double::nought().below(d),
        d.at_most(Double::full_turn()),
    ensures
        -1 <= (d + (d.opposite() + Double::full_turn())).rank() - Double::full_turn().rank() <= 1,
{
    reveal(crate::double::sum);
    lemma_half_turns();
    let f = Double::full_turn().magnitude();
    let m = crate::rounding::magnitude_significand(f);
    let g = pow2(1024);
    assert(crate::rounding::magnitude_exponent(f) == 1024);
    assert(BINADE < m < SIGNIFICAND_BOUND - 1);
    lemma_pow2_pos(1024);
    let turn = magnitude_units(f);
    let u = magnitude_units(d.magnitude());
    if d.magnitude() < f {
        lemma_units_monotone(d.magnitude(), f);
    }
    crate::double::lemma_units_zero(d.magnitude());
    // the rest is rounded by no more than the step of a whole turn
    let s = (turn - u) as nat;
    let rest = d.opposite() + Double::full_turn();
    assert(rest.finite() && !rest.negative() && s - g <= rest.units() <= s + g) by {
        crate::double::lemma_units_zero(0);
        let q = s / g;
        vstd::arithmetic::div_mod::lemma_fundamental_div_mod(s as int, g as int);
        assert(q < m) by (nonlinear_arith)
            requires
                s == g * q + s % g,
                0 <= s % g,
                s < m * g,
                g > 0,
        ;
        assert(q * g <= s <= (q + 1) * g && (q + 1) * g == q * g + g) by (nonlinear_arith)
            requires
                s == g * q + s % g,
                0 <= s % g < g,
        ;
        let lo = lemma_representable(q, 1024);
        let hi = lemma_representable(q + 1, 1024);
        lemma_round_exact(lo, 1);
        lemma_round_exact(hi, 1);
        assert(magnitude_units(lo) * 1 == magnitude_units(lo));
        assert(magnitude_units(hi) * 1 == magnitude_units(hi));
        lemma_round_monotone(q * g, 1, s, 1);
        lemma_round_monotone(s, 1, (q + 1) * g, 1);
        let r = crate::rounding::round_to_magnitude(s, 1);
        if lo < r {
            lemma_units_monotone(lo, r);
        }
        if r < hi {
            lemma_units_monotone(r, hi);
        }
    }
    // and so is the sum, which lies between the neighbors of a whole turn
    let t = (u + rest.units()) as nat;
    let less = (f - 1) as nat;
    assert(crate::rounding::magnitude_exponent(less) == 1024);
    assert(crate::rounding::magnitude_exponent(f + 1) == 1024);
    assert((m - 1) * g == m * g - g && (m + 1) * g == m * g + g) by (nonlinear_arith);
    assert(magnitude_units(less) == turn - g);
    assert(magnitude_units(f + 1) == turn + g);
    lemma_round_exact(less, 1);
    lemma_round_exact(f + 1, 1);
    assert(magnitude_units(less) * 1 == magnitude_units(less));
    assert(magnitude_units(f + 1) * 1 == magnitude_units(f + 1));
    lemma_round_monotone(magnitude_units(less), 1, t, 1);
    lemma_round_monotone(t, 1, magnitude_units(f + 1), 1);
}

/// Between two angles, the way round to the one side and the way round to the other make
/// up one whole turn, up to rounding: what they come to is a whole turn or one of the two
/// doubles next to it.
pub proof fn law_both_ways_round_make_a_turn(angle0: Double, angle1: Double)
    requires
        within_half_a_turn(angle0),
        within_half_a_turn(angle1),
        !(angle1 - angle0).zero(),
    ensures
        ({
            let one_way = sweep_between(angle0, angle1, false, false);
            let other_way = sweep_between(angle0, angle1, false, true);
            -1 <= (one_way - other_way).rank() - Double::full_turn().rank() <= 1
        }),
{
    let d = angle1 - angle0;
    lemma_angle_difference(angle0, angle1);
    lemma_angle_difference(angle1, angle0);
    lemma_half_turns();
    assert(angle0 - angle1 == d.opposite()) by {
        reveal(crate::double::sum);
    }
    let other = onward(d.opposite());
    assert(other.opposite().opposite() == other);
    if Double::nought().below(d) {
        lemma_rest_of_a_turn(d);
    } else {
        assert(d.opposite().opposite() == d);
        lemma_rest_of_a_turn(d.opposite());
        law_sum_commutes(onward(d), other);
    }
}

// ---- the segments ----

/// An arc is cut into as many segments as it takes: of the longest chords not more go
/// into it than there are segments, and where there are more than two segments, with one
/// less there would be.
pub proof fn law_segments_are_as_many_as_it_takes(params: ArcParams, tolerance: Double)
    requires
        !params.arc_length().at_most(speck()),
        chords_in(params, tolerance).finite(),
        crate::double::ceiling(chords_in(params, tolerance)) <= usize::MAX,
    ensures
        chords_in(params, tolerance).at_most(Double::of(pieces(params, tolerance) as nat)),
        2 < pieces(params, tolerance) <= SIGNIFICAND_BOUND ==> Double::of(
            (pieces(params, tolerance) - 1) as nat,
        ).below(chords_in(params, tolerance)),
{
    reveal(crate::double::count_of);
    let q = chords_in(params, tolerance);
    let n = pieces(params, tolerance) as nat;
    if q.negative() {
        law_small_integers_are_positive(2);
    } else {
        law_rounded_up_is_not_less(q, n);
        if 2 < n <= SIGNIFICAND_BOUND {
            law_rounded_up_no_further(q, (n - 1) as nat);
        }
    }
}

/// Where the number of chords was not rounded down, no segment is longer than the
/// longest chord.
pub proof fn law_segments_are_not_too_long(params: ArcParams, tolerance: Double)
    requires
        params.arc_length().finite(),
        !params.arc_length().at_most(speck()),
        longest_chord(params, tolerance).finite(),
        chords_in(params, tolerance).finite(),
        crate::double::ceiling(chords_in(params, tolerance)) <= usize::MAX,
        pieces(params, tolerance) < SIGNIFICAND_BOUND,
        magnitude_units(params.arc_length().magnitude()) * pow2(1074) <= magnitude_units(
            chords_in(params, tolerance).magnitude(),
        ) * magnitude_units(longest_chord(params, tolerance).magnitude()),
    ensures
        (params.arc_length() / Double::of(pieces(params, tolerance) as nat)).at_most(
            longest_chord(params, tolerance),
        ),
{
    reveal(crate::double::count_of);
    reveal(crate::double::ratio);
    let one = pow2(1074);
    vstd::arithmetic::power2::lemma_pow2_pos(1074);
    let length = params.arc_length();
    let longest = longest_chord(params, tolerance);
    let q = chords_in(params, tolerance);
    let n = pieces(params, tolerance) as nat;
    assert(Double::nought().at_most(speck())) by {
        law_small_integers_are_positive(1);
        law_small_integers_are_positive(1_000_000_000);
        law_quotient_is_not_negative(Double::of(1), Double::of(1_000_000_000));
    }
    let u = magnitude_units(length.magnitude());
    let c = magnitude_units(longest.magnitude());
    let w = magnitude_units(q.magnitude());
    assert(!q.negative());
    // no more than `n` chords go into the arc
    vstd::arithmetic::div_mod::lemma_fundamental_div_mod(w as int, one as int);
    assert(w <= n * one) by (nonlinear_arith)
        requires
            w == one * (w / one) + w % one,
            0 <= w % one < one,
            n >= w / one + if w % one == 0 { 0nat } else { 1 },
    ;
    assert(u <= n * c) by (nonlinear_arith)
        requires
            u * one <= w * c,
            w <= n * one,
            one > 0,
    ;
    law_small_integers_are_exact(n);
    assert(magnitude_units(Double::of(n).magnitude()) == n * one);
    assert(n * one > 0) by (nonlinear_arith)
        requires
            n >= 2,
            one > 0,
    ;
    crate::double::lemma_units_zero(Double::of(n).magnitude());
    assert((u * one) * 1 <= c * (n * one)) by (nonlinear_arith)
        requires
            u <= n * c,
            one > 0,
    ;
    lemma_round_monotone(u * one, n * one, c, 1);
    lemma_round_exact(longest.magnitude(), 1);
    assert(c * 1 == c);
}

} // verus!
