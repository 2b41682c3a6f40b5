//! What the speed and the acceleration of a block have to do with the limits of the axes
//! and the feed rate.
use vstd::prelude::*;
use crate::double::Double;
use crate::value::absolute;
use crate::value::grain;
use crate::value::law_integer_value;
use crate::value::law_opposite_value;
use crate::value::law_order_of_values;
use crate::value::law_quotient_is_finite;
use crate::value::law_quotient_times_divisor;
use crate::value::law_zero_value;
use crate::value::least;
use crate::value::lemma_bounds;
use crate::value::lemma_grain_of;
use crate::value::lemma_one_is_positive;
use crate::value::lemma_scaled;
use crate::value::moderate;
use crate::value::near;
use crate::value::vast;
use super::block::Block;
use super::block::direction_between;
use super::geometry_laws::lemma_least_share;
use super::limits::AxisLimits;
use super::limits::MachineLimits;
use super::limits::least_share;
use super::limits::limits_along;
use super::position::Position;

verus! {

/// An axis has a share in a direction.
pub open spec fn takes_part(direction: Seq<Double>, i: int) -> bool {
    least_share().below(direction[i].size())
}

/// One number is the limit of the `i`-th axis: times the share of the axis it is what the
/// axis can do.
pub open spec fn is_limit_of(limit: Double, direction: Seq<Double>, i: int, can_do: Double) -> bool {
    let share = absolute(direction[i].value());
    near(
        limit.value() * share,
        can_do.value(),
        grain() * absolute(can_do.value()) + least() * share,
    )
}

/// What each axis can do is a number that a machine can have, and so is its share.
pub open spec fn realistic(axes: Seq<AxisLimits>, direction: Seq<Double>) -> bool {
    forall|i: int|
        0 <= i < axes.len() ==> {
            &&& moderate((#[trigger] axes[i]).max_velocity)
            &&& moderate(axes[i].max_acceleration)
            &&& direction[i].finite()
        }
}

/// The limit of an axis, divided by its share, times the share.
#[verifier::spinoff_prover]
proof fn lemma_shared_limit(can_do: Double, share: Double)
    requires
        moderate(can_do),
        share.finite(),
        least_share().below(share),
    ensures
        (can_do / share).finite(),
        near(
            (can_do / share).value() * share.value(),
            can_do.value(),
            grain() * absolute(can_do.value()) + least() * share.value(),
        ),
{
    lemma_bounds();
    lemma_one_is_positive();
    lemma_least_share();
    law_order_of_values(least_share(), share);
    law_order_of_values(share, share);
    lemma_room(share.value());
    law_quotient_is_finite(can_do, share);
    law_quotient_times_divisor(can_do, share);
}

/// What is divided by a share that counts does not overflow.
#[verifier::spinoff_prover]
proof fn lemma_room(share: real)
    requires
        share >= 1000 as real * grain(),
    ensures
        crate::value::large() <= vast() * share,
{
    lemma_bounds();
    lemma_one_is_positive();
    let (g, h, f) = (grain(), crate::value::large(), vast());
    lemma_scaled(f, 1000 as real * g, share);
    let hg = h * g;
    lemma_large_grain();
    lemma_scaled(h, 1 as real, hg);
    assert(h * 1 as real == h) by (nonlinear_arith);
    let hh = h * h;
    assert(1000 as real * h * h == 1000 as real * hh) by (nonlinear_arith)
        requires
            hh == h * h,
    ;
    lemma_scaled(g, 1000 as real * hh, f);
    let gf = g * f;
    assert(g * (1000 as real * hh) == 1000 as real * (h * hg)) by (nonlinear_arith)
        requires
            hg == h * g,
            hh == h * h,
    ;
    assert(f * (1000 as real * g) == 1000 as real * gf) by (nonlinear_arith)
        requires
            gf == g * f,
    ;
}

/// A grain of what is large is still more than one.
#[verifier::spinoff_prover]
proof fn lemma_large_grain()
    ensures
        crate::value::large() * grain() >= 1 as real,
{
    lemma_one_is_positive();
    crate::rounding::lemma_pow2_wide();
    crate::rounding::lemma_pow2_ordered(53, 400);
    let (g, h) = (grain(), crate::value::large());
    lemma_scaled(g, 9007199254740992 as real, h);
    assert(g * h == h * g) by (nonlinear_arith);
}

/// The speed along a direction is that of the axis that is the tightest: there is an axis
/// with a share in the direction that has to do exactly what it can, unless no axis has a
/// share; and so it is with the acceleration.
pub proof fn law_some_axis_does_all_it_can(axes: Seq<AxisLimits>, direction: Seq<Double>)
    requires
        realistic(axes, direction),
    ensures
        ({
            let (velocity, acceleration) = limits_along(axes, direction);
            &&& (velocity == Double::unbounded() && acceleration == Double::unbounded() && forall|
                i: int,
            |
                0 <= i < axes.len() ==> !(#[trigger] takes_part(direction, i))) || ({
                &&& velocity.finite() && acceleration.finite()
                &&& exists|i: int|
                    0 <= i < axes.len() && #[trigger] takes_part(direction, i) && is_limit_of(
                        velocity,
                        direction,
                        i,
                        axes[i].max_velocity,
                    )
                &&& exists|i: int|
                    0 <= i < axes.len() && #[trigger] takes_part(direction, i) && is_limit_of(
                        acceleration,
                        direction,
                        i,
                        axes[i].max_acceleration,
                    )
            })
        }),
    decreases axes.len(),
{
    if axes.len() > 0 {
        let before = axes.drop_last();
        let n = axes.len() - 1;
        assert(realistic(before, direction)) by {
            assert forall|i: int| 0 <= i < before.len() implies {
                &&& moderate((#[trigger] before[i]).max_velocity)
                &&& moderate(before[i].max_acceleration)
                &&& direction[i].finite()
            } by {
                assert(before[i] == axes[i]);
            }
        }
        law_some_axis_does_all_it_can(before, direction);
        let axis = axes[n];
        let share = direction[n].size();
        law_opposite_value(direction[n]);
        let (v, a) = limits_along(before, direction);
        let (velocity, acceleration) = limits_along(axes, direction);
        if takes_part(direction, n) {
            lemma_shared_limit(axis.max_velocity, share);
            lemma_shared_limit(axis.max_acceleration, share);
            if velocity == v {
                let i = choose|i: int|
                    0 <= i < before.len() && #[trigger] takes_part(direction, i) && is_limit_of(
                        v,
                        direction,
                        i,
                        before[i].max_velocity,
                    );
                assert(v.finite());
                assert(before[i] == axes[i]);
                assert(takes_part(direction, i));
            } else {
                assert(is_limit_of(velocity, direction, n, axes[n].max_velocity));
            }
            if acceleration == a {
                let i = choose|i: int|
                    0 <= i < before.len() && #[trigger] takes_part(direction, i) && is_limit_of(
                        a,
                        direction,
                        i,
                        before[i].max_acceleration,
                    );
                assert(a.finite());
                assert(before[i] == axes[i]);
                assert(takes_part(direction, i));
            } else {
                assert(is_limit_of(acceleration, direction, n, axes[n].max_acceleration));
            }
        } else if v.finite() {
            let i = choose|i: int|
                0 <= i < before.len() && #[trigger] takes_part(direction, i) && is_limit_of(
                    v,
                    direction,
                    i,
                    before[i].max_velocity,
                );
            assert(before[i] == axes[i]);
            let j = choose|i: int|
                0 <= i < before.len() && #[trigger] takes_part(direction, i) && is_limit_of(
                    a,
                    direction,
                    i,
                    before[i].max_acceleration,
                );
            assert(before[j] == axes[j]);
        }
    }
}

/// No axis has to do more than it can: the speed along the direction, times the share of
/// the axis, is at most what the axis can do, and so it is with the acceleration.
pub proof fn law_no_axis_does_more_than_it_can(axes: Seq<AxisLimits>, direction: Seq<Double>, i: int)
    requires
        realistic(axes, direction),
        0 <= i < axes.len(),
        takes_part(direction, i),
    ensures
        ({
            let (velocity, acceleration) = limits_along(axes, direction);
            let share = absolute(direction[i].value());
            let (v, a) = (axes[i].max_velocity.value(), axes[i].max_acceleration.value());
            &&& velocity.finite() && acceleration.finite()
            &&& velocity.value() * share <= v + (grain() * absolute(v) + least() * share)
            &&& acceleration.value() * share <= a + (grain() * absolute(a) + least() * share)
        }),
{
    law_some_axis_does_all_it_can(axes, direction);
    super::laws::law_no_axis_is_overrun(axes, direction, i);
    let (velocity, acceleration) = limits_along(axes, direction);
    let share = direction[i].size();
    law_opposite_value(direction[i]);
    lemma_shared_limit(axes[i].max_velocity, share);
    lemma_shared_limit(axes[i].max_acceleration, share);
    let (p, q) = (axes[i].max_velocity / share, axes[i].max_acceleration / share);
    law_order_of_values(velocity, p);
    law_order_of_values(acceleration, q);
    lemma_least_share();
    lemma_one_is_positive();
    law_order_of_values(least_share(), share);
    let s = share.value();
    lemma_scaled(s, velocity.value(), p.value());
    lemma_scaled(s, acceleration.value(), q.value());
    let (x, y, z, w) = (velocity.value(), acceleration.value(), p.value(), q.value());
    assert(s * x == x * s && s * y == y * s && s * z == z * s && s * w == w * s)
        by (nonlinear_arith);
}

/// The lesser one of two real numbers.
pub open spec fn lesser_of(a: real, b: real) -> real {
    if a < b {
        a
    } else {
        b
    }
}

proof fn lemma_lesser_near(n: real, p: real, q: real, f: real, v: real, gf: real, gv: real, l: real)
    by (nonlinear_arith)
    requires
        near(p * 60 as real, f, gf + l * 60 as real),
        near(q * 60 as real, v, gv + l * 60 as real),
        n == lesser_of(p, q),
        gf >= 0 as real,
        gv >= 0 as real,
        l >= 0 as real,
    ensures
        near(n * 60 as real, lesser_of(f, v), gf + gv + 60 as real * l),
{
}

/// A minute is sixty seconds: a rapid move goes at the speed that the axes allow, any other
/// one at the feed rate, but no faster; a feed rate below one counts as one. The limits of
/// the axes and the feed rate are given per minute, the speed of the block per second.
pub proof fn law_speed_is_the_feed_rate_or_what_the_axes_allow(
    start: Position,
    target: Position,
    feed_rate: Double,
    is_rapid: bool,
    limits: MachineLimits<3>,
    prev_unit_vector: Option<[Double; 3]>,
)
    requires
        moderate(feed_rate),
        limits_along(limits.axes@, direction_between(start, target)@).0.finite(),
    ensures
        ({
            let block = Block::of_move(
                start,
                target,
                feed_rate,
                is_rapid,
                limits,
                prev_unit_vector,
            );
            let v = limits_along(limits.axes@, direction_between(start, target)@).0.value();
            let f = if feed_rate.value() < 1 as real {
                1 as real
            } else {
                feed_rate.value()
            };
            let speed = block.nominal_speed.value() * 60 as real;
            &&& block.nominal_speed.finite()
            &&& is_rapid ==> near(speed, v, grain() * absolute(v) + 60 as real * least())
            &&& !is_rapid ==> near(
                speed,
                lesser_of(f, v),
                grain() * f + grain() * absolute(v) + 60 as real * least(),
            )
        }),
{
    lemma_bounds();
    lemma_one_is_positive();
    law_integer_value(1);
    law_integer_value(60);
    let minute = Double::of(60);
    law_order_of_values(minute, minute);
    let velocity = limits_along(limits.axes@, direction_between(start, target)@).0;
    let v = velocity.value();
    let fed = feed_rate.greater(Double::of(1));
    law_order_of_values(feed_rate, Double::of(1));
    law_order_of_values(Double::of(1), feed_rate);
    lemma_minute(velocity);
    lemma_minute(fed);
    let l = least();
    assert(l * 60 as real == 60 as real * l) by (nonlinear_arith);
    if !is_rapid {
        let (p, q) = (fed / minute, velocity / minute);
        law_order_of_values(p, q);
        law_order_of_values(q, p);
        let f = fed.value();
        lemma_grain_of(f);
        lemma_grain_of(absolute(v));
        lemma_lesser_near(
            p.lesser(q).value(),
            p.value(),
            q.value(),
            f,
            v,
            grain() * f,
            grain() * absolute(v),
            l,
        );
    }
}

/// A number per minute as a number per second.
#[verifier::spinoff_prover]
proof fn lemma_minute(a: Double)
    requires
        a.finite(),
    ensures
        (a / Double::of(60)).finite(),
        near(
            (a / Double::of(60)).value() * 60 as real,
            a.value(),
            grain() * absolute(a.value()) + least() * 60 as real,
        ),
{
    law_integer_value(60);
    let minute = Double::of(60);
    law_order_of_values(minute, minute);
    crate::value::law_quotient_by_more_than_one_is_finite(a, minute);
    law_quotient_times_divisor(a, minute);
}

} // verus!
