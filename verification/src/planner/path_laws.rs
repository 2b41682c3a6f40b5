//! What holds of corners, and of the paths that arcs are cut into.
use vstd::prelude::*;
use crate::double::Double;
use crate::double::lemma_round_zero;
use crate::double::lemma_units_zero;
use crate::order::law_one_is_one;
use crate::order::law_quotient_is_not_negative;
use crate::order::law_small_integers_are_exact;
use crate::order::law_small_integers_are_positive;
use crate::order::law_product_commutes;
use crate::order::law_zero_changes_nothing;
use crate::order::law_zero_divided;
use crate::order::law_zero_times_anything;
use crate::rounding::lemma_round_monotone;
use crate::rounding::magnitude_units;
use super::Plan;
use super::arc::ArcParams;
use super::arc::joint;
use super::arc_points;
use super::laws::law_planning_keeps_the_entries;
use super::laws::same_but_speeds;
use super::limits::MachineLimits;
use super::position::Position;
use super::queue::QueueEntry;
use super::queue::corner_speed_sqr;
use super::queue::nearly_one;
use super::trigonometry::Trigonometry;

verus! {

// ---- the ends of the corner formula ----

/// How much of one direction is in another.
pub open spec fn dot(a: Seq<Double>, b: Seq<Double>) -> Double {
    a[0] * b[0] + a[1] * b[1] + a[2] * b[2]
}

/// Where the path goes straight on, the corner sets no bound.
pub proof fn law_straight_on_is_unbounded(
    prev_unit: Seq<Double>,
    curr_unit: Seq<Double>,
    accel: Double,
    junction_deviation: Double,
)
    requires
        nearly_one().below(dot(prev_unit, curr_unit)),
    ensures
        corner_speed_sqr(prev_unit, curr_unit, accel, junction_deviation) == Double::unbounded(),
{
}

/// Where the path reverses, the machine stops, unless the acceleration and the deviation
/// are beyond all bounds.
pub proof fn law_reversal_is_a_stop(
    prev_unit: Seq<Double>,
    curr_unit: Seq<Double>,
    accel: Double,
    junction_deviation: Double,
)
    requires
        dot(prev_unit, curr_unit) == Double::of(1).opposite(),
        (accel * junction_deviation).finite(),
    ensures
        corner_speed_sqr(prev_unit, curr_unit, accel, junction_deviation).zero(),
{
    let one = Double::of(1);
    let zero = Double::nought();
    let half = one / Double::of(2);
    law_one_is_one();
    law_small_integers_are_positive(999_999);
    law_small_integers_are_positive(1_000_000);
    law_quotient_is_not_negative(Double::of(999_999), Double::of(1_000_000));
    assert(one - one == zero) by {
        reveal(crate::double::sum);
    }
    assert(!half.nan() && half.finite()) by {
        reveal(crate::double::ratio);
        law_small_integers_are_exact(2);
        crate::order::lemma_half();
    }
    assert((half * zero).zero()) by {
        reveal(crate::double::product);
        lemma_units_zero(0);
        let m = magnitude_units(half.magnitude());
        assert(m * 0 == 0);
        vstd::arithmetic::power2::lemma_pow2_pos(1074);
        lemma_round_zero(vstd::arithmetic::power2::pow2(1074));
    }
    let clamped = (half * zero).greater(zero);
    assert(clamped.zero());
    assert(clamped.root() == clamped) by {
        reveal(crate::double::square_root);
    }
    assert(one.opposite().opposite() == one);
    assert((one - clamped).same(one)) by {
        reveal(crate::double::sum);
        lemma_units_zero(0);
        law_zero_changes_nothing(one);
    }
    let lead = accel * junction_deviation;
    law_zero_times_anything(clamped, lead);
    law_product_commutes(clamped, lead);
    law_zero_divided(lead * clamped, one - clamped);
}

// ---- paths ----

/// A path for which there is room becomes one block for each of its legs, in order,
/// behind what was there before.
pub proof fn law_path_is_followed<C>(
    plan: Plan<C>,
    capacity: usize,
    limits: MachineLimits<3>,
    points: Seq<Position>,
    feed_rate: Double,
    is_rapid: bool,
)
    requires
        points.len() > 0,
        plan.with_path(capacity, limits, points, feed_rate, is_rapid).1,
    ensures
        ({
            let after = plan.with_path(capacity, limits, points, feed_rate, is_rapid).0;
            let n = plan.entries.len() as int;
            &&& after.entries.len() == n + points.len() - 1
            &&& forall|i: int|
                0 <= i < n ==> same_but_speeds(#[trigger] after.entries[i], plan.entries[i])
            &&& forall|k: int|
                n <= k < after.entries.len() ==> (#[trigger] after.entries[k] matches
                    QueueEntry::Block(block) && block.start == points[k - n] && block.target
                    == points[k - n + 1])
        }),
    decreases points.len(),
{
    if points.len() > 1 {
        let shorter = points.drop_last();
        law_path_is_followed(plan, capacity, limits, shorter, feed_rate, is_rapid);
        let before = plan.with_path(capacity, limits, shorter, feed_rate, is_rapid).0;
        let after = plan.with_path(capacity, limits, points, feed_rate, is_rapid).0;
        let n = plan.entries.len() as int;
        let from = points[points.len() - 2];
        let to = points[points.len() - 1];
        let block = super::block::Block::of_move(
            from,
            to,
            feed_rate,
            is_rapid,
            limits,
            before.last_unit_vector,
        );
        let entries = before.entries.push(QueueEntry::Block(block));
        law_planning_keeps_the_entries(entries, before.carry_over);
        assert(after.entries == super::queue::replanned(entries, before.carry_over));
        assert forall|i: int| 0 <= i < n implies same_but_speeds(
            #[trigger] after.entries[i],
            plan.entries[i],
        ) by {
            assert(same_but_speeds(after.entries[i], entries[i]));
            assert(same_but_speeds(before.entries[i], plan.entries[i]));
        }
        assert forall|k: int| n <= k < after.entries.len() implies (#[trigger] after.entries[k] matches
            QueueEntry::Block(b) && b.start == points[k - n] && b.target == points[k - n + 1]) by {
            assert(same_but_speeds(after.entries[k], entries[k]));
            if k < before.entries.len() {
                assert(before.entries[k] matches QueueEntry::Block(b) && b.start == shorter[k - n]
                    && b.target == shorter[k - n + 1]);
            }
        }
    }
}

// ---- arcs ----

/// A finite number that is not zero goes into itself once.
proof fn lemma_quotient_of_itself(a: Double)
    requires
        a.finite(),
        !a.zero(),
    ensures
        a / a == Double::of(1),
{
    reveal(crate::double::ratio);
    reveal(crate::double::of_integer);
    let u = magnitude_units(a.magnitude());
    lemma_units_zero(a.magnitude());
    let one = vstd::arithmetic::power2::pow2(1074);
    assert((u * one) * 1 == (1 * one) * u) by (nonlinear_arith);
    lemma_round_monotone(u * one, u, 1 * one, 1);
    lemma_round_monotone(1 * one, 1, u * one, u);
}

/// An arc is cut into at least two segments. The first one starts at the start of the
/// arc, and the last one ends at its end: at the whole of the way along it.
pub proof fn law_segments_span_the_arc<A, C, S>(
    start: Position,
    target: Position,
    center: Position,
    clockwise: bool,
    tolerance: Double,
    trigonometry: Trigonometry<A, C, S>,
) where
    A: Fn(Double, Double) -> Double,
    C: Fn(Double) -> Double,
    S: Fn(Double) -> Double,

    ensures
        ({
            let points = arc_points(start, target, center, clockwise, tolerance, trigonometry);
            let params = ArcParams::of_arc(start, target, center, clockwise, trigonometry);
            &&& points.len() >= 3
            &&& points.first() == start
            &&& points.last() == params.point_along(Double::of(1), trigonometry)
        }),
{
    let params = ArcParams::of_arc(start, target, center, clockwise, trigonometry);
    let count = super::arc::pieces(params, tolerance) as nat;
    let whole = Double::of(count);
    assert(whole.finite() && !whole.zero()) by {
        crate::order::lemma_count_is_positive(count);
    }
    lemma_quotient_of_itself(whole);
    let points = arc_points(start, target, center, clockwise, tolerance, trigonometry);
    assert(points.last() == joint(params, start, count, count, trigonometry));
}

} // verus!
