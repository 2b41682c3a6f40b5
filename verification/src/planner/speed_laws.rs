//! What the speeds of a plan have to do with accelerations and lengths: over a length `s`,
//! at an acceleration `a`, the square of the speed changes by `2 * a * s`.
use vstd::prelude::*;
use crate::double::Double;
use crate::value::absolute;
use crate::value::grain;
use crate::value::large;
use crate::value::law_integer_value;
use crate::value::law_order_of_values;
use crate::value::law_product_is_finite;
use crate::value::law_product_is_near;
use crate::value::law_sum_is_finite;
use crate::value::law_sum_is_near;
use crate::value::law_zero_value;
use crate::value::least;
use crate::value::lemma_bounds;
use crate::value::lemma_grain_of;
use crate::value::lemma_one_is_positive;
use crate::value::lemma_product_bound;
use crate::value::lemma_scaled;
use crate::value::lemma_times;
use crate::value::moderate;
use crate::value::near;
use super::block::Block;
use super::geometry_laws::lemma_least_share;
use super::laws::all_sound;
use super::laws::feasible;
use super::laws::law_machine_can_stop_in_the_newest_block;
use super::laws::law_planned_speeds_are_feasible;
use super::laws::lemma_sum_not_negative;
use super::laws::not_negative;
use super::limits::least_share;
use super::look_ahead_laws::admissible;
use super::look_ahead_laws::all_same_but_speeds;
use super::look_ahead_laws::first_entry;
use super::look_ahead_laws::law_plan_is_the_fastest;
use super::queue::QueueEntry;
use super::queue::has_block;
use super::queue::replanned;

verus! {

/// A block with an acceleration and a length that a machine can have.
pub open spec fn physical(block: Block) -> bool {
    &&& moderate(block.acceleration) && block.acceleration.value() >= 0 as real
    &&& moderate(block.distance) && block.distance.value() >= 0 as real
}

/// By how much the square of the speed can change over a block: twice the acceleration
/// times the length. Over no length at all it cannot.
pub open spec fn allowance(block: Block) -> real {
    if least_share().value() < block.distance.value() {
        2 as real * (block.acceleration.value() * block.distance.value())
    } else {
        0 as real
    }
}

/// What rounding can take from a change of the square of a speed, or add to it.
pub open spec fn haze(block: Block, speed_sqr: real) -> real {
    8 as real * (grain() * (speed_sqr + allowance(block))) + 8 as real * (least() * (
    block.distance.value() + 1 as real))
}

proof fn lemma_twice_linear(
    c: real,
    td: real,
    ed: real,
    ged: real,
    gtd: real,
    ld: real,
    l: real,
)
    by (nonlinear_arith)
    requires
        near(td, ed, ged + ld),
        near(c, td, gtd + l),
        gtd * 9007199254740992 as real == absolute(td),
        ged * 9007199254740992 as real == ed,
        ed >= 0 as real,
        l >= 0 as real,
        ld >= 0 as real,
    ensures
        near(c, ed, 3 as real * ged + 2 as real * ld + l),
{
}

/// Twice a number, times another.
#[verifier::spinoff_prover]
proof fn lemma_twice_product(a: Double, d: Double)
    requires
        moderate(a),
        moderate(d),
        a.value() >= 0 as real,
        d.value() >= 0 as real,
    ensures
        ({
            let c = (Double::of(2) * a) * d;
            let e = 2 as real * (a.value() * d.value());
            &&& c.finite()
            &&& e >= 0 as real
            &&& near(
                c.value(),
                e,
                3 as real * (grain() * e) + 2 as real * (least() * d.value()) + least(),
            )
        }),
{
    lemma_bounds();
    lemma_one_is_positive();
    let two = Double::of(2);
    law_integer_value(2);
    let (x, y) = (a.value(), d.value());
    let e = 2 as real * x;
    law_product_is_finite(two, a);
    law_product_is_near(two, a);
    let t = (two * a).value();
    let (g, l, h) = (grain(), least(), large());
    lemma_grain_of(e);
    lemma_slack_below_one();
    let hh = h * h;
    assert(1000 as real * h * h == 1000 as real * hh) by (nonlinear_arith)
        requires
            hh == h * h,
    ;
    let ge = g * e;
    assert(-(4 as real * h) <= t <= 4 as real * h) by (nonlinear_arith)
        requires
            near(t, e, ge + l),
            ge * 9007199254740992 as real == e,
            0 as real <= e <= 2 as real * h,
            l <= 1 as real,
            h >= 1 as real,
            l >= 0 as real,
    ;
    lemma_product_bound(t, y, 4 as real * h, h);
    let k = 4 as real * h;
    assert(k * h == 4 as real * hh) by (nonlinear_arith)
        requires
            k == 4 as real * h,
            hh == h * h,
    ;
    lemma_scaled(h, 1 as real, h);
    law_product_is_finite(two * a, d);
    law_product_is_near(two * a, d);
    let off = t - e;
    let b = ge + l;
    lemma_product_bound(off, y, b, y);
    let (td, ed, ld) = (t * y, e * y, l * y);
    assert(off * y == td - ed) by (nonlinear_arith)
        requires
            off == t - e,
            td == t * y,
            ed == e * y,
    ;
    let ged = g * ed;
    assert(b * y == ged + ld) by (nonlinear_arith)
        requires
            b == ge + l,
            ge == g * e,
            ged == g * ed,
            ed == e * y,
            ld == l * y,
    ;
    lemma_times(e, y);
    lemma_times(l, y);
    lemma_grain_of(ed);
    lemma_grain_of(absolute(td));
    lemma_twice_linear(((two * a) * d).value(), td, ed, ged, g * absolute(td), ld, l);
    assert(ed == 2 as real * (x * y)) by (nonlinear_arith)
        requires
            ed == e * y,
            e == 2 as real * x,
    ;
}

#[verifier::spinoff_prover]
proof fn lemma_slack_below_one()
    ensures
        0 as real <= least() <= 1 as real,
{
    lemma_bounds();
    lemma_one_is_positive();
    let g = grain();
    lemma_grain_of(1 as real);
    assert(g * 1 as real == g) by (nonlinear_arith);
    lemma_grain_of(g);
    lemma_grain_of(g * g);
    assert(g * g * g == g * (g * g)) by (nonlinear_arith);
}

/// The square of the speed changes over a block by twice its acceleration times its
/// length.
pub proof fn law_speed_changes_by_twice_acceleration_times_length(block: Block)
    requires
        physical(block),
    ensures
        block.speed_change().finite(),
        allowance(block) >= 0 as real,
        near(
            block.speed_change().value(),
            allowance(block),
            3 as real * (grain() * allowance(block)) + 2 as real * (least()
                * block.distance.value()) + least(),
        ),
{
    lemma_one_is_positive();
    lemma_least_share();
    law_order_of_values(block.distance, least_share());
    if least_share().value() < block.distance.value() {
        lemma_twice_product(block.acceleration, block.distance);
    } else {
        law_zero_value();
        lemma_grain_of(0 as real);
        lemma_times(least(), block.distance.value());
    }
}

// ---- what a plan does with the acceleration ----

proof fn lemma_sum_below_linear(
    s: real,
    v: real,
    c: real,
    e: real,
    ge: real,
    gvc: real,
    gve: real,
    ld: real,
    l: real,
)
    by (nonlinear_arith)
    requires
        near(c, e, 3 as real * ge + 2 as real * ld + l),
        near(s, v + c, gvc),
        ge * 9007199254740992 as real == e,
        gvc * 9007199254740992 as real == absolute(v + c),
        gve * 9007199254740992 as real == v + e,
        v >= 0 as real,
        e >= 0 as real,
        ld >= 0 as real,
        l >= 0 as real,
    ensures
        near(s, v + e, 8 as real * gve + 8 as real * (ld + l)),
{
}

/// The square of a speed and the change of it over a block.
#[verifier::spinoff_prover]
proof fn lemma_changed_speed(from: Double, block: Block)
    requires
        physical(block),
        from.finite(),
        from.value() >= 0 as real,
        (from + block.speed_change()).finite(),
    ensures
        near(
            (from + block.speed_change()).value(),
            from.value() + allowance(block),
            haze(block, from.value()),
        ),
{
    lemma_one_is_positive();
    law_speed_changes_by_twice_acceleration_times_length(block);
    let change = block.speed_change();
    law_sum_is_near(from, change);
    let (v, c, e, d, l) = (
        from.value(),
        change.value(),
        allowance(block),
        block.distance.value(),
        least(),
    );
    let ld = l * d;
    lemma_times(l, d);
    lemma_grain_of(e);
    lemma_grain_of(absolute(v + c));
    lemma_grain_of(v + e);
    lemma_sum_below_linear(
        (from + change).value(),
        v,
        c,
        e,
        grain() * e,
        grain() * absolute(v + c),
        grain() * (v + e),
        ld,
        l,
    );
    assert(l * (d + 1 as real) == ld + l) by (nonlinear_arith)
        requires
            ld == l * d,
    ;
}

/// From the square of one speed to that of another the machine can get over a block, in
/// either order, whatever rounding does: the difference is within what the acceleration
/// and the length allow.
pub open spec fn within_allowance(block: Block, from: real, to: real) -> bool {
    to <= from || to + haze(block, from) <= from + allowance(block)
}

/// Every block of a plan keeps to its acceleration: from its entry to its exit the square
/// of the speed changes, up or down, by no more than twice the acceleration times the
/// length.
pub proof fn law_planned_speeds_keep_to_the_acceleration<C>(
    entries: Seq<QueueEntry<C>>,
    incoming: Double,
    i: int,
)
    requires
        all_sound(entries),
        not_negative(incoming),
        0 <= i < replanned(entries, incoming).len(),
        replanned(entries, incoming)[i] matches QueueEntry::Block(block) && physical(block)
            && moderate(block.entry_speed_sqr) && moderate(block.exit_speed_sqr),
    ensures
        replanned(entries, incoming)[i] matches QueueEntry::Block(block) && ({
            let (entry, exit) = (block.entry_speed_sqr.value(), block.exit_speed_sqr.value());
            &&& exit <= entry + allowance(block) + haze(block, entry)
            &&& entry <= exit + allowance(block) + haze(block, exit)
        }),
{
    law_planned_speeds_are_feasible(entries, incoming);
    super::laws::law_planning_keeps_the_entries(entries, incoming);
    let block = replanned(entries, incoming)[i]->Block_0;
    assert(feasible(block));
    lemma_feasible_in_reals(block, block.entry_speed_sqr, block.exit_speed_sqr);
    lemma_feasible_in_reals(block, block.exit_speed_sqr, block.entry_speed_sqr);
}

#[verifier::spinoff_prover]
proof fn lemma_feasible_in_reals(block: Block, from: Double, to: Double)
    requires
        physical(block),
        moderate(from),
        to.finite(),
        not_negative(from),
        to.at_most(from + block.speed_change()),
    ensures
        to.value() <= from.value() + allowance(block) + haze(block, from.value()),
{
    law_zero_value();
    law_order_of_values(Double::nought(), from);
    law_speed_changes_by_twice_acceleration_times_length(block);
    lemma_changed_speed_is_finite(from, block);
    lemma_changed_speed(from, block);
    law_order_of_values(to, from + block.speed_change());
}

proof fn lemma_change_bound(c: real, e: real, ge: real, ld: real, l: real, h: real, hh: real)
    by (nonlinear_arith)
    requires
        near(c, e, 3 as real * ge + 2 as real * ld + l),
        ge * 9007199254740992 as real == e,
        0 as real <= e <= 2 as real * hh,
        0 as real <= ld <= h,
        0 as real <= l <= 1 as real,
        1 as real <= h <= hh,
    ensures
        -(10 as real * hh) <= c <= 10 as real * hh,
{
}

/// Nothing overflows where a moderate speed changes over a block.
#[verifier::spinoff_prover]
proof fn lemma_changed_speed_is_finite(from: Double, block: Block)
    requires
        physical(block),
        moderate(from),
    ensures
        (from + block.speed_change()).finite(),
{
    lemma_bounds();
    lemma_slack_below_one();
    law_speed_changes_by_twice_acceleration_times_length(block);
    let (x, d, h, l) = (
        block.acceleration.value(),
        block.distance.value(),
        large(),
        least(),
    );
    let hh = h * h;
    lemma_product_bound(x, d, h, h);
    lemma_scaled(d, l, 1 as real);
    assert(d * l == l * d && d * 1 as real == d) by (nonlinear_arith);
    lemma_times(l, d);
    lemma_scaled(h, 1 as real, h);
    assert(h * 1 as real == h) by (nonlinear_arith);
    lemma_grain_of(allowance(block));
    assert(1000 as real * h * h == 1000 as real * hh) by (nonlinear_arith)
        requires
            hh == h * h,
    ;
    lemma_change_bound(
        block.speed_change().value(),
        allowance(block),
        grain() * allowance(block),
        l * d,
        l,
        h,
        hh,
    );
    law_sum_is_finite(from, block.speed_change());
}

// ---- and that it makes the most of it ----

/// What is within the allowance of a block is within what a plan grants.
#[verifier::spinoff_prover]
proof fn lemma_allowed(block: Block, from: Double, to: Double)
    requires
        physical(block),
        moderate(from),
        moderate(to),
        not_negative(from),
        not_negative(to),
        within_allowance(block, from.value(), to.value()),
    ensures
        to.at_most(from + block.speed_change()),
{
    law_zero_value();
    law_order_of_values(Double::nought(), from);
    law_speed_changes_by_twice_acceleration_times_length(block);
    lemma_changed_speed_is_finite(from, block);
    let sum = from + block.speed_change();
    law_order_of_values(to, sum);
    if to.value() <= from.value() {
        law_order_of_values(to, from);
        lemma_change_not_negative(block);
        lemma_sum_not_negative(from, block.speed_change());
    } else {
        lemma_changed_speed(from, block);
    }
}

/// A change of speed is never below zero.
#[verifier::spinoff_prover]
proof fn lemma_change_not_negative(block: Block)
    requires
        physical(block),
    ensures
        not_negative(block.speed_change()),
{
    law_zero_value();
    lemma_least_share();
    law_order_of_values(Double::nought(), block.acceleration);
    law_order_of_values(Double::nought(), block.distance);
    law_order_of_values(block.distance, least_share());
    if least_share().value() < block.distance.value() {
        lemma_twice_product(block.acceleration, block.distance);
        crate::order::law_small_integers_are_positive(2);
        let twice = Double::of(2) * block.acceleration;
        assert(!twice.nan()) by {
            reveal(crate::double::product);
        }
        crate::order::law_product_is_not_negative(Double::of(2), block.acceleration);
        crate::order::law_product_is_not_negative(twice, block.distance);
    }
}

/// Speeds at the ends of a block that the machine can have, by its acceleration and its
/// length, its own speed and the corner at its start.
pub open spec fn attainable(block: Block) -> bool {
    let nominal = block.nominal_speed * block.nominal_speed;
    let (entry, exit) = (block.entry_speed_sqr, block.exit_speed_sqr);
    &&& physical(block)
    &&& moderate(entry) && moderate(exit)
    &&& not_negative(entry) && not_negative(exit)
    &&& entry.at_most(block.max_entry_speed_sqr)
    &&& entry.at_most(nominal)
    &&& exit.at_most(nominal)
    &&& within_allowance(block, entry.value(), exit.value())
    &&& within_allowance(block, exit.value(), entry.value())
    &&& block.ends_at_rest ==> exit == Double::nought()
}

/// Speeds that the machine can have all along these entries, when it comes in at
/// `incoming` at most: those of each block are attainable, blocks that follow each other
/// meet at one, and in the last one the machine can still stop.
pub open spec fn all_attainable<C>(entries: Seq<QueueEntry<C>>, incoming: Double) -> bool
    decreases entries.len(),
{
    entries.len() == 0 || {
        let rest = entries.drop_first();
        match entries.first() {
            QueueEntry::Block(block) => {
                &&& attainable(block)
                &&& block.entry_speed_sqr.at_most(incoming)
                &&& if has_block(rest) {
                    block.exit_speed_sqr.at_most(first_entry(rest))
                } else {
                    within_allowance(block, 0 as real, block.entry_speed_sqr.value())
                }
                &&& all_attainable(rest, block.exit_speed_sqr)
            },
            QueueEntry::Command(_) => all_attainable(rest, incoming),
        }
    }
}

#[verifier::spinoff_prover]
proof fn lemma_attainable_is_feasible(block: Block)
    requires
        attainable(block),
    ensures
        feasible(block),
{
    lemma_allowed(block, block.entry_speed_sqr, block.exit_speed_sqr);
    lemma_allowed(block, block.exit_speed_sqr, block.entry_speed_sqr);
}

#[verifier::spinoff_prover]
proof fn lemma_attainable_is_admissible<C>(entries: Seq<QueueEntry<C>>, incoming: Double)
    requires
        all_attainable(entries, incoming),
    ensures
        admissible(entries, incoming),
    decreases entries.len(),
{
    if entries.len() > 0 {
        let rest = entries.drop_first();
        match entries.first() {
            QueueEntry::Block(block) => {
                lemma_attainable_is_feasible(block);
                if !has_block(rest) {
                    law_zero_value();
                    lemma_bounds();
                    law_order_of_values(Double::nought(), Double::nought());
                    lemma_allowed(block, Double::nought(), block.entry_speed_sqr);
                }
                lemma_attainable_is_admissible(rest, block.exit_speed_sqr);
            },
            QueueEntry::Command(_) => {
                lemma_attainable_is_admissible(rest, incoming);
            },
        }
    }
}

/// A plan makes the most of the acceleration: whatever speeds the machine could have along
/// the same entries, if over each block the square of the speed changes by no more than
/// twice the acceleration times the length, the plan has at least these, at both ends of
/// every block.
pub proof fn law_plan_makes_the_most_of_the_acceleration<C>(
    entries: Seq<QueueEntry<C>>,
    incoming: Double,
    other: Seq<QueueEntry<C>>,
    other_incoming: Double,
)
    requires
        all_sound(entries),
        not_negative(incoming),
        all_same_but_speeds(other, entries),
        all_attainable(other, other_incoming),
        other_incoming.at_most(incoming),
    ensures
        forall|i: int|
            0 <= i < entries.len() && other[i] is Block ==> {
                let settled = (#[trigger] replanned(entries, incoming)[i])->Block_0;
                &&& other[i]->Block_0.entry_speed_sqr.at_most(settled.entry_speed_sqr)
                &&& other[i]->Block_0.exit_speed_sqr.at_most(settled.exit_speed_sqr)
            },
{
    lemma_attainable_is_admissible(other, other_incoming);
    law_plan_is_the_fastest(entries, incoming, other, other_incoming);
}

/// The machine can always stop at the end of what is queued: the square of the speed at
/// which the newest block is entered is no more than twice its acceleration times its
/// length.
pub proof fn law_newest_block_is_long_enough_to_stop<C>(
    entries: Seq<QueueEntry<C>>,
    incoming: Double,
    i: int,
)
    requires
        all_sound(entries),
        not_negative(incoming),
        0 <= i < entries.len(),
        entries[i] is Block,
        forall|k: int| i < k < entries.len() ==> #[trigger] entries[k] is Command,
        replanned(entries, incoming)[i] matches QueueEntry::Block(block) && physical(block)
            && block.entry_speed_sqr.finite(),
    ensures
        replanned(entries, incoming)[i] matches QueueEntry::Block(block)
            && block.entry_speed_sqr.value() <= allowance(block) + haze(block, 0 as real),
{
    law_machine_can_stop_in_the_newest_block(entries, incoming, i);
    let block = replanned(entries, incoming)[i]->Block_0;
    law_zero_value();
    lemma_bounds();
    law_order_of_values(Double::nought(), Double::nought());
    lemma_feasible_in_reals(block, Double::nought(), block.entry_speed_sqr);
}

} // verus!
