//! What holds of every plan.
use vstd::prelude::*;
use crate::double::Double;
use crate::order::law_adding_makes_no_smaller;
use crate::order::law_difference_is_positive;
use crate::order::law_one_is_one;
use crate::order::law_product_commutes;
use crate::order::law_product_is_not_negative;
use crate::order::law_quotient_is_not_negative;
use crate::order::law_small_integers_are_positive;
use crate::order::law_square_is_not_negative;
use crate::order::law_sum_commutes;
use crate::order::law_sum_keeps_order;
use crate::order::law_zero_changes_nothing;
use crate::order::law_zero_divided;
use crate::order::law_zero_times_anything;
use crate::order::lemma_half_of_one_more;
use crate::order::lemma_root_below_one;
use super::Plan;
use super::block::Block;
use super::block::direction_between;
use super::block::distance_between;
use super::limits::AxisLimits;
use super::limits::MachineLimits;
use super::limits::least_share;
use super::limits::limits_along;
use super::position::Position;
use super::path_laws::dot;
use super::queue::QueueEntry;
use super::queue::corner_speed_sqr;
use super::queue::entry_ceiling;
use super::queue::exit_ceiling;
use super::queue::has_block;
use super::queue::lemma_stopped_at;
use super::queue::nearly_one;
use super::queue::pushed;
use super::queue::replanned;
use super::queue::settled;
use super::queue::stopped;

verus! {

// ---- what planning leaves alone ----

/// The same entry, but for the speeds at the ends of a block.
pub open spec fn same_but_speeds<C>(a: QueueEntry<C>, b: QueueEntry<C>) -> bool {
    match (a, b) {
        (QueueEntry::Block(x), QueueEntry::Block(y)) => x == (Block {
            entry_speed_sqr: x.entry_speed_sqr,
            exit_speed_sqr: x.exit_speed_sqr,
            ..y
        }),
        (QueueEntry::Command(x), QueueEntry::Command(y)) => x == y,
        _ => false,
    }
}

/// Planning settles the speeds at the ends of the blocks and touches nothing else:
/// no entry is lost, added, moved or changed otherwise, and commands stay as they
/// are.
pub proof fn law_planning_keeps_the_entries<C>(
    entries: Seq<QueueEntry<C>>,
    incoming: Double,
)
    ensures
        replanned(entries, incoming).len() == entries.len(),
        forall|i: int|
            0 <= i < entries.len() ==> same_but_speeds(
                #[trigger] replanned(entries, incoming)[i],
                entries[i],
            ),
    decreases entries.len(),
{
    if entries.len() > 0 {
        let rest = entries.drop_first();
        let next = match entries.first() {
            QueueEntry::Block(block) => settled(entries, block, incoming).exit_speed_sqr,
            QueueEntry::Command(_) => incoming,
        };
        law_planning_keeps_the_entries(rest, next);
        let all = replanned(entries, incoming);
        let later = replanned(rest, next);
        assert forall|i: int| 0 <= i < entries.len() implies same_but_speeds(
            #[trigger] all[i],
            entries[i],
        ) by {
            if i > 0 {
                assert(all[i] == later[i - 1]);
                assert(entries[i] == rest[i - 1]);
            }
        }
    }
}

/// What is pushed comes in behind everything else, and what was there stays in
/// its place: first in, first out.
pub proof fn law_pushed_last_comes_out_last<C>(
    entries: Seq<QueueEntry<C>>,
    carry_over: Double,
    entry: QueueEntry<C>,
)
    ensures
        pushed(entries, carry_over, entry).len() == entries.len() + 1,
        same_but_speeds(pushed(entries, carry_over, entry).last(), entry),
        forall|i: int|
            0 <= i < entries.len() ==> same_but_speeds(
                #[trigger] pushed(entries, carry_over, entry)[i],
                entries[i],
            ),
{
    law_planning_keeps_the_entries(entries.push(entry), carry_over);
}

// ---- joints ----

/// Blocks that follow each other meet at one speed: a block is left exactly as
/// fast as the next one is entered, whatever commands lie between them.
pub proof fn law_blocks_meet_at_one_speed<C>(
    entries: Seq<QueueEntry<C>>,
    incoming: Double,
    i: int,
    j: int,
)
    requires
        0 <= i < j < entries.len(),
        entries[i] is Block,
        entries[j] is Block,
        forall|k: int| i < k < j ==> #[trigger] entries[k] is Command,
        all_sound(entries),
        not_negative(incoming),
    ensures
        ({
            let plan = replanned(entries, incoming);
            &&& plan[i] is Block
            &&& plan[j] is Block
            &&& plan[i]->Block_0.exit_speed_sqr == plan[j]->Block_0.entry_speed_sqr
        }),
    decreases entries.len(),
{
    let rest = entries.drop_first();
    let plan = replanned(entries, incoming);
    law_planning_keeps_the_entries(entries, incoming);
    let next = match entries.first() {
        QueueEntry::Block(block) => settled(entries, block, incoming).exit_speed_sqr,
        QueueEntry::Command(_) => incoming,
    };
    let later = replanned(rest, next);
    assert forall|k: int| 0 < k < entries.len() implies plan[k] == later[k - 1] by {}
    assert(same_but_speeds(plan[i], entries[i]));
    assert(same_but_speeds(plan[j], entries[j]));
    assert forall|k: int| 0 <= k < rest.len() implies (#[trigger] rest[k] matches QueueEntry::Block(
        b,
    ) ==> sound(b)) by {
        assert(rest[k] == entries[k + 1]);
    }
    if let QueueEntry::Block(block) = entries[0] {
        lemma_settled_feasible(entries, block, incoming);
    }
    lemma_ceiling_not_negative(rest);
    if i == 0 {
        assert(rest[j - 1] == entries[j]);
        assert(has_block(rest));
        assert forall|k: int| 0 <= k < j - 1 implies #[trigger] rest[k] is Command by {
            assert(rest[k] == entries[k + 1]);
        }
        lemma_first_block_entry(rest, next, j - 1);
    } else {
        assert(rest[i - 1] == entries[i]);
        assert(rest[j - 1] == entries[j]);
        assert forall|k: int| i - 1 < k < j - 1 implies #[trigger] rest[k] is Command by {
            assert(rest[k] == entries[k + 1]);
        }
        law_blocks_meet_at_one_speed(rest, next, i - 1, j - 1);
    }
}

/// The first block is entered at the speed that comes in, or at its ceiling.
proof fn lemma_first_block_entry<C>(
    entries: Seq<QueueEntry<C>>,
    incoming: Double,
    j: int,
)
    requires
        0 <= j < entries.len(),
        entries[j] is Block,
        forall|k: int| 0 <= k < j ==> #[trigger] entries[k] is Command,
    ensures
        replanned(entries, incoming)[j] is Block,
        replanned(entries, incoming)[j]->Block_0.entry_speed_sqr == entry_ceiling(
            entries,
        ).lesser(incoming),
    decreases j,
{
    if j > 0 {
        let rest = entries.drop_first();
        assert(entries[0] is Command);
        assert forall|k: int| 0 <= k < j - 1 implies #[trigger] rest[k] is Command by {
            assert(rest[k] == entries[k + 1]);
        }
        assert(rest[j - 1] == entries[j]);
        lemma_first_block_entry(rest, incoming, j - 1);
        law_planning_keeps_the_entries(rest, incoming);
        assert(replanned(entries, incoming)[j] == replanned(rest, incoming)[j - 1]);
    }
}

/// A block that is to end at rest does, whatever is queued behind it.
pub proof fn law_stops_are_kept<C>(entries: Seq<QueueEntry<C>>, incoming: Double, i: int)
    requires
        0 <= i < entries.len(),
        entries[i] matches QueueEntry::Block(block) && block.ends_at_rest,
    ensures
        replanned(entries, incoming)[i] matches QueueEntry::Block(block) && block.ends_at_rest
            && block.exit_speed_sqr == Double::nought(),
    decreases entries.len(),
{
    if i > 0 {
        let rest = entries.drop_first();
        let next = match entries.first() {
            QueueEntry::Block(block) => settled(entries, block, incoming).exit_speed_sqr,
            QueueEntry::Command(_) => incoming,
        };
        assert(rest[i - 1] == entries[i]);
        law_stops_are_kept(rest, next, i - 1);
        law_planning_keeps_the_entries(rest, next);
        assert(replanned(entries, incoming)[i] == replanned(rest, next)[i - 1]);
    }
}

/// After a flush the newest block ends at rest.
pub proof fn law_flushed_queue_ends_at_rest<C>(
    entries: Seq<QueueEntry<C>>,
    incoming: Double,
    i: int,
)
    requires
        0 <= i < entries.len(),
        entries[i] is Block,
        forall|k: int| i < k < entries.len() ==> #[trigger] entries[k] is Command,
    ensures
        replanned(stopped(entries), incoming)[i] matches QueueEntry::Block(block)
            && block.ends_at_rest && block.exit_speed_sqr == Double::nought(),
{
    lemma_stopped_at(entries, i);
    law_stops_are_kept(stopped(entries), incoming, i);
}

// ---- speeds that the machine can keep ----

/// A number that is not below zero.
pub open spec fn not_negative(a: Double) -> bool {
    Double::nought().at_most(a)
}

/// A block whose limits are numbers that make sense together.
pub open spec fn sound(block: Block) -> bool {
    &&& not_negative(block.max_entry_speed_sqr)
    &&& block.max_entry_speed_sqr.at_most(block.nominal_speed * block.nominal_speed)
    &&& not_negative(block.speed_change())
}

/// Every block is sound.
pub open spec fn all_sound<C>(entries: Seq<QueueEntry<C>>) -> bool {
    forall|i: int|
        0 <= i < entries.len() ==> (#[trigger] entries[i] matches QueueEntry::Block(block)
            ==> sound(block))
}

/// The speeds at the ends of a block are ones that it can have: it is entered no
/// faster than it may be, at neither end faster than its own speed, over its length
/// the machine can speed up, or slow down, from the one to the other, and it ends at
/// rest if it is to.
pub open spec fn feasible(block: Block) -> bool {
    let nominal = block.nominal_speed * block.nominal_speed;
    &&& not_negative(block.entry_speed_sqr)
    &&& not_negative(block.exit_speed_sqr)
    &&& block.entry_speed_sqr.at_most(block.max_entry_speed_sqr)
    &&& block.entry_speed_sqr.at_most(nominal)
    &&& block.exit_speed_sqr.at_most(nominal)
    &&& block.exit_speed_sqr.at_most(block.entry_speed_sqr + block.speed_change())
    &&& block.entry_speed_sqr.at_most(block.exit_speed_sqr + block.speed_change())
    &&& block.ends_at_rest ==> block.exit_speed_sqr == Double::nought()
}

/// The sum of two numbers that are not below zero is one of them too.
pub(crate) proof fn lemma_sum_not_negative(a: Double, b: Double)
    requires
        not_negative(a),
        not_negative(b),
    ensures
        not_negative(a + b),
        a.at_most(a + b),
{
    assert(!(a + b).nan()) by {
        reveal(crate::double::sum);
    }
    law_adding_makes_no_smaller(a, b);
}

pub(crate) proof fn lemma_ceiling_not_negative<C>(entries: Seq<QueueEntry<C>>)
    requires
        all_sound(entries),
    ensures
        not_negative(entry_ceiling(entries)),
    decreases entries.len(),
{
    if entries.len() > 0 {
        let rest = entries.drop_first();
        assert forall|i: int| 0 <= i < rest.len() implies (#[trigger] rest[i] matches QueueEntry::Block(
            block,
        ) ==> sound(block)) by {
            assert(rest[i] == entries[i + 1]);
        }
        lemma_ceiling_not_negative(rest);
        if let QueueEntry::Block(block) = entries[0] {
            lemma_sum_not_negative(exit_ceiling(entries, block), block.speed_change());
        }
    }
}

pub(crate) proof fn lemma_settled_feasible<C>(
    entries: Seq<QueueEntry<C>>,
    block: Block,
    incoming: Double,
)
    requires
        entries.len() > 0,
        entries[0] == QueueEntry::<C>::Block(block),
        all_sound(entries),
        not_negative(incoming),
    ensures
        feasible(settled(entries, block, incoming)),
        settled(entries, block, incoming).entry_speed_sqr.at_most(incoming),
{
    let rest = entries.drop_first();
    assert forall|i: int| 0 <= i < rest.len() implies (#[trigger] rest[i] matches QueueEntry::Block(
        b,
    ) ==> sound(b)) by {
        assert(rest[i] == entries[i + 1]);
    }
    assert(sound(block));
    lemma_ceiling_not_negative(rest);
    lemma_ceiling_not_negative(entries);
    let change = block.speed_change();
    let nominal = block.nominal_speed * block.nominal_speed;
    let beyond = exit_ceiling(entries, block);
    let ceiling = entry_ceiling(entries);
    let entry = ceiling.lesser(incoming);
    let reached = (entry + change).lesser(nominal);
    let exit = settled(entries, block, incoming).exit_speed_sqr;
    lemma_sum_not_negative(entry, change);
    lemma_sum_not_negative(beyond, change);
    lemma_sum_not_negative(exit, change);
    assert(ceiling.at_most(beyond + change));
    // slowing down: the exit is the next ceiling, or what was reached, or rest
    lemma_sum_not_negative(reached, change);
    lemma_sum_not_negative(nominal, change);
    lemma_sum_not_negative(Double::nought(), change);
    if exit == beyond {
        assert(entry.at_most(exit + change));
    } else if exit == entry + change {
        assert(entry.at_most(exit + change));
    } else if exit == nominal {
        assert(entry.at_most(exit + change));
    } else {
        assert(entry.at_most(exit + change));
    }
}

/// Behind the last block there is rest.
pub(crate) proof fn lemma_no_block_no_speed<C>(entries: Seq<QueueEntry<C>>)
    requires
        !has_block(entries),
    ensures
        entry_ceiling(entries) == Double::nought(),
    decreases entries.len(),
{
    if entries.len() > 0 {
        assert(!(entries[0] is Block));
        let rest = entries.drop_first();
        assert(!has_block(rest)) by {
            assert forall|i: int| 0 <= i < rest.len() implies !(#[trigger] rest[i] is Block) by {
                assert(rest[i] == entries[i + 1]);
            }
        }
        lemma_no_block_no_speed(rest);
    }
}

/// Every speed that planning settles is one that the machine can keep.
pub proof fn law_planned_speeds_are_feasible<C>(
    entries: Seq<QueueEntry<C>>,
    incoming: Double,
)
    requires
        all_sound(entries),
        not_negative(incoming),
    ensures
        forall|i: int|
            0 <= i < entries.len() ==> (#[trigger] replanned(entries, incoming)[i] matches
                QueueEntry::Block(block) ==> feasible(block)),
    decreases entries.len(),
{
    if entries.len() > 0 {
        let rest = entries.drop_first();
        assert forall|i: int| 0 <= i < rest.len() implies (#[trigger] rest[i] matches QueueEntry::Block(
            b,
        ) ==> sound(b)) by {
            assert(rest[i] == entries[i + 1]);
        }
        let next = match entries[0] {
            QueueEntry::Block(block) => {
                lemma_settled_feasible(entries, block, incoming);
                settled(entries, block, incoming).exit_speed_sqr
            },
            QueueEntry::Command(_) => incoming,
        };
        law_planned_speeds_are_feasible(rest, next);
        law_planning_keeps_the_entries(rest, next);
        let all = replanned(entries, incoming);
        let later = replanned(rest, next);
        assert forall|i: int| 0 <= i < entries.len() implies (#[trigger] all[i] matches QueueEntry::Block(
            block,
        ) ==> feasible(block)) by {
            if i > 0 {
                assert(all[i] == later[i - 1]);
            }
        }
    }
}

/// The pass from the oldest block to the newest never takes a block faster than the
/// pass from the newest to the oldest allows.
pub proof fn law_no_block_is_entered_above_its_ceiling<C>(
    entries: Seq<QueueEntry<C>>,
    incoming: Double,
    i: int,
)
    requires
        all_sound(entries),
        not_negative(incoming),
        0 <= i < entries.len(),
        entries[i] is Block,
    ensures
        replanned(entries, incoming)[i] is Block,
        replanned(entries, incoming)[i]->Block_0.entry_speed_sqr.at_most(
            entry_ceiling(entries.skip(i)),
        ),
    decreases entries.len(),
{
    let rest = entries.drop_first();
    lemma_ceiling_not_negative(entries);
    assert(entries.skip(0) == entries);
    if i > 0 {
        assert forall|k: int| 0 <= k < rest.len() implies (#[trigger] rest[k] matches QueueEntry::Block(
            b,
        ) ==> sound(b)) by {
            assert(rest[k] == entries[k + 1]);
        }
        let next = match entries[0] {
            QueueEntry::Block(block) => {
                lemma_settled_feasible(entries, block, incoming);
                settled(entries, block, incoming).exit_speed_sqr
            },
            QueueEntry::Command(_) => incoming,
        };
        assert(rest[i - 1] == entries[i]);
        assert(rest.skip(i - 1) == entries.skip(i));
        law_no_block_is_entered_above_its_ceiling(rest, next, i - 1);
        law_planning_keeps_the_entries(rest, next);
        assert(replanned(entries, incoming)[i] == replanned(rest, next)[i - 1]);
    }
}

/// The machine can always stop at the end of what is queued, even if nothing more
/// comes: over the length of the newest block it can slow down to rest from the speed
/// at which it enters it.
pub proof fn law_machine_can_stop_in_the_newest_block<C>(
    entries: Seq<QueueEntry<C>>,
    incoming: Double,
    i: int,
)
    requires
        all_sound(entries),
        not_negative(incoming),
        0 <= i < entries.len(),
        entries[i] is Block,
        forall|k: int| i < k < entries.len() ==> #[trigger] entries[k] is Command,
    ensures
        ({
            let newest = replanned(entries, incoming)[i]->Block_0;
            newest.entry_speed_sqr.at_most(Double::nought() + newest.speed_change())
        }),
{
    law_no_block_is_entered_above_its_ceiling(entries, incoming, i);
    law_planning_keeps_the_entries(entries, incoming);
    let plan = replanned(entries, incoming);
    assert(same_but_speeds(plan[i], entries[i]));
    let block = entries[i]->Block_0;
    assert(sound(block));
    let here = entries.skip(i);
    let rest = here.drop_first();
    assert(here.first() == entries[i]);
    assert(!has_block(rest)) by {
        assert forall|k: int| 0 <= k < rest.len() implies !(#[trigger] rest[k] is Block) by {
            assert(rest[k] == entries[i + 1 + k]);
        }
    }
    lemma_no_block_no_speed(rest);
    assert(exit_ceiling(here, block) == Double::nought());
    lemma_sum_not_negative(Double::nought(), block.speed_change());
}

// ---- moves that a machine can make ----

/// Limits that a machine can have.
pub open spec fn possible(limits: MachineLimits<3>) -> bool {
    &&& not_negative(limits.junction_deviation)
    &&& forall|i: int|
        0 <= i < 3 ==> {
            let axis = #[trigger] limits.axes@[i];
            &&& axis.max_velocity.finite() && not_negative(axis.max_velocity)
            &&& axis.max_acceleration.finite() && not_negative(axis.max_acceleration)
        }
}

/// The speed of a corner is never below zero.
pub proof fn law_corner_speed_is_not_negative(
    prev_unit: Seq<Double>,
    curr_unit: Seq<Double>,
    accel: Double,
    junction_deviation: Double,
)
    requires
        not_negative(accel),
        not_negative(junction_deviation),
    ensures
        ({
            let speed = corner_speed_sqr(prev_unit, curr_unit, accel, junction_deviation);
            speed.nan() || not_negative(speed)
        }),
{
    let one = Double::of(1);
    let dot = prev_unit[0] * curr_unit[0] + prev_unit[1] * curr_unit[1] + prev_unit[2]
        * curr_unit[2];
    let cos_theta = dot.opposite();
    let half = Double::of(1) / Double::of(2);
    let x = half * (one - cos_theta);
    let sin_half = x.greater(Double::nought()).root();
    let speed = corner_speed_sqr(prev_unit, curr_unit, accel, junction_deviation);
    law_one_is_one();
    if !cos_theta.below(nearly_one().opposite()) {
        if cos_theta.nan() {
            // the root is that of zero
            assert(x.nan()) by {
                reveal(crate::double::sum);
                reveal(crate::double::product);
            }
        } else {
            assert(!nearly_one().nan()) by {
                law_small_integers_are_positive(999_999);
                law_small_integers_are_positive(1_000_000);
                law_quotient_is_not_negative(Double::of(999_999), Double::of(1_000_000));
            }
            lemma_half_of_one_more(cos_theta.opposite());
        }
        lemma_root_below_one(x.greater(Double::nought()));
        law_difference_is_positive(one, sin_half);
        let lead = accel * junction_deviation;
        if !lead.nan() {
            law_product_is_not_negative(accel, junction_deviation);
            if !(lead * sin_half).nan() {
                law_product_is_not_negative(lead, sin_half);
                assert((one - sin_half).finite()) by {
                    lemma_difference_finite(one, sin_half);
                }
                law_quotient_is_not_negative(lead * sin_half, one - sin_half);
            } else {
                assert(speed.nan()) by {
                    reveal(crate::double::ratio);
                }
            }
        } else {
            assert(speed.nan()) by {
                reveal(crate::double::ratio);
                reveal(crate::double::product);
            }
        }
    }
}

/// Without a deviation, every corner that is none of a straight path is a full stop.
pub proof fn law_no_deviation_stops_at_every_corner(
    prev_unit: Seq<Double>,
    curr_unit: Seq<Double>,
    accel: Double,
    junction_deviation: Double,
)
    requires
        accel.finite(),
        junction_deviation.zero(),
        !nearly_one().below(dot(prev_unit, curr_unit)),
    ensures
        corner_speed_sqr(prev_unit, curr_unit, accel, junction_deviation).zero(),
{
    let one = Double::of(1);
    let cos_theta = dot(prev_unit, curr_unit).opposite();
    let half = Double::of(1) / Double::of(2);
    let x = half * (one - cos_theta);
    let sin_half = x.greater(Double::nought()).root();
    law_one_is_one();
    if cos_theta.nan() {
        assert(x.nan()) by {
            reveal(crate::double::sum);
            reveal(crate::double::product);
        }
    } else {
        assert(!nearly_one().nan()) by {
            law_small_integers_are_positive(999_999);
            law_small_integers_are_positive(1_000_000);
            law_quotient_is_not_negative(Double::of(999_999), Double::of(1_000_000));
        }
        lemma_half_of_one_more(cos_theta.opposite());
    }
    lemma_root_below_one(x.greater(Double::nought()));
    law_difference_is_positive(one, sin_half);
    lemma_difference_finite(one, sin_half);
    law_zero_times_anything(junction_deviation, accel);
    law_product_commutes(junction_deviation, accel);
    law_zero_times_anything(accel * junction_deviation, sin_half);
    law_zero_divided(accel * junction_deviation * sin_half, one - sin_half);
}

/// What is left of a number when a part of it is taken away is not more than it.
proof fn lemma_difference_finite(a: Double, b: Double)
    requires
        a.finite(),
        b.finite(),
        not_negative(b),
        not_negative(a),
    ensures
        (a - b).at_most(a),
{
    let zero = Double::nought();
    assert(b.opposite().at_most(zero));
    assert(!(b.opposite() + a).nan() && !(zero + a).nan()) by {
        reveal(crate::double::sum);
    }
    law_sum_keeps_order(b.opposite(), zero, a);
    law_sum_commutes(b.opposite(), a);
    law_sum_commutes(zero, a);
    law_zero_changes_nothing(a);
}

/// The limits along any direction are not below zero.
proof fn lemma_limits_not_negative(axes: Seq<AxisLimits>, direction: Seq<Double>)
    requires
        forall|i: int|
            0 <= i < axes.len() ==> {
                let axis = #[trigger] axes[i];
                &&& axis.max_velocity.finite() && not_negative(axis.max_velocity)
                &&& axis.max_acceleration.finite() && not_negative(axis.max_acceleration)
            },
    ensures
        not_negative(limits_along(axes, direction).0),
        not_negative(limits_along(axes, direction).1),
    decreases axes.len(),
{
    if axes.len() > 0 {
        let before = axes.drop_last();
        assert forall|i: int| 0 <= i < before.len() implies {
            let axis = #[trigger] before[i];
            &&& axis.max_velocity.finite() && not_negative(axis.max_velocity)
            &&& axis.max_acceleration.finite() && not_negative(axis.max_acceleration)
        } by {
            assert(before[i] == axes[i]);
        }
        lemma_limits_not_negative(before, direction);
        let share = direction[axes.len() - 1].size();
        let axis = axes[axes.len() - 1];
        assert(not_negative(least_share())) by {
            law_small_integers_are_positive(1);
            law_small_integers_are_positive(1_000_000_000_000);
            law_quotient_is_not_negative(Double::of(1), Double::of(1_000_000_000_000));
        }
        if least_share().below(share) {
            law_quotient_is_not_negative(axis.max_velocity, share);
            law_quotient_is_not_negative(axis.max_acceleration, share);
        }
    }
}

/// A move is not faster than any axis allows: no axis with a share in the direction
/// has to do more than it can.
pub proof fn law_no_axis_is_overrun(axes: Seq<AxisLimits>, direction: Seq<Double>, i: int)
    requires
        0 <= i < axes.len(),
        least_share().below(direction[i].size()),
    ensures
        ({
            let (velocity, acceleration) = limits_along(axes, direction);
            let share = direction[i].size();
            &&& !(axes[i].max_velocity / share).nan() ==> velocity.at_most(
                axes[i].max_velocity / share,
            )
            &&& !(axes[i].max_acceleration / share).nan() ==> acceleration.at_most(
                axes[i].max_acceleration / share,
            )
        }),
    decreases axes.len(),
{
    let before = axes.drop_last();
    lemma_limits_are_numbers(before, direction);
    if i < axes.len() - 1 {
        law_no_axis_is_overrun(before, direction, i);
        assert(before[i] == axes[i]);
    }
}

proof fn lemma_limits_are_numbers(axes: Seq<AxisLimits>, direction: Seq<Double>)
    ensures
        !limits_along(axes, direction).0.nan(),
        !limits_along(axes, direction).1.nan(),
    decreases axes.len(),
{
    if axes.len() > 0 {
        lemma_limits_are_numbers(axes.drop_last(), direction);
    }
}

/// The block of a move, by a machine that can exist, is sound.
pub proof fn law_block_of_a_move_is_sound(
    start: Position,
    target: Position,
    feed_rate: Double,
    is_rapid: bool,
    limits: MachineLimits<3>,
    prev_unit_vector: Option<[Double; 3]>,
)
    requires
        possible(limits),
        distance_between(start, target).finite(),
    ensures
        sound(Block::of_move(start, target, feed_rate, is_rapid, limits, prev_unit_vector)),
{
    let block = Block::of_move(start, target, feed_rate, is_rapid, limits, prev_unit_vector);
    let direction = direction_between(start, target);
    let (velocity, acceleration) = limits_along(limits.axes@, direction@);
    lemma_limits_not_negative(limits.axes@, direction@);
    law_small_integers_are_positive(1);
    law_small_integers_are_positive(2);
    law_small_integers_are_positive(60);
    let minute = Double::of(60);
    law_quotient_is_not_negative(velocity, minute);
    let fed = feed_rate.greater(Double::of(1));
    law_quotient_is_not_negative(fed, minute);
    let nominal = block.nominal_speed;
    assert(not_negative(nominal));
    assert(!(nominal * nominal).nan()) by {
        reveal(crate::double::product);
    }
    law_square_is_not_negative(nominal);
    if let Some(prev) = prev_unit_vector {
        law_corner_speed_is_not_negative(
            prev@,
            direction@,
            acceleration,
            limits.junction_deviation,
        );
    }
    if !block.distance.at_most(least_share()) {
        assert(not_negative(least_share())) by {
            law_small_integers_are_positive(1_000_000_000_000);
            law_quotient_is_not_negative(Double::of(1), Double::of(1_000_000_000_000));
        }
        let twice = Double::of(2) * acceleration;
        assert(!twice.nan() && !(twice * block.distance).nan()) by {
            reveal(crate::double::product);
        }
        law_product_is_not_negative(Double::of(2), acceleration);
        law_product_is_not_negative(twice, block.distance);
    }
}

// ---- plans ----

/// A plan whose speeds the machine can keep, all along.
pub open spec fn steady<C>(plan: Plan<C>) -> bool {
    &&& all_sound(plan.entries)
    &&& not_negative(plan.carry_over)
    &&& forall|i: int|
        0 <= i < plan.entries.len() ==> (#[trigger] plan.entries[i] matches QueueEntry::Block(
            block,
        ) ==> feasible(block))
}

/// A planner starts with a steady plan.
pub proof fn law_empty_plan_is_steady<C>()
    ensures
        steady(Plan::<C>::empty()),
{
}

proof fn lemma_replanned_steady<C>(
    entries: Seq<QueueEntry<C>>,
    carry_over: Double,
)
    requires
        all_sound(entries),
        not_negative(carry_over),
    ensures
        all_sound(replanned(entries, carry_over)),
        forall|i: int|
            0 <= i < replanned(entries, carry_over).len() ==> (#[trigger] replanned(
                entries,
                carry_over,
            )[i] matches QueueEntry::Block(block) ==> feasible(block)),
{
    law_planning_keeps_the_entries(entries, carry_over);
    law_planned_speeds_are_feasible(entries, carry_over);
    let plan = replanned(entries, carry_over);
    assert forall|i: int| 0 <= i < plan.len() implies (#[trigger] plan[i] matches QueueEntry::Block(
        block,
    ) ==> sound(block)) by {
        assert(same_but_speeds(plan[i], entries[i]));
    }
}

/// A move keeps a plan steady, whether there is room for it or not.
pub proof fn law_moves_keep_a_plan_steady<C>(
    plan: Plan<C>,
    capacity: usize,
    limits: MachineLimits<3>,
    start: Position,
    target: Position,
    feed_rate: Double,
    is_rapid: bool,
)
    requires
        steady(plan),
        possible(limits),
        distance_between(start, target).finite(),
    ensures
        steady(plan.with_move(capacity, limits, start, target, feed_rate, is_rapid).0),
{
    law_block_of_a_move_is_sound(
        start,
        target,
        feed_rate,
        is_rapid,
        limits,
        plan.last_unit_vector,
    );
    let block = Block::of_move(start, target, feed_rate, is_rapid, limits, plan.last_unit_vector);
    let entries = plan.entries.push(QueueEntry::Block(block));
    lemma_replanned_steady(entries, plan.carry_over);
}

/// Being made to end at rest changes nothing else of a block.
proof fn lemma_stopped_entries<C>(entries: Seq<QueueEntry<C>>)
    ensures
        stopped(entries).len() == entries.len(),
        forall|i: int|
            0 <= i < entries.len() ==> match (#[trigger] stopped(entries)[i], entries[i]) {
                (QueueEntry::Block(a), QueueEntry::Block(b)) => a == (Block {
                    ends_at_rest: a.ends_at_rest,
                    ..b
                }) && (b.ends_at_rest ==> a.ends_at_rest),
                (QueueEntry::Command(a), QueueEntry::Command(b)) => a == b,
                _ => false,
            },
    decreases entries.len(),
{
    if entries.len() > 0 && entries.last() is Command {
        lemma_stopped_entries(entries.drop_last());
    }
}

/// Commands, a flush and taking out the oldest entry keep a plan steady.
pub proof fn law_other_steps_keep_a_plan_steady<C>(plan: Plan<C>, capacity: usize, command: C)
    requires
        steady(plan),
    ensures
        steady(plan.with_command(capacity, command).0),
        steady(plan.flushed()),
        plan.entries.len() > 0 ==> steady(plan.popped()),
{
    let halted = stopped(plan.entries);
    lemma_stopped_entries(plan.entries);
    assert forall|i: int| 0 <= i < halted.len() implies (#[trigger] halted[i] matches
        QueueEntry::Block(block) ==> sound(block)) by {
        assert(plan.entries[i] matches QueueEntry::Block(block) ==> sound(block));
    }
    lemma_replanned_steady(halted, plan.carry_over);
    if plan.entries.len() > 0 {
        let rest = plan.entries.drop_first();
        assert forall|i: int| 0 <= i < rest.len() implies (#[trigger] rest[i] matches QueueEntry::Block(
            block,
        ) ==> sound(block) && feasible(block)) by {
            assert(rest[i] == plan.entries[i + 1]);
        }
        assert(plan.entries[0] matches QueueEntry::Block(block) ==> feasible(block));
    }
}

// ---- stops ----

/// The `i`-th entry of a plan is a block at the end of which the machine stops.
pub open spec fn halts_at<C>(plan: Plan<C>, i: int) -> bool {
    &&& 0 <= i < plan.entries.len()
    &&& plan.entries[i] matches QueueEntry::Block(block) && block.ends_at_rest
        && block.exit_speed_sqr == Double::nought()
}

/// A move that comes later does not plan a stop away.
pub proof fn law_moves_keep_stops<C>(
    plan: Plan<C>,
    capacity: usize,
    limits: MachineLimits<3>,
    start: Position,
    target: Position,
    feed_rate: Double,
    is_rapid: bool,
    i: int,
)
    requires
        halts_at(plan, i),
    ensures
        ({
            let after = plan.with_move(capacity, limits, start, target, feed_rate, is_rapid).0;
            &&& halts_at(after, i)
            &&& same_but_speeds(after.entries[i], plan.entries[i])
        }),
{
    let block = Block::of_move(start, target, feed_rate, is_rapid, limits, plan.last_unit_vector);
    let entries = plan.entries.push(QueueEntry::Block(block));
    law_stops_are_kept(entries, plan.carry_over, i);
    law_planning_keeps_the_entries(entries, plan.carry_over);
    assert(same_but_speeds(replanned(entries, plan.carry_over)[i], entries[i]));
}

/// Nor do the moves of a path, such as that of an arc.
pub proof fn law_paths_keep_stops<C>(
    plan: Plan<C>,
    capacity: usize,
    limits: MachineLimits<3>,
    points: Seq<Position>,
    feed_rate: Double,
    is_rapid: bool,
    i: int,
)
    requires
        halts_at(plan, i),
    ensures
        ({
            let after = plan.with_path(capacity, limits, points, feed_rate, is_rapid).0;
            &&& halts_at(after, i)
            &&& same_but_speeds(after.entries[i], plan.entries[i])
        }),
    decreases points.len(),
{
    if points.len() > 1 {
        law_paths_keep_stops(plan, capacity, limits, points.drop_last(), feed_rate, is_rapid, i);
        let before = plan.with_path(capacity, limits, points.drop_last(), feed_rate, is_rapid).0;
        law_moves_keep_stops(
            before,
            capacity,
            limits,
            points[points.len() - 2],
            points[points.len() - 1],
            feed_rate,
            is_rapid,
            i,
        );
    }
}

/// Commands and flushes keep stops too, and a stop stays until its block is taken
/// out.
pub proof fn law_other_steps_keep_stops<C>(plan: Plan<C>, capacity: usize, command: C, i: int)
    requires
        halts_at(plan, i),
    ensures
        halts_at(plan.with_command(capacity, command).0, i),
        same_but_speeds(plan.with_command(capacity, command).0.entries[i], plan.entries[i]),
        halts_at(plan.flushed(), i),
        same_but_speeds(plan.flushed().entries[i], plan.entries[i]),
        i > 0 ==> halts_at(plan.popped(), i - 1) && plan.popped().entries[i - 1]
            == plan.entries[i],
        i == 0 ==> plan.popped().carry_over == Double::nought(),
{
    let halted = stopped(plan.entries);
    lemma_stopped_entries(plan.entries);
    assert(halted[i] == plan.entries[i]) by {
        assert(match (halted[i], plan.entries[i]) {
            (QueueEntry::Block(a), QueueEntry::Block(b)) => a == (Block {
                ends_at_rest: a.ends_at_rest,
                ..b
            }) && (b.ends_at_rest ==> a.ends_at_rest),
            (QueueEntry::Command(a), QueueEntry::Command(b)) => a == b,
            _ => false,
        });
    }
    law_stops_are_kept(halted, plan.carry_over, i);
    law_planning_keeps_the_entries(halted, plan.carry_over);
    assert(same_but_speeds(replanned(halted, plan.carry_over)[i], halted[i]));
}

} // verus!
