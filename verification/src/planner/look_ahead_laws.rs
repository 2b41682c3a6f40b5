//! What the look-ahead gives: the fastest speeds that the machine can keep, and the
//! same ones however often it is run.
use vstd::prelude::*;
use crate::double::Double;
use crate::order::law_sum_keeps_order;
use super::Plan;
use super::block::Block;
use super::laws::all_sound;
use super::laws::feasible;
use super::laws::halts_at;
use super::laws::law_blocks_meet_at_one_speed;
use super::laws::law_planning_keeps_the_entries;
use super::laws::lemma_ceiling_not_negative;
use super::laws::lemma_no_block_no_speed;
use super::laws::lemma_settled_feasible;
use super::laws::lemma_sum_not_negative;
use super::laws::not_negative;
use super::laws::same_but_speeds;
use super::laws::sound;
use super::laws::steady;
use super::limits::MachineLimits;
use super::position::Position;
use super::queue::QueueEntry;
use super::queue::entry_ceiling;
use super::queue::has_block;
use super::queue::lemma_stopped_at;
use super::queue::lemma_stopped_commands;
use super::queue::replanned;
use super::queue::settled;
use super::queue::stopped;

verus! {

// ---- planning again ----

/// The same entries, but for the speeds at the ends of blocks.
pub open spec fn all_same_but_speeds<C>(a: Seq<QueueEntry<C>>, b: Seq<QueueEntry<C>>) -> bool {
    &&& a.len() == b.len()
    &&& forall|i: int| 0 <= i < a.len() ==> same_but_speeds(#[trigger] a[i], b[i])
}

proof fn lemma_same_rest<C>(a: Seq<QueueEntry<C>>, b: Seq<QueueEntry<C>>)
    requires
        all_same_but_speeds(a, b),
        a.len() > 0,
    ensures
        all_same_but_speeds(a.drop_first(), b.drop_first()),
        same_but_speeds(a.first(), b.first()),
{
    assert forall|i: int| 0 <= i < a.len() - 1 implies same_but_speeds(
        #[trigger] a.drop_first()[i],
        b.drop_first()[i],
    ) by {
        assert(same_but_speeds(a[i + 1], b[i + 1]));
    }
    assert(same_but_speeds(a[0], b[0]));
}

proof fn lemma_same_has_block<C>(a: Seq<QueueEntry<C>>, b: Seq<QueueEntry<C>>)
    requires
        all_same_but_speeds(a, b),
    ensures
        has_block(a) == has_block(b),
{
    if has_block(a) {
        let i = choose|i: int| 0 <= i < a.len() && #[trigger] a[i] is Block;
        assert(same_but_speeds(a[i], b[i]));
        assert(b[i] is Block);
    }
    if has_block(b) {
        let i = choose|i: int| 0 <= i < b.len() && #[trigger] b[i] is Block;
        assert(same_but_speeds(a[i], b[i]));
        assert(a[i] is Block);
    }
}

proof fn lemma_same_ceiling<C>(a: Seq<QueueEntry<C>>, b: Seq<QueueEntry<C>>)
    requires
        all_same_but_speeds(a, b),
    ensures
        entry_ceiling(a) == entry_ceiling(b),
    decreases a.len(),
{
    if a.len() > 0 {
        lemma_same_rest(a, b);
        lemma_same_ceiling(a.drop_first(), b.drop_first());
    }
}

/// The speeds that planning settles do not depend on those that were there before.
pub proof fn law_planning_forgets_old_speeds<C>(
    a: Seq<QueueEntry<C>>,
    b: Seq<QueueEntry<C>>,
    incoming: Double,
)
    requires
        all_same_but_speeds(a, b),
    ensures
        replanned(a, incoming) == replanned(b, incoming),
    decreases a.len(),
{
    if a.len() > 0 {
        lemma_same_rest(a, b);
        lemma_same_ceiling(a, b);
        lemma_same_ceiling(a.drop_first(), b.drop_first());
        lemma_same_has_block(a.drop_first(), b.drop_first());
        let next = match a.first() {
            QueueEntry::Block(block) => settled(a, block, incoming).exit_speed_sqr,
            QueueEntry::Command(_) => incoming,
        };
        law_planning_forgets_old_speeds(a.drop_first(), b.drop_first(), next);
    } else {
        assert(a == b);
    }
}

/// To plan once more changes nothing.
pub proof fn law_planning_twice_is_planning_once<C>(entries: Seq<QueueEntry<C>>, incoming: Double)
    ensures
        replanned(replanned(entries, incoming), incoming) == replanned(entries, incoming),
{
    law_planning_keeps_the_entries(entries, incoming);
    law_planning_forgets_old_speeds(replanned(entries, incoming), entries, incoming);
}

/// The speeds of a plan are the ones that planning settles.
pub open spec fn planned<C>(plan: Plan<C>) -> bool {
    plan.entries == replanned(plan.entries, plan.carry_over)
}

proof fn lemma_command_behind<C>(entries: Seq<QueueEntry<C>>, incoming: Double, command: C)
    ensures
        replanned(entries.push(QueueEntry::Command(command)), incoming) == replanned(
            entries,
            incoming,
        ).push(QueueEntry::Command(command)),
        entry_ceiling(entries.push(QueueEntry::Command(command))) == entry_ceiling(entries),
        has_block(entries.push(QueueEntry::Command(command))) == has_block(entries),
    decreases entries.len(),
{
    let longer = entries.push(QueueEntry::Command(command));
    if has_block(entries) {
        let i = choose|i: int| 0 <= i < entries.len() && #[trigger] entries[i] is Block;
        assert(longer[i] is Block);
    }
    if has_block(longer) {
        let i = choose|i: int| 0 <= i < longer.len() && #[trigger] longer[i] is Block;
        assert(entries[i] is Block);
    }
    if entries.len() == 0 {
        assert(longer.drop_first() == entries);
        assert(replanned(longer, incoming) == seq![longer.first()] + replanned(entries, incoming));
        assert(replanned(longer, incoming) == replanned(entries, incoming).push(longer.first()));
    } else {
        let rest = entries.drop_first();
        assert(longer.drop_first() == rest.push(QueueEntry::Command(command)));
        assert(longer.first() == entries.first());
        let next = match entries.first() {
            QueueEntry::Block(block) => settled(entries, block, incoming).exit_speed_sqr,
            QueueEntry::Command(_) => incoming,
        };
        lemma_command_behind(rest, next, command);
        law_planning_keeps_the_entries(rest, next);
        assert(replanned(longer, incoming) == replanned(entries, incoming).push(
            QueueEntry::Command(command),
        ));
    }
}

/// Moves keep the speeds of a plan settled.
pub proof fn law_moves_stay_planned<C>(
    plan: Plan<C>,
    capacity: usize,
    limits: MachineLimits<3>,
    start: Position,
    target: Position,
    feed_rate: Double,
    is_rapid: bool,
)
    requires
        planned(plan),
    ensures
        planned(plan.with_move(capacity, limits, start, target, feed_rate, is_rapid).0),
{
    let block = Block::of_move(start, target, feed_rate, is_rapid, limits, plan.last_unit_vector);
    law_planning_twice_is_planning_once(
        plan.entries.push(QueueEntry::Block(block)),
        plan.carry_over,
    );
}

/// So do the moves of a path, such as that of an arc.
pub proof fn law_paths_stay_planned<C>(
    plan: Plan<C>,
    capacity: usize,
    limits: MachineLimits<3>,
    points: Seq<Position>,
    feed_rate: Double,
    is_rapid: bool,
)
    requires
        planned(plan),
    ensures
        planned(plan.with_path(capacity, limits, points, feed_rate, is_rapid).0),
    decreases points.len(),
{
    if points.len() > 1 {
        let shorter = points.drop_last();
        law_paths_stay_planned(plan, capacity, limits, shorter, feed_rate, is_rapid);
        law_moves_stay_planned(
            plan.with_path(capacity, limits, shorter, feed_rate, is_rapid).0,
            capacity,
            limits,
            points[points.len() - 2],
            points[points.len() - 1],
            feed_rate,
            is_rapid,
        );
    }
}

/// A planner starts with its speeds settled, and commands, flushes and taking out the
/// oldest entry keep them so.
pub proof fn law_other_steps_stay_planned<C>(plan: Plan<C>, capacity: usize, command: C)
    requires
        planned(plan),
    ensures
        planned(Plan::<C>::empty()),
        planned(plan.with_command(capacity, command).0),
        planned(plan.flushed()),
        plan.entries.len() > 0 ==> planned(plan.popped()),
{
    lemma_command_behind(plan.entries, plan.carry_over, command);
    law_planning_twice_is_planning_once(stopped(plan.entries), plan.carry_over);
    if plan.entries.len() > 0 {
        let rest = plan.entries.drop_first();
        let next = match plan.entries.first() {
            QueueEntry::Block(block) => settled(
                plan.entries,
                block,
                plan.carry_over,
            ).exit_speed_sqr,
            QueueEntry::Command(_) => plan.carry_over,
        };
        law_planning_keeps_the_entries(rest, next);
        assert(replanned(plan.entries, plan.carry_over).drop_first() == replanned(rest, next));
        assert(plan.entries.first() == replanned(plan.entries, plan.carry_over).first());
    }
}

/// Behind a block at the end of which the machine stops, the next one starts from
/// rest.
pub proof fn law_motion_resumes_from_rest<C>(plan: Plan<C>, i: int, j: int)
    requires
        planned(plan),
        steady(plan),
        halts_at(plan, i),
        i < j < plan.entries.len(),
        plan.entries[j] is Block,
        forall|k: int| i < k < j ==> #[trigger] plan.entries[k] is Command,
    ensures
        plan.entries[j]->Block_0.entry_speed_sqr == Double::nought(),
{
    law_blocks_meet_at_one_speed(plan.entries, plan.carry_over, i, j);
}

// ---- flushes ----

proof fn lemma_commands_replanned<C>(entries: Seq<QueueEntry<C>>, incoming: Double)
    requires
        !has_block(entries),
    ensures
        replanned(entries, incoming) == entries,
    decreases entries.len(),
{
    if entries.len() > 0 {
        let rest = entries.drop_first();
        assert(!(entries[0] is Block));
        assert(!has_block(rest)) by {
            assert forall|k: int| 0 <= k < rest.len() implies !(#[trigger] rest[k] is Block) by {
                assert(rest[k] == entries[k + 1]);
            }
        }
        lemma_commands_replanned(rest, incoming);
        assert(seq![entries.first()] + rest == entries);
    }
}

/// A block as a flush leaves it, the newest of all.
pub open spec fn at_rest(block: Block) -> Block {
    Block { exit_speed_sqr: Double::nought(), ends_at_rest: true, ..block }
}

proof fn lemma_stop_at_the_end<C>(entries: Seq<QueueEntry<C>>, incoming: Double, i: int)
    requires
        0 <= i < entries.len(),
        entries[i] is Block,
        forall|k: int| i < k < entries.len() ==> #[trigger] entries[k] is Command,
    ensures
        has_block(stopped(entries)) == has_block(entries),
        entry_ceiling(stopped(entries)) == entry_ceiling(entries),
        replanned(entries, incoming).len() == entries.len(),
        replanned(entries, incoming)[i] is Block,
        replanned(stopped(entries), incoming) == replanned(entries, incoming).update(
            i,
            QueueEntry::Block(at_rest(replanned(entries, incoming)[i]->Block_0)),
        ),
    decreases entries.len(),
{
    let halted = stopped(entries);
    lemma_stopped_at(entries, i);
    law_planning_keeps_the_entries(entries, incoming);
    law_planning_keeps_the_entries(halted, incoming);
    assert(halted[i] is Block);
    assert(same_but_speeds(replanned(entries, incoming)[i], entries[i]));
    let rest = entries.drop_first();
    let marked = QueueEntry::<C>::Block(Block { ends_at_rest: true, ..entries[i]->Block_0 });
    if i == 0 {
        assert(halted.drop_first() == rest);
        assert(!has_block(rest)) by {
            assert forall|k: int| 0 <= k < rest.len() implies !(#[trigger] rest[k] is Block) by {
                assert(rest[k] == entries[k + 1]);
            }
        }
        lemma_no_block_no_speed(rest);
        let block = entries[0]->Block_0;
        let next = settled(entries, block, incoming).exit_speed_sqr;
        lemma_commands_replanned(rest, next);
        lemma_commands_replanned(rest, Double::nought());
        let done = settled(halted, halted[0]->Block_0, incoming);
        assert(done == at_rest(settled(entries, block, incoming)));
        assert(replanned(halted, incoming) == seq![QueueEntry::Block(done)] + rest);
        assert(replanned(entries, incoming) == seq![
            QueueEntry::Block(settled(entries, block, incoming)),
        ] + rest);
        assert(replanned(halted, incoming) == replanned(entries, incoming).update(
            0,
            QueueEntry::Block(at_rest(replanned(entries, incoming)[0]->Block_0)),
        ));
    } else {
        assert(rest[i - 1] == entries[i]);
        assert forall|k: int| i - 1 < k < rest.len() implies #[trigger] rest[k] is Command by {
            assert(rest[k] == entries[k + 1]);
        }
        lemma_stopped_at(rest, i - 1);
        assert(halted.drop_first() == rest.update(i - 1, marked));
        assert(halted.drop_first() == stopped(rest));
        assert(halted.first() == entries.first());
        let next = match entries.first() {
            QueueEntry::Block(block) => settled(entries, block, incoming).exit_speed_sqr,
            QueueEntry::Command(_) => incoming,
        };
        lemma_stop_at_the_end(rest, next, i - 1);
        law_planning_keeps_the_entries(rest, next);
        let first = replanned(entries, incoming)[0];
        assert(replanned(entries, incoming) == seq![first] + replanned(rest, next));
        assert(replanned(halted, incoming) == seq![first] + replanned(stopped(rest), next));
        assert(replanned(entries, incoming)[i] == replanned(rest, next)[i - 1]);
        assert(replanned(halted, incoming) == replanned(entries, incoming).update(
            i,
            QueueEntry::Block(at_rest(replanned(entries, incoming)[i]->Block_0)),
        ));
    }
}

/// A flush makes the newest block end at rest and changes nothing else: not the speed
/// at which that block is entered, nor any other block. The look-ahead had kept room
/// for the stop all along.
pub proof fn law_flush_changes_only_the_newest_exit<C>(plan: Plan<C>, i: int)
    requires
        planned(plan),
        0 <= i < plan.entries.len(),
        plan.entries[i] is Block,
        forall|k: int| i < k < plan.entries.len() ==> #[trigger] plan.entries[k] is Command,
    ensures
        plan.flushed() == (Plan {
            entries: plan.entries.update(
                i,
                QueueEntry::Block(at_rest(plan.entries[i]->Block_0)),
            ),
            ..plan
        }),
{
    lemma_stop_at_the_end(plan.entries, plan.carry_over, i);
}

/// Without a block in the queue, a flush changes nothing.
pub proof fn law_flush_without_a_block_does_nothing<C>(plan: Plan<C>)
    requires
        !has_block(plan.entries),
    ensures
        plan.flushed() == plan,
{
    assert forall|k: int| 0 <= k < plan.entries.len() implies #[trigger] plan.entries[k] is Command by {
        assert(!(plan.entries[k] is Block));
    }
    lemma_stopped_commands(plan.entries);
    lemma_commands_replanned(plan.entries, plan.carry_over);
}

/// The place of the newest block.
proof fn lemma_newest_block<C>(entries: Seq<QueueEntry<C>>) -> (i: int)
    requires
        has_block(entries),
    ensures
        0 <= i < entries.len(),
        entries[i] is Block,
        forall|k: int| i < k < entries.len() ==> #[trigger] entries[k] is Command,
    decreases entries.len(),
{
    if entries.last() is Block {
        entries.len() - 1
    } else {
        let shorter = entries.drop_last();
        let i = choose|i: int| 0 <= i < entries.len() && #[trigger] entries[i] is Block;
        assert(shorter[i] is Block);
        let n = lemma_newest_block(shorter);
        assert(entries[n] == shorter[n]);
        assert forall|k: int| n < k < entries.len() implies #[trigger] entries[k] is Command by {
            if k < shorter.len() {
                assert(shorter[k] is Command);
            }
        }
        n
    }
}

/// A second flush changes nothing.
pub proof fn law_flushing_twice_is_flushing_once<C>(plan: Plan<C>)
    ensures
        plan.flushed().flushed() == plan.flushed(),
{
    let flushed = plan.flushed();
    law_planning_twice_is_planning_once(stopped(plan.entries), plan.carry_over);
    if has_block(plan.entries) {
        let i = lemma_newest_block(plan.entries);
        lemma_stopped_at(plan.entries, i);
        let halted = stopped(plan.entries);
        law_planning_keeps_the_entries(halted, plan.carry_over);
        assert(same_but_speeds(flushed.entries[i], halted[i]));
        assert forall|k: int| i < k < flushed.entries.len() implies #[trigger] flushed.entries[k] is Command by {
            assert(same_but_speeds(flushed.entries[k], halted[k]));
            assert(plan.entries[k] is Command);
        }
        lemma_stopped_at(flushed.entries, i);
        assert(stopped(flushed.entries) == flushed.entries);
    } else {
        law_flush_without_a_block_does_nothing(plan);
    }
}

// ---- the fastest speeds ----

/// The square of the speed at which the first block of these is entered.
pub open spec fn first_entry<C>(entries: Seq<QueueEntry<C>>) -> Double
    decreases entries.len(),
{
    if entries.len() == 0 {
        Double::nought()
    } else {
        match entries.first() {
            QueueEntry::Block(block) => block.entry_speed_sqr,
            QueueEntry::Command(_) => first_entry(entries.drop_first()),
        }
    }
}

/// Speeds that the machine can have all along these entries, when it comes in at
/// `incoming` at most: each block can keep its own, blocks that follow each other meet
/// at one, and in the last one the machine can still stop.
pub open spec fn admissible<C>(entries: Seq<QueueEntry<C>>, incoming: Double) -> bool
    decreases entries.len(),
{
    entries.len() == 0 || {
        let rest = entries.drop_first();
        match entries.first() {
            QueueEntry::Block(block) => {
                &&& feasible(block)
                &&& block.entry_speed_sqr.at_most(incoming)
                &&& if has_block(rest) {
                    block.exit_speed_sqr.at_most(first_entry(rest))
                } else {
                    block.entry_speed_sqr.at_most(Double::nought() + block.speed_change())
                }
                &&& admissible(rest, block.exit_speed_sqr)
            },
            QueueEntry::Command(_) => admissible(rest, incoming),
        }
    }
}

proof fn lemma_sound_rest<C>(entries: Seq<QueueEntry<C>>)
    requires
        all_sound(entries),
        entries.len() > 0,
    ensures
        all_sound(entries.drop_first()),
{
    let rest = entries.drop_first();
    assert forall|k: int| 0 <= k < rest.len() implies (#[trigger] rest[k] matches QueueEntry::Block(
        b,
    ) ==> sound(b)) by {
        assert(rest[k] == entries[k + 1]);
    }
}

proof fn lemma_sum_monotone(a: Double, b: Double, c: Double)
    requires
        a.at_most(b),
        not_negative(a),
        not_negative(b),
        not_negative(c),
    ensures
        (a + c).at_most(b + c),
{
    lemma_sum_not_negative(a, c);
    lemma_sum_not_negative(b, c);
    law_sum_keeps_order(a, b, c);
}

/// A command in front is not a block.
proof fn lemma_command_in_front<C>(entries: Seq<QueueEntry<C>>)
    requires
        entries.len() > 0,
        entries.first() is Command,
    ensures
        has_block(entries) == has_block(entries.drop_first()),
{
    let rest = entries.drop_first();
    if has_block(entries) {
        let i = choose|i: int| 0 <= i < entries.len() && #[trigger] entries[i] is Block;
        assert(rest[i - 1] is Block);
    }
    if has_block(rest) {
        let i = choose|i: int| 0 <= i < rest.len() && #[trigger] rest[i] is Block;
        assert(entries[i + 1] is Block);
    }
}

proof fn lemma_below_ceiling<C>(entries: Seq<QueueEntry<C>>, incoming: Double)
    requires
        admissible(entries, incoming),
        all_sound(entries),
        has_block(entries),
    ensures
        first_entry(entries).at_most(entry_ceiling(entries)),
    decreases entries.len(),
{
    let rest = entries.drop_first();
    lemma_sound_rest(entries);
    match entries.first() {
        QueueEntry::Command(_) => {
            lemma_command_in_front(entries);
            lemma_below_ceiling(rest, incoming);
        },
        QueueEntry::Block(block) => {
            assert(entries[0] == QueueEntry::<C>::Block(block));
            let change = block.speed_change();
            lemma_sum_not_negative(block.exit_speed_sqr, change);
            lemma_ceiling_not_negative(rest);
            if block.ends_at_rest {
            } else if has_block(rest) {
                lemma_below_ceiling(rest, block.exit_speed_sqr);
                lemma_sum_monotone(block.exit_speed_sqr, entry_ceiling(rest), change);
            } else {
                lemma_no_block_no_speed(rest);
            }
        },
    }
}

/// The speeds that planning settles are the fastest that there are: whatever speeds
/// the machine could have along the same entries, at both ends of every block it has
/// at least these.
pub proof fn law_plan_is_the_fastest<C>(
    entries: Seq<QueueEntry<C>>,
    incoming: Double,
    other: Seq<QueueEntry<C>>,
    other_incoming: Double,
)
    requires
        all_sound(entries),
        not_negative(incoming),
        all_same_but_speeds(other, entries),
        admissible(other, other_incoming),
        other_incoming.at_most(incoming),
    ensures
        forall|i: int|
            0 <= i < entries.len() && other[i] is Block ==> {
                let settled = (#[trigger] replanned(entries, incoming)[i])->Block_0;
                &&& other[i]->Block_0.entry_speed_sqr.at_most(settled.entry_speed_sqr)
                &&& other[i]->Block_0.exit_speed_sqr.at_most(settled.exit_speed_sqr)
            },
    decreases entries.len(),
{
    if entries.len() > 0 {
        let rest = entries.drop_first();
        let other_rest = other.drop_first();
        lemma_same_rest(other, entries);
        lemma_sound_rest(entries);
        lemma_same_has_block(other_rest, rest);
        lemma_same_ceiling(other, entries);
        lemma_same_ceiling(other_rest, rest);
        law_planning_keeps_the_entries(entries, incoming);
        assert(all_sound(other)) by {
            assert forall|k: int| 0 <= k < other.len() implies (#[trigger] other[k] matches QueueEntry::Block(
                b,
            ) ==> sound(b)) by {
                assert(same_but_speeds(other[k], entries[k]));
                assert(entries[k] matches QueueEntry::Block(b) ==> sound(b));
            }
        }
        let (next, other_next) = match (entries.first(), other.first()) {
            (QueueEntry::Block(block), QueueEntry::Block(b)) => {
                let done = settled(entries, block, incoming);
                assert(entries[0] == QueueEntry::<C>::Block(block));
                assert(other[0] == QueueEntry::<C>::Block(b));
                assert(has_block(other));
                lemma_settled_feasible(entries, block, incoming);
                lemma_below_ceiling(other, other_incoming);
                lemma_ceiling_not_negative(rest);
                lemma_ceiling_not_negative(entries);
                let change = block.speed_change();
                assert(b.speed_change() == change);
                lemma_sum_monotone(b.entry_speed_sqr, done.entry_speed_sqr, change);
                if has_block(rest) {
                    lemma_sound_rest(other);
                    lemma_below_ceiling(other_rest, b.exit_speed_sqr);
                }
                (done.exit_speed_sqr, b.exit_speed_sqr)
            },
            _ => (incoming, other_incoming),
        };
        law_plan_is_the_fastest(rest, next, other_rest, other_next);
        law_planning_keeps_the_entries(rest, next);
        let all = replanned(entries, incoming);
        let later = replanned(rest, next);
        assert forall|i: int| 0 <= i < entries.len() && other[i] is Block implies {
            let settled = (#[trigger] all[i])->Block_0;
            &&& other[i]->Block_0.entry_speed_sqr.at_most(settled.entry_speed_sqr)
            &&& other[i]->Block_0.exit_speed_sqr.at_most(settled.exit_speed_sqr)
        } by {
            if i > 0 {
                assert(all[i] == later[i - 1]);
                assert(other_rest[i - 1] == other[i]);
            }
        }
    }
}

proof fn lemma_replanned_entry<C>(entries: Seq<QueueEntry<C>>, incoming: Double)
    requires
        has_block(entries),
    ensures
        first_entry(replanned(entries, incoming)) == entry_ceiling(entries).lesser(incoming),
    decreases entries.len(),
{
    law_planning_keeps_the_entries(entries, incoming);
    let plan = replanned(entries, incoming);
    if let QueueEntry::Command(_) = entries.first() {
        lemma_command_in_front(entries);
        lemma_replanned_entry(entries.drop_first(), incoming);
        assert(plan.drop_first() == replanned(entries.drop_first(), incoming));
    }
}

/// And they are speeds that the machine can have.
pub proof fn law_plan_is_admissible<C>(entries: Seq<QueueEntry<C>>, incoming: Double)
    requires
        all_sound(entries),
        not_negative(incoming),
    ensures
        admissible(replanned(entries, incoming), incoming),
    decreases entries.len(),
{
    if entries.len() > 0 {
        let rest = entries.drop_first();
        lemma_sound_rest(entries);
        let next = match entries.first() {
            QueueEntry::Block(block) => {
                assert(entries[0] == QueueEntry::<C>::Block(block));
                lemma_settled_feasible(entries, block, incoming);
                settled(entries, block, incoming).exit_speed_sqr
            },
            QueueEntry::Command(_) => incoming,
        };
        law_plan_is_admissible(rest, next);
        law_planning_keeps_the_entries(rest, next);
        let plan = replanned(entries, incoming);
        let later = replanned(rest, next);
        assert(plan.drop_first() == later);
        lemma_same_has_block(later, rest);
        lemma_ceiling_not_negative(rest);
        lemma_ceiling_not_negative(entries);
        if let QueueEntry::Block(block) = entries.first() {
            if has_block(rest) {
                lemma_replanned_entry(rest, next);
            } else {
                lemma_no_block_no_speed(rest);
                lemma_sum_not_negative(Double::nought(), block.speed_change());
            }
        }
    }
}

} // verus!
