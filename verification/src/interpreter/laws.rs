//! What holds of every line and every program.
use vstd::prelude::*;
use crate::double::Double;
use crate::order::exact_difference;
use crate::order::lemma_sum_of_units;
use super::line::Event;
use super::line::Line;
use super::line::code_group;
use super::line::mode_of;
use super::meaning::CannedCycleWords;
use super::meaning::Hole;
use super::meaning::Outcome;
use super::meaning::Progress;
use super::meaning::bites;
use super::meaning::bottom_action;
use super::meaning::cycle_trace;
use super::meaning::linear;
use super::meaning::rapid;
use super::modal_groups::ModalGroup;
use super::motion::MotionMode;
use super::motion::ResolvedMotionCommand;
use super::sink::Emission;
use super::sink::LineOutput;
use super::state::ModalState;
use super::state::Position;

verus! {

// ---- the path ----

/// The move that is handed out, if it is one.
pub open spec fn as_motion(e: Emission) -> Option<ResolvedMotionCommand> {
    match e {
        Emission::Output(LineOutput::Motion(m)) => Some(m),
        _ => None,
    }
}

/// Where the moves of a trace lead from `from`.
pub open spec fn end_of(trace: Seq<Emission>, from: Position) -> Position
    decreases trace.len(),
{
    if trace.len() == 0 {
        from
    } else {
        match as_motion(trace.last()) {
            Some(m) => m.target,
            None => end_of(trace.drop_last(), from),
        }
    }
}

/// Each move of a trace starts where the one before it ends, the first at `from`.
pub open spec fn connected(trace: Seq<Emission>, from: Position) -> bool
    decreases trace.len(),
{
    trace.len() == 0 || {
        &&& connected(trace.drop_last(), from)
        &&& as_motion(trace.last()) matches Some(m) ==> m.start == end_of(trace.drop_last(), from)
    }
}

/// The path of a trace that leads from one position to another.
pub open spec fn leads(trace: Seq<Emission>, from: Position, to: Position) -> bool {
    connected(trace, from) && end_of(trace, from) == to
}

proof fn lemma_leads_concat(
    first: Seq<Emission>,
    second: Seq<Emission>,
    from: Position,
    via: Position,
    to: Position,
)
    requires
        leads(first, from, via),
        leads(second, via, to),
    ensures
        leads(first + second, from, to),
    decreases second.len(),
{
    if second.len() == 0 {
        assert(first + second == first);
    } else {
        let all = first + second;
        assert(all.drop_last() == first + second.drop_last());
        lemma_leads_concat(
            first,
            second.drop_last(),
            from,
            via,
            end_of(second.drop_last(), via),
        );
    }
}

/// A single move.
proof fn lemma_leads_one(m: Emission, from: Position, to: Position)
    requires
        as_motion(m) matches Some(c) && c.start == from && c.target == to,
    ensures
        leads(seq![m], from, to),
{
    let one = seq![m];
    assert(one.drop_last() == Seq::<Emission>::empty());
    reveal_with_fuel(connected, 2);
    reveal_with_fuel(end_of, 2);
}

/// No move at all.
proof fn lemma_leads_nowhere(trace: Seq<Emission>, at: Position)
    requires
        forall|i: int| 0 <= i < trace.len() ==> as_motion(#[trigger] trace[i]) is None,
    ensures
        leads(trace, at, at),
    decreases trace.len(),
{
    if trace.len() > 0 {
        let rest = trace.drop_last();
        assert forall|i: int| 0 <= i < rest.len() implies as_motion(#[trigger] rest[i]) is None by {
            assert(rest[i] == trace[i]);
        }
        lemma_leads_nowhere(rest, at);
        assert(as_motion(trace[trace.len() - 1]) is None);
    }
}

proof fn lemma_pecks_lead(hole: Hole, depths: Seq<Double>)
    requires
        depths.len() > 0,
    ensures
        leads(hole.pecks(depths), hole.at(hole.r), hole.bitten(depths.last())),
    decreases depths.len(),
{
    let before = depths.drop_last();
    let at_r = hole.at(hole.r);
    let down = linear(at_r, hole.bitten(depths.last()), hole.feed_rate);
    lemma_leads_one(down, at_r, hole.bitten(depths.last()));
    if before.len() == 0 {
        assert(hole.pecks(before) + Seq::<Emission>::empty() + seq![down] == seq![down]);
    } else {
        lemma_pecks_lead(hole, before);
        let bottom = hole.bitten(before.last());
        let up = rapid(bottom, at_r, hole.feed_rate);
        lemma_leads_one(up, bottom, at_r);
        lemma_leads_concat(hole.pecks(before), seq![up], at_r, bottom, at_r);
        lemma_leads_concat(
            hole.pecks(before) + seq![up],
            seq![down],
            at_r,
            at_r,
            hole.bitten(depths.last()),
        );
    }
}

proof fn lemma_cycle_leads(
    start: Position,
    hole: Hole,
    kind: MotionMode,
    depths: Seq<Double>,
    p: Option<Double>,
    return_to_initial: bool,
)
    requires
        kind is PeckDrill ==> depths.len() > 0,
    ensures
        leads(
            cycle_trace(start, hole, kind, depths, p, return_to_initial),
            start,
            hole.retracted(return_to_initial),
        ),
{
    let above = hole.at(start.z);
    let at_r = hole.at(hole.r);
    let first = rapid(start, above, hole.feed_rate);
    let second = rapid(above, at_r, hole.feed_rate);
    lemma_leads_one(first, start, above);
    lemma_leads_one(second, above, at_r);
    lemma_leads_concat(seq![first], seq![second], start, above, at_r);
    assert(seq![first] + seq![second] == seq![first, second]);
    let deepest = if kind is PeckDrill {
        hole.bitten(depths.last())
    } else {
        hole.at(hole.bottom)
    };
    let cut = if kind is PeckDrill {
        hole.pecks(depths)
    } else {
        seq![linear(at_r, hole.at(hole.bottom), hole.feed_rate)]
    };
    if kind is PeckDrill {
        lemma_pecks_lead(hole, depths);
    } else {
        lemma_leads_one(linear(at_r, deepest, hole.feed_rate), at_r, deepest);
    }
    lemma_leads_concat(seq![first, second], cut, start, at_r, deepest);
    lemma_leads_nowhere(bottom_action(kind, p), deepest);
    lemma_leads_concat(
        seq![first, second] + cut,
        bottom_action(kind, p),
        start,
        deepest,
        deepest,
    );
    let out = hole.retracted(return_to_initial);
    let retract = if kind is BoreFeedOut || kind is BoreDwellFeedOut {
        linear(deepest, out, hole.feed_rate)
    } else {
        rapid(deepest, out, hole.feed_rate)
    };
    lemma_leads_one(retract, deepest, out);
    lemma_leads_concat(
        seq![first, second] + cut + bottom_action(kind, p),
        seq![retract],
        start,
        deepest,
        out,
    );
}

/// There is at least one bite.
proof fn lemma_bites_some(travelled: Double, q: Double, total: Double)
    ensures
        bites(travelled, q, total) matches Some(depths) ==> depths.len() > 0,
{
}

proof fn lemma_motion_leads(state: ModalState, line: Line)
    ensures
        leads(
            state.after_motion(line).trace,
            state.position,
            state.after_motion(line).state.position,
        ),
{
    let mode = line.mode(state);
    let outcome = state.after_motion(line);
    if line.moves(state) && !(mode is Inactive) {
        if mode.canned_cycle() {
            let words = line.cycle_words();
            if state.cycle_error(mode, words) is None {
                let depths = match state.cycle_bites(words) {
                    Some(depths) => depths,
                    None => Seq::empty(),
                };
                if let Some(q) = state.cycle_params(words).q {
                    lemma_bites_some(Double::nought(), q, state.hole(words).depth());
                }
                lemma_cycle_leads(
                    state.position,
                    state.hole(words),
                    mode,
                    depths,
                    state.cycle_params(words).p,
                    state.canned_cycle_return_to_initial_z,
                );
            } else {
                lemma_leads_nowhere(outcome.trace, state.position);
            }
        } else {
            let target = state.target(line.x, line.y, line.z, line.machine_coordinates);
            if mode.arc() && state.line_center(line, mode, target) is Err {
                lemma_leads_nowhere(outcome.trace, state.position);
            } else {
                lemma_leads_one(outcome.trace[0], state.position, target);
                assert(outcome.trace == seq![outcome.trace[0]]);
            }
        }
    } else {
        lemma_leads_nowhere(outcome.trace, state.position);
    }
}

/// The moves of a line form one path: the first starts at the position that the
/// line finds, each starts where the one before it ended, and the last ends at
/// the position that the line leaves. Where there is no move, the position stays.
pub proof fn law_moves_of_a_line_connect(state: ModalState, line: Line)
    ensures
        leads(
            state.after_line(line).trace,
            state.position,
            state.after_line(line).state.position,
        ),
{
    reveal(ModalState::after_line);
    let fed = state.after_feed(line);
    let moved = fed.after_motion(line);
    let commanded = moved.state.after_machine_words(line);
    let tooled = commanded.state.after_tool_words(line);
    let shifted = tooled.state.after_shift(line);
    let homed = shifted.after_homing(line);
    let at = moved.state.position;
    lemma_motion_leads(fed, line);
    lemma_leads_nowhere(commanded.trace, at);
    lemma_leads_concat(moved.trace, commanded.trace, state.position, at, at);
    lemma_leads_nowhere(tooled.trace, at);
    lemma_leads_concat(moved.trace + commanded.trace, tooled.trace, state.position, at, at);
    match line.home_request {
        None => {
            lemma_leads_nowhere(homed.trace, at);
            lemma_leads_concat(
                moved.trace + commanded.trace + tooled.trace,
                homed.trace,
                state.position,
                at,
                at,
            );
        },
        Some(reference) => {
            let home = shifted.home(reference);
            let via = shifted.target(line.x, line.y, line.z, false);
            if line.has_axis_word() {
                let one = rapid(at, via, shifted.feed_rate);
                let two = rapid(via, home, shifted.feed_rate);
                lemma_leads_one(one, at, via);
                lemma_leads_one(two, via, home);
                lemma_leads_concat(seq![one], seq![two], at, via, home);
                assert(seq![one] + seq![two] == homed.trace);
            } else {
                lemma_leads_one(rapid(at, home, shifted.feed_rate), at, home);
            }
            lemma_leads_concat(
                moved.trace + commanded.trace + tooled.trace,
                homed.trace,
                state.position,
                at,
                home,
            );
        },
    }
}

/// The moves of a whole program form one path, from the position at its start to
/// the position at its end.
pub proof fn law_moves_of_a_program_connect(state: ModalState, events: Seq<Event>)
    ensures
        leads(
            Progress::fresh(state).after_all(events).trace,
            state.position,
            Progress::fresh(state).after_all(events).state.position,
        ),
    decreases events.len(),
{
    let start = Progress::fresh(state);
    if events.len() == 0 {
        lemma_leads_nowhere(start.trace, state.position);
    } else {
        law_moves_of_a_program_connect(state, events.drop_last());
        let at = start.after_all(events.drop_last());
        let next = at.after(events.last());
        reveal(Progress::after);
        if events.last() is EndLine {
            law_moves_of_a_line_connect(at.state, at.line);
            lemma_leads_concat(
                at.trace,
                at.state.after_line(at.line).trace,
                state.position,
                at.state.position,
                next.state.position,
            );
        } else {
            let more = next.trace.skip(at.trace.len() as int);
            assert(next.trace == at.trace + more);
            lemma_leads_nowhere(more, at.state.position);
            lemma_leads_concat(
                at.trace,
                more,
                state.position,
                at.state.position,
                at.state.position,
            );
        }
    }
}

// ---- the kinds of moves ----

/// A move that a planner can run: straight or an arc, and with a center exactly
/// if it is an arc.
pub open spec fn runnable(m: ResolvedMotionCommand) -> bool {
    &&& m.motion_mode is Rapid || m.motion_mode is Linear || m.motion_mode.arc()
    &&& m.arc is Some <==> m.motion_mode.arc()
}

/// Every move of a trace is one that a planner can run.
pub open spec fn all_runnable(trace: Seq<Emission>) -> bool {
    forall|i: int|
        0 <= i < trace.len() ==> (as_motion(#[trigger] trace[i]) matches Some(m) ==> runnable(m))
}

proof fn lemma_runnable_concat(first: Seq<Emission>, second: Seq<Emission>)
    requires
        all_runnable(first),
        all_runnable(second),
    ensures
        all_runnable(first + second),
{
    let all = first + second;
    assert forall|i: int| 0 <= i < all.len() implies (as_motion(#[trigger] all[i]) matches Some(m)
        ==> runnable(m)) by {
        if i < first.len() {
            assert(all[i] == first[i]);
        } else {
            assert(all[i] == second[i - first.len()]);
        }
    }
}

proof fn lemma_pecks_runnable(hole: Hole, depths: Seq<Double>)
    ensures
        all_runnable(hole.pecks(depths)),
    decreases depths.len(),
{
    if depths.len() > 0 {
        lemma_pecks_runnable(hole, depths.drop_last());
    }
}

/// Every move that a line hands out is a rapid move, a straight one or an arc, and
/// it has a center exactly if it is an arc. Canned cycles come out as their legs,
/// and nothing is ever handed out without a motion mode.
pub proof fn law_moves_are_runnable(state: ModalState, line: Line)
    ensures
        all_runnable(state.after_line(line).trace),
{
    reveal(ModalState::after_line);
    let state = state.after_feed(line);
    let moved = state.after_motion(line);
    let commanded = moved.state.after_machine_words(line);
    let tooled = commanded.state.after_tool_words(line);
    let homed = tooled.state.after_shift(line).after_homing(line);
    let mode = line.mode(state);
    assert(all_runnable(moved.trace)) by {
        if line.moves(state) && mode.canned_cycle() {
            let words = line.cycle_words();
            if state.cycle_error(mode, words) is None {
                let hole = state.hole(words);
                let depths = match state.cycle_bites(words) {
                    Some(depths) => depths,
                    None => Seq::empty(),
                };
                lemma_pecks_runnable(hole, depths);
                let above = hole.at(state.position.z);
                let at_r = hole.at(hole.r);
                let approach = seq![
                    rapid(state.position, above, hole.feed_rate),
                    rapid(above, at_r, hole.feed_rate),
                ];
                let cut = if mode is PeckDrill {
                    hole.pecks(depths)
                } else {
                    seq![linear(at_r, hole.at(hole.bottom), hole.feed_rate)]
                };
                let action = bottom_action(mode, state.cycle_params(words).p);
                lemma_runnable_concat(approach, cut);
                lemma_runnable_concat(approach + cut, action);
                assert(all_runnable(moved.trace));
            }
        }
    }
    lemma_runnable_concat(moved.trace, commanded.trace);
    lemma_runnable_concat(moved.trace + commanded.trace, tooled.trace);
    lemma_runnable_concat(moved.trace + commanded.trace + tooled.trace, homed.trace);
}

/// Every move that a whole program hands out is one that a planner can run.
pub proof fn law_moves_of_a_program_are_runnable(state: ModalState, events: Seq<Event>)
    ensures
        all_runnable(Progress::fresh(state).after_all(events).trace),
    decreases events.len(),
{
    if events.len() > 0 {
        law_moves_of_a_program_are_runnable(state, events.drop_last());
        let at = Progress::fresh(state).after_all(events.drop_last());
        let next = at.after(events.last());
        reveal(Progress::after);
        if events.last() is EndLine {
            law_moves_are_runnable(at.state, at.line);
            lemma_runnable_concat(at.trace, at.state.after_line(at.line).trace);
        } else {
            let more = next.trace.skip(at.trace.len() as int);
            assert(next.trace == at.trace + more);
            lemma_runnable_concat(at.trace, more);
        }
    }
}

// ---- lines that cannot be run ----

/// A move that cannot be run is reported, and that is all: no part of it is handed
/// out, and the position and the feed rate stay. So does the motion mode, unless G80 on
/// the line cancels it.
pub proof fn law_failed_move_moves_nothing(state: ModalState, line: Line, i: int)
    requires
        0 <= i < state.after_motion(line).trace.len(),
        state.after_motion(line).trace[i] is Error,
    ensures
        ({
            let outcome = state.after_motion(line);
            &&& outcome.trace.len() == 1
            &&& outcome.state == (ModalState {
                canned_cycle: outcome.state.canned_cycle,
                motion_mode: if line.mode_cancelled && line.mode(state) is Inactive {
                    MotionMode::Inactive
                } else {
                    state.motion_mode
                },
                ..state
            })
        }),
{
    let mode = line.mode(state);
    let words = line.cycle_words();
    if line.moves(state) && mode.canned_cycle() && state.cycle_error(mode, words) is None {
        let depths = match state.cycle_bites(words) {
            Some(depths) => depths,
            None => Seq::empty(),
        };
        lemma_pecks_are_outputs(state.hole(words), depths);
    }
}

pub(crate) proof fn lemma_pecks_are_outputs(hole: Hole, depths: Seq<Double>)
    ensures
        forall|i: int|
            0 <= i < hole.pecks(depths).len() ==> #[trigger] hole.pecks(depths)[i] is Output,
    decreases depths.len(),
{
    if depths.len() > 0 {
        lemma_pecks_are_outputs(hole, depths.drop_last());
    }
}

// ---- modes ----

/// A line without a motion word leaves the motion mode as it was, whatever else is
/// on it: G28 and G30 do not become the mode of the lines after them.
pub proof fn law_motion_mode_is_carried_forward(state: ModalState, line: Line)
    requires
        line.resolved_mode is None,
    ensures
        state.after_line(line).state.motion_mode == state.motion_mode,
{
    reveal(ModalState::after_line);
}

/// A feed rate holds from its own line on, whatever else is on the line and whatever
/// becomes of its move, and one that is not given again stays.
pub proof fn law_feed_rate_is_carried_forward(state: ModalState, line: Line)
    ensures
        state.after_line(line).state.feed_rate == match line.f {
            Some(f) => state.millimeters(f),
            None => state.feed_rate,
        },
{
    reveal(ModalState::after_line);
}

/// Every move of a trace has this feed rate.
pub open spec fn all_fed(trace: Seq<Emission>, feed_rate: Double) -> bool {
    forall|i: int|
        0 <= i < trace.len() ==> (as_motion(#[trigger] trace[i]) matches Some(m) ==> m.feed_rate
            == feed_rate)
}

proof fn lemma_fed_concat(first: Seq<Emission>, second: Seq<Emission>, feed_rate: Double)
    requires
        all_fed(first, feed_rate),
        all_fed(second, feed_rate),
    ensures
        all_fed(first + second, feed_rate),
{
    let all = first + second;
    assert forall|i: int| 0 <= i < all.len() implies (as_motion(#[trigger] all[i]) matches Some(m)
        ==> m.feed_rate == feed_rate) by {
        if i < first.len() {
            assert(all[i] == first[i]);
        } else {
            assert(all[i] == second[i - first.len()]);
        }
    }
}

proof fn lemma_pecks_fed(hole: Hole, depths: Seq<Double>)
    ensures
        all_fed(hole.pecks(depths), hole.feed_rate),
    decreases depths.len(),
{
    if depths.len() > 0 {
        lemma_pecks_fed(hole, depths.drop_last());
    }
}

proof fn lemma_cycle_fed(
    start: Position,
    hole: Hole,
    kind: MotionMode,
    depths: Seq<Double>,
    p: Option<Double>,
    return_to_initial: bool,
)
    ensures
        all_fed(cycle_trace(start, hole, kind, depths, p, return_to_initial), hole.feed_rate),
{
    lemma_pecks_fed(hole, depths);
    let above = hole.at(start.z);
    let at_r = hole.at(hole.r);
    let approach = seq![
        rapid(start, above, hole.feed_rate),
        rapid(above, at_r, hole.feed_rate),
    ];
    let cut = if kind is PeckDrill {
        hole.pecks(depths)
    } else {
        seq![linear(at_r, hole.at(hole.bottom), hole.feed_rate)]
    };
    lemma_fed_concat(approach, cut, hole.feed_rate);
    lemma_fed_concat(approach + cut, bottom_action(kind, p), hole.feed_rate);
}

/// The moves that a line hands out all have the feed rate that the line leaves.
pub proof fn law_moves_have_the_feed_rate(state: ModalState, line: Line)
    ensures
        all_fed(state.after_line(line).trace, state.after_line(line).state.feed_rate),
{
    reveal(ModalState::after_line);
    let fed = state.after_feed(line);
    let feed_rate = fed.feed_rate;
    let moved = fed.after_motion(line);
    let commanded = moved.state.after_machine_words(line);
    let tooled = commanded.state.after_tool_words(line);
    let homed = tooled.state.after_shift(line).after_homing(line);
    let words = line.cycle_words();
    assert(all_fed(moved.trace, feed_rate)) by {
        let depths = match fed.cycle_bites(words) {
            Some(depths) => depths,
            None => Seq::empty(),
        };
        lemma_cycle_fed(
            fed.position,
            fed.hole(words),
            line.mode(fed),
            depths,
            fed.cycle_params(words).p,
            fed.canned_cycle_return_to_initial_z,
        );
    }
    lemma_fed_concat(moved.trace, commanded.trace, feed_rate);
    lemma_fed_concat(moved.trace + commanded.trace, tooled.trace, feed_rate);
    lemma_fed_concat(moved.trace + commanded.trace + tooled.trace, homed.trace, feed_rate);
}

/// G92, G92.1, G28.1 and G30.1 take the axis words of their line for themselves:
/// nothing moves.
pub proof fn law_suppressed_line_does_not_move(state: ModalState, line: Line)
    requires
        line.suppress_motion,
        line.home_request is None,
    ensures
        state.after_line(line).state.position == state.position,
        forall|i: int|
            0 <= i < state.after_line(line).trace.len() ==> as_motion(
                #[trigger] state.after_line(line).trace[i],
            ) is None,
{
    reveal(ModalState::after_line);
}

/// Nothing is lost to rounding where the shift of an axis is found.
pub open spec fn shift_is_exact(at: Double, base: Double, want: Double) -> bool {
    let shift = (at - base) - want;
    &&& exact_difference(at, base)
    &&& exact_difference(at - base, want)
    &&& (base + shift).finite()
    &&& (base + shift).units() == base.units() + shift.units()
}

proof fn lemma_shift_reads_as_given(at: Double, base: Double, want: Double)
    requires
        shift_is_exact(at, base, want),
    ensures
        (want + (base + ((at - base) - want))).same(at),
{
    lemma_sum_of_units(want, base + ((at - base) - want), at);
}

/// After G92 the machine is where it was, and each axis with a word reads as the word
/// says: an absolute move to that value stays put. The axes without a word keep their
/// shift, and the table of offsets stays.
pub proof fn law_shifted_position_reads_as_given(state: ModalState, line: Line)
    requires
        line.g92_requested,
        !line.g92_cancel_requested,
        line.suppress_motion,
        line.home_request is None,
        state.distance_mode is Absolute,
    ensures
        ({
            let after = state.after_line(line).state;
            let at = state.position;
            let base = state.offset_of(state.coordinate_system);
            let put = after.target(line.x, line.y, line.z, false);
            &&& after.position == at
            &&& after.coordinate_system_offsets == state.coordinate_system_offsets
            &&& line.x is None ==> after.g92_offset.x == state.g92_offset.x && put.x == at.x
            &&& line.y is None ==> after.g92_offset.y == state.g92_offset.y && put.y == at.y
            &&& line.z is None ==> after.g92_offset.z == state.g92_offset.z && put.z == at.z
            &&& line.x matches Some(v) ==> (shift_is_exact(
                at.x,
                base.x,
                state.millimeters(v),
            ) ==> put.x.same(at.x))
            &&& line.y matches Some(v) ==> (shift_is_exact(
                at.y,
                base.y,
                state.millimeters(v),
            ) ==> put.y.same(at.y))
            &&& line.z matches Some(v) ==> (shift_is_exact(
                at.z,
                base.z,
                state.millimeters(v),
            ) ==> put.z.same(at.z))
        }),
{
    reveal(ModalState::after_line);
    let at = state.position;
    let base = state.offset_of(state.coordinate_system);
    if let Some(v) = line.x {
        if shift_is_exact(at.x, base.x, state.millimeters(v)) {
            lemma_shift_reads_as_given(at.x, base.x, state.millimeters(v));
        }
    }
    if let Some(v) = line.y {
        if shift_is_exact(at.y, base.y, state.millimeters(v)) {
            lemma_shift_reads_as_given(at.y, base.y, state.millimeters(v));
        }
    }
    if let Some(v) = line.z {
        if shift_is_exact(at.z, base.z, state.millimeters(v)) {
            lemma_shift_reads_as_given(at.z, base.z, state.millimeters(v));
        }
    }
}

/// After G92.1 the only offset left is that of the coordinate system.
pub proof fn law_cancelled_shift_is_zero(state: ModalState, line: Line)
    requires
        line.g92_cancel_requested,
    ensures
        state.after_line(line).state.g92_offset == Position::origin(),
{
    reveal(ModalState::after_line);
}

/// In machine coordinates neither the offsets nor the distance mode matter.
pub proof fn law_machine_coordinates_ignore_offsets(
    a: ModalState,
    b: ModalState,
    x: Option<Double>,
    y: Option<Double>,
    z: Option<Double>,
)
    requires
        a.position == b.position,
        a.units == b.units,
    ensures
        a.target(x, y, z, true) == b.target(x, y, z, true),
{
}

/// A line that says nothing does nothing.
pub proof fn law_blank_line_does_nothing(state: ModalState)
    ensures
        state.after_line(Line::blank()) == Outcome::silent(state),
{
    reveal(ModalState::after_line);
    assert(state.after_line(Line::blank()).trace == Seq::<Emission>::empty());
}

/// A line whose motion word asks for no mode makes no move of its own. Where that word is
/// G80, the line leaves no motion mode, whatever else is on it.
pub proof fn law_cancelled_mode_is_gone(state: ModalState, line: Line)
    requires
        line.resolved_mode == Some(MotionMode::Inactive),
    ensures
        line.mode_cancelled ==> state.after_line(line).state.motion_mode is Inactive,
        line.home_request is None ==> state.after_line(line).state.position == state.position,
        line.home_request is None ==> forall|i: int|
            0 <= i < state.after_line(line).trace.len() ==> as_motion(
                #[trigger] state.after_line(line).trace[i],
            ) is None,
{
    reveal(ModalState::after_line);
}

/// The event is a code that sets a motion mode other than none, or one that moves to a
/// reference position.
pub open spec fn commands_motion(event: Event) -> bool {
    event matches Event::GeneralCode { major, minor } && ((code_group(major, minor) == Some(
        ModalGroup::Motion,
    ) && !(mode_of(major, minor) is Inactive)) || (minor is None && (major == 28 || major == 30)))
}

/// No motion mode is named but none.
pub open spec fn names_no_mode(line: Line) -> bool {
    line.resolved_mode matches Some(mode) ==> mode is Inactive
}

/// A line that finds no motion mode and commands none does not move.
proof fn lemma_line_without_mode(state: ModalState, line: Line)
    requires
        state.motion_mode is Inactive,
        names_no_mode(line),
        line.home_request is None,
    ensures
        state.after_line(line).state.position == state.position,
        state.after_line(line).state.motion_mode is Inactive,
        forall|i: int|
            0 <= i < state.after_line(line).trace.len() ==> as_motion(
                #[trigger] state.after_line(line).trace[i],
            ) is None,
{
    reveal(ModalState::after_line);
}

/// A word or a code that commands no motion leaves the line without a motion mode.
proof fn lemma_word_without_mode(at: Progress, event: Event)
    requires
        names_no_mode(at.line),
        at.line.home_request is None,
        !commands_motion(event),
        !(event is EndLine),
    ensures
        ({
            let next = at.after(event);
            &&& names_no_mode(next.line)
            &&& next.line.home_request is None
            &&& next.state.position == at.state.position
            &&& next.state.motion_mode == at.state.motion_mode
            &&& next.trace.len() >= at.trace.len()
            &&& next.trace.take(at.trace.len() as int) == at.trace
            &&& forall|i: int|
                at.trace.len() <= i < next.trace.len() ==> as_motion(#[trigger] next.trace[i])
                    is None
        }),
{
    reveal(Progress::after);
}

/// As long as no motion mode has been commanded, axis words move nothing. Nor do they
/// after one was cancelled, until the next one is commanded.
pub proof fn law_nothing_moves_before_a_motion_mode(state: ModalState, events: Seq<Event>)
    requires
        state.motion_mode is Inactive,
        forall|i: int| 0 <= i < events.len() ==> !commands_motion(#[trigger] events[i]),
    ensures
        ({
            let end = Progress::fresh(state).after_all(events);
            &&& end.state.position == state.position
            &&& end.state.motion_mode is Inactive
            &&& names_no_mode(end.line)
            &&& end.line.home_request is None
            &&& forall|i: int|
                0 <= i < end.trace.len() ==> as_motion(#[trigger] end.trace[i]) is None
        }),
    decreases events.len(),
{
    if events.len() > 0 {
        let before = events.drop_last();
        assert forall|i: int| 0 <= i < before.len() implies !commands_motion(#[trigger] before[i]) by {
            assert(before[i] == events[i]);
        }
        law_nothing_moves_before_a_motion_mode(state, before);
        let at = Progress::fresh(state).after_all(before);
        let event = events[events.len() - 1];
        let end = at.after(event);
        if event is EndLine {
            let outcome = at.state.after_line(at.line);
            lemma_line_without_mode(at.state, at.line);
            assert(end.state == outcome.state && end.trace == at.trace + outcome.trace && end.line
                == Line::blank()) by {
                reveal(Progress::after);
            }
            assert forall|i: int| 0 <= i < end.trace.len() implies as_motion(#[trigger] end.trace[i])
                is None by {
                if i < at.trace.len() {
                    assert(end.trace[i] == at.trace[i]);
                } else {
                    assert(end.trace[i] == outcome.trace[i - at.trace.len()]);
                }
            }
        } else {
            lemma_word_without_mode(at, event);
            assert forall|i: int| 0 <= i < end.trace.len() implies as_motion(#[trigger] end.trace[i])
                is None by {
                if i < at.trace.len() {
                    assert(end.trace.take(at.trace.len() as int)[i] == at.trace[i]);
                }
            }
        }
    }
}

// ---- canned cycles ----

/// A canned cycle that is given no parameters runs with those that it was given
/// before.
pub proof fn law_cycle_parameters_stay(state: ModalState, words: CannedCycleWords)
    requires
        words.z is None,
        words.r is None,
        words.q is None,
        words.p is None,
    ensures
        state.cycle_params(words) == state.canned_cycle,
{
}

/// Each bite goes deeper than the one before it, and the last one goes exactly as
/// deep as the hole.
pub proof fn law_bites_deepen_to_the_bottom(travelled: Double, q: Double, total: Double)
    requires
        bites(travelled, q, total) is Some,
    ensures
        ({
            let depths = bites(travelled, q, total)->0;
            &&& depths.len() > 0
            &&& depths.last() == total
            &&& forall|i: int|
                0 <= i < depths.len() - 1 ==> (#[trigger] depths[i]).below(depths[i + 1])
        }),
    decreases crate::double::SIGN - travelled.rank(),
{
    let next = (travelled + q).lesser(total);
    let depths = bites(travelled, q, total)->0;
    if !total.at_most(next) {
        law_bites_deepen_to_the_bottom(next, q, total);
        let rest = bites(next, q, total)->0;
        assert(depths == seq![next] + rest);
        assert forall|i: int| 0 <= i < depths.len() - 1 implies (#[trigger] depths[i]).below(
            depths[i + 1],
        ) by {
            if i > 0 {
                assert(depths[i] == rest[i - 1]);
                assert(depths[i + 1] == rest[i]);
            } else {
                assert(depths[1] == rest[0]);
                lemma_bites_have_a_bottom(next, q, total);
                lemma_first_bite(next, q, total);
            }
        }
    }
}

proof fn lemma_bites_have_a_bottom(travelled: Double, q: Double, total: Double)
    requires
        bites(travelled, q, total) is Some,
    ensures
        !total.nan(),
    decreases crate::double::SIGN - travelled.rank(),
{
    let next = (travelled + q).lesser(total);
    if !total.at_most(next) {
        lemma_bites_have_a_bottom(next, q, total);
    }
}

/// The first bite is deeper than what is behind it, unless the hole has no depth.
proof fn lemma_first_bite(travelled: Double, q: Double, total: Double)
    requires
        bites(travelled, q, total) is Some,
        travelled.below(total),
    ensures
        travelled.below(bites(travelled, q, total)->0[0]),
{
}

} // verus!
