//! What holds of a program that runs through the planner.
use vstd::prelude::*;
use crate::bridge::GcodePlanner;
use crate::bridge::carried;
use crate::bridge::with_output;
use crate::double::Double;
use crate::interpreter::command::Command;
use crate::interpreter::command::ProgramFlow;
use crate::interpreter::program_laws::outputs_of;
use crate::interpreter::sink::Emission;
use crate::interpreter::sink::ErrorSink;
use crate::interpreter::sink::LineOutput;
use crate::interpreter::sink::OutputSink;
use crate::interpreter::sink::delivered;
use crate::planner::Plan;
use crate::planner::arc_points;
use crate::planner::laws::halts_at;
use crate::planner::laws::law_flushed_queue_ends_at_rest;
use crate::planner::laws::law_moves_keep_stops;
use crate::planner::laws::law_other_steps_keep_stops;
use crate::planner::laws::law_paths_keep_stops;
use crate::planner::laws::law_planning_keeps_the_entries;
use crate::planner::laws::same_but_speeds;
use crate::planner::limits::MachineLimits;
use crate::planner::queue::lemma_stopped_at;
use crate::planner::queue::stopped;
use crate::planner::trigonometry::Trigonometry;

verus! {

/// The plan after a sequence of moves and commands.
pub open spec fn fed<A, F, S>(
    plan: Plan<Command>,
    capacity: usize,
    limits: MachineLimits<3>,
    outputs: Seq<LineOutput>,
    trigonometry: Trigonometry<A, F, S>,
) -> Plan<Command> where
    A: Fn(Double, Double) -> Double,
    F: Fn(Double) -> Double,
    S: Fn(Double) -> Double,

    decreases outputs.len(),
{
    if outputs.len() == 0 {
        plan
    } else {
        let before = fed(plan, capacity, limits, outputs.drop_last(), trigonometry);
        with_output(before, capacity, limits, outputs.last(), trigonometry).0
    }
}

/// What the bridge makes of any move or command leaves a stop where it is.
proof fn lemma_output_keeps_stop<A, F, S>(
    plan: Plan<Command>,
    capacity: usize,
    limits: MachineLimits<3>,
    output: LineOutput,
    trigonometry: Trigonometry<A, F, S>,
    i: int,
) where
    A: Fn(Double, Double) -> Double,
    F: Fn(Double) -> Double,
    S: Fn(Double) -> Double,

    requires
        halts_at(plan, i),
    ensures
        ({
            let after = with_output(plan, capacity, limits, output, trigonometry).0;
            &&& halts_at(after, i)
            &&& same_but_speeds(after.entries[i], plan.entries[i])
        }),
{
    match output {
        LineOutput::Motion(m) => {
            let is_rapid = m.motion_mode is Rapid;
            match m.arc {
                None => {
                    law_moves_keep_stops(
                        plan,
                        capacity,
                        limits,
                        carried(m.start),
                        carried(m.target),
                        m.feed_rate,
                        is_rapid,
                        i,
                    );
                },
                Some(arc) => {
                    let points = arc_points(
                        carried(m.start),
                        carried(m.target),
                        carried(arc.center),
                        m.motion_mode is ArcClockwise,
                        limits.arc_tolerance,
                        trigonometry,
                    );
                    law_paths_keep_stops(
                        plan,
                        capacity,
                        limits,
                        points,
                        m.feed_rate,
                        is_rapid,
                        i,
                    );
                },
            }
        },
        LineOutput::Command(c) => {
            law_other_steps_keep_stops(plan, capacity, c, i);
            law_other_steps_keep_stops(plan.flushed(), capacity, c, i);
        },
    }
}

/// M0, M1, M2 and M30 make the newest block in the queue end at rest, even where there
/// is no room for the command itself, and whatever moves and commands come later.
pub proof fn law_stopped_program_ends_at_rest<A, F, S>(
    plan: Plan<Command>,
    capacity: usize,
    limits: MachineLimits<3>,
    flow: ProgramFlow,
    later: Seq<LineOutput>,
    trigonometry: Trigonometry<A, F, S>,
    i: int,
) where
    A: Fn(Double, Double) -> Double,
    F: Fn(Double) -> Double,
    S: Fn(Double) -> Double,

    requires
        0 <= i < plan.entries.len(),
        plan.entries[i] is Block,
        forall|k: int| i < k < plan.entries.len() ==> #[trigger] plan.entries[k] is Command,
    ensures
        ({
            let stop = LineOutput::Command(Command::ProgramFlow(flow));
            let at_stop = with_output(plan, capacity, limits, stop, trigonometry).0;
            let after = fed(at_stop, capacity, limits, later, trigonometry);
            &&& halts_at(after, i)
            &&& after.entries[i]->Block_0.start == plan.entries[i]->Block_0.start
            &&& after.entries[i]->Block_0.target == plan.entries[i]->Block_0.target
        }),
    decreases later.len(),
{
    let stop = LineOutput::Command(Command::ProgramFlow(flow));
    let at_stop = with_output(plan, capacity, limits, stop, trigonometry).0;
    if later.len() == 0 {
        law_flushed_queue_ends_at_rest(plan.entries, plan.carry_over, i);
        lemma_stopped_at(plan.entries, i);
        law_planning_keeps_the_entries(stopped(plan.entries), plan.carry_over);
        assert(same_but_speeds(plan.flushed().entries[i], stopped(plan.entries)[i]));
    } else {
        let sooner = later.drop_last();
        law_stopped_program_ends_at_rest(plan, capacity, limits, flow, sooner, trigonometry, i);
        let before = fed(at_stop, capacity, limits, sooner, trigonometry);
        lemma_output_keeps_stop(before, capacity, limits, later.last(), trigonometry, i);
    }
}

/// A planner behind the interpreter gets every move and command of the program, in
/// order, and nothing else.
pub proof fn law_planner_follows_the_program<const CAPACITY: usize, A, F, S, E: ErrorSink>(
    trace: Seq<Emission>,
    planner: GcodePlanner<CAPACITY, A, F, S>,
    errors: E,
    planner_after: GcodePlanner<CAPACITY, A, F, S>,
    errors_after: E,
) where
    A: Fn(Double, Double) -> Double,
    F: Fn(Double) -> Double,
    S: Fn(Double) -> Double,

    requires
        delivered(trace, planner, errors, planner_after, errors_after),
    ensures
        planner_after.machine() == planner.machine(),
        planner_after.functions() == planner.functions(),
        planner_after@ == fed(
            planner@,
            CAPACITY,
            planner.machine(),
            outputs_of(trace),
            planner.functions(),
        ),
    decreases trace.len(),
{
    if trace.len() > 0 {
        let (p, e) = choose|p: GcodePlanner<CAPACITY, A, F, S>, e: E|
            delivered(trace.drop_last(), planner, errors, p, e)
                && #[trigger] trace.last().handed(p, e, planner_after, errors_after);
        law_planner_follows_the_program(trace.drop_last(), planner, errors, p, e);
        match trace.last() {
            Emission::Output(x) => {
                let outputs = outputs_of(trace);
                assert(outputs.drop_last() == outputs_of(trace.drop_last()));
                assert(p.took(x, true, &planner_after) || p.took(x, false, &planner_after));
            },
            Emission::Error(_) => {},
        }
    }
}

} // verus!
