//! From the interpreter to the planner.
//!
//! The interpreter knows of no planner, and the planner of no G-code. What
//! belongs to both stands here: how a resolved move becomes a planned one, and
//! that a program which stops leaves the machine at rest.
use vstd::prelude::*;
use crate::double::Double;
use crate::interpreter::command::Command;
use crate::interpreter::motion::MotionMode;
use crate::interpreter::motion::ResolvedMotionCommand;
use crate::interpreter::sink::LineOutput;
use crate::interpreter::sink::OutputSink;
use crate::planner::Plan;
use crate::planner::Planner;
use crate::planner::arc_points;
use crate::planner::limits::MachineLimits;
use crate::planner::position::Position;
use crate::planner::queue::PlannedBlock;
use crate::planner::trigonometry::Trigonometry;

verus! {

/// A position of the interpreter as one of the planner.
pub open spec fn carried(p: crate::interpreter::state::Position) -> Position {
    Position { x: p.x, y: p.y, z: p.z }
}

fn to_motion_position(p: crate::interpreter::state::Position) -> (q: Position)
    ensures
        q == carried(p),
{
    Position { x: p.x, y: p.y, z: p.z }
}

/// The plan after a resolved move, and whether there was room for it.
pub open spec fn with_motion<A, F, S>(
    plan: Plan<Command>,
    capacity: usize,
    limits: MachineLimits<3>,
    m: ResolvedMotionCommand,
    trigonometry: Trigonometry<A, F, S>,
) -> (Plan<Command>, bool) where
    A: Fn(Double, Double) -> Double,
    F: Fn(Double) -> Double,
    S: Fn(Double) -> Double,
 {
    let is_rapid = m.motion_mode is Rapid;
    match m.arc {
        None => plan.with_move(
            capacity,
            limits,
            carried(m.start),
            carried(m.target),
            m.feed_rate,
            is_rapid,
        ),
        Some(arc) => plan.with_path(
            capacity,
            limits,
            arc_points(
                carried(m.start),
                carried(m.target),
                carried(arc.center),
                m.motion_mode is ArcClockwise,
                limits.arc_tolerance,
                trigonometry,
            ),
            m.feed_rate,
            is_rapid,
        ),
    }
}

/// The plan after what a line resolved to, and whether there was room for it. A
/// command that stops the program first makes the newest block end at rest.
pub open spec fn with_output<A, F, S>(
    plan: Plan<Command>,
    capacity: usize,
    limits: MachineLimits<3>,
    output: LineOutput,
    trigonometry: Trigonometry<A, F, S>,
) -> (Plan<Command>, bool) where
    A: Fn(Double, Double) -> Double,
    F: Fn(Double) -> Double,
    S: Fn(Double) -> Double,
 {
    match output {
        LineOutput::Motion(m) => with_motion(plan, capacity, limits, m, trigonometry),
        LineOutput::Command(c) => {
            let plan = if c is ProgramFlow {
                plan.flushed()
            } else {
                plan
            };
            plan.with_command(capacity, c)
        },
    }
}

/// A planner as an output sink of the interpreter.
pub struct GcodePlanner<const CAPACITY: usize, A, F, S> {
    inner: Planner<CAPACITY, Command>,
    trigonometry: Trigonometry<A, F, S>,
}

impl<const CAPACITY: usize, A, F, S> View for GcodePlanner<CAPACITY, A, F, S> {
    type V = Plan<Command>;

    closed spec fn view(&self) -> Plan<Command> {
        self.inner@
    }
}

impl<const CAPACITY: usize, A, F, S> GcodePlanner<CAPACITY, A, F, S> where
    A: Fn(Double, Double) -> Double,
    F: Fn(Double) -> Double,
    S: Fn(Double) -> Double,
 {
    pub closed spec fn well_formed(&self) -> bool {
        self.inner.well_formed() && self.trigonometry.functional()
    }

    /// A planner never holds more than it has room for.
    pub proof fn law_never_over_capacity(&self)
        requires
            self.well_formed(),
        ensures
            self@.entries.len() <= CAPACITY,
    {
        self.inner.law_never_over_capacity();
    }

    /// What the machine can do.
    pub closed spec fn machine(&self) -> MachineLimits<3> {
        self.inner.machine()
    }

    /// The host's trigonometric functions.
    pub closed spec fn functions(&self) -> Trigonometry<A, F, S> {
        self.trigonometry
    }

    /// A planner for a machine at rest.
    pub fn new(limits: MachineLimits<3>, trigonometry: Trigonometry<A, F, S>) -> (planner: Self)
        requires
            trigonometry.functional(),
        ensures
            planner.well_formed(),
            planner@ == Plan::<Command>::empty(),
            planner.machine() == limits,
            planner.functions() == trigonometry,
    {
        GcodePlanner { inner: Planner::new(limits), trigonometry }
    }

    /// Takes out the oldest entry, if there is one.
    pub fn pop_ready(&mut self) -> (entry: Option<PlannedBlock<Command>>)
        requires
            old(self).well_formed(),
        ensures
            final(self).well_formed(),
            final(self).machine() == old(self).machine(),
            final(self).functions() == old(self).functions(),
            old(self)@.entries.len() == 0 ==> entry is None && final(self)@ == old(self)@,
            old(self)@.entries.len() > 0 ==> {
                &&& final(self)@ == old(self)@.popped()
                &&& entry == Some(old(self)@.entries.first().planned())
            },
    {
        self.inner.pop_ready()
    }

    pub fn is_full(&self) -> (full: bool)
        requires
            self.well_formed(),
        ensures
            full == (self@.entries.len() == CAPACITY),
    {
        self.inner.is_full()
    }

    pub fn len(&self) -> (len: usize)
        ensures
            len == self@.entries.len(),
    {
        self.inner.len()
    }

    pub fn is_empty(&self) -> (empty: bool)
        ensures
            empty == (self@.entries.len() == 0),
    {
        self.inner.is_empty()
    }

    fn push_motion(&mut self, m: &ResolvedMotionCommand) -> (r: Result<(), ()>)
        requires
            old(self).well_formed(),
        ensures
            final(self).well_formed(),
            final(self).machine() == old(self).machine(),
            final(self).functions() == old(self).functions(),
            (final(self)@, r is Ok) == with_motion(
                old(self)@,
                CAPACITY,
                old(self).machine(),
                *m,
                old(self).functions(),
            ),
    {
        let is_rapid = m.motion_mode == MotionMode::Rapid;
        let start = to_motion_position(m.start);
        let target = to_motion_position(m.target);
        match m.arc {
            None => self.inner.push_linear(start, target, m.feed_rate, is_rapid),
            Some(arc) => {
                let clockwise = m.motion_mode == MotionMode::ArcClockwise;
                let center = to_motion_position(arc.center);
                self.inner.push_arc(
                    start,
                    target,
                    center,
                    clockwise,
                    m.feed_rate,
                    is_rapid,
                    &self.trigonometry,
                )
            },
        }
    }
}

impl<const CAPACITY: usize, A, F, S> OutputSink for GcodePlanner<CAPACITY, A, F, S> where
    A: Fn(Double, Double) -> Double,
    F: Fn(Double) -> Double,
    S: Fn(Double) -> Double,
 {
    open spec fn ready(&self) -> bool {
        self.well_formed()
    }

    open spec fn took(&self, output: LineOutput, accepted: bool, after: &Self) -> bool {
        &&& after.machine() == self.machine()
        &&& after.functions() == self.functions()
        &&& (after@, accepted) == with_output(
            self@,
            CAPACITY,
            self.machine(),
            output,
            self.functions(),
        )
    }

    fn push(&mut self, output: LineOutput) -> (r: Result<(), ()>) {
        match output {
            LineOutput::Motion(m) => self.push_motion(&m),
            LineOutput::Command(c) => {
                // the program stops here, so what is queued ends at rest
                if let Command::ProgramFlow(_) = c {
                    self.inner.flush();
                }
                self.inner.push_command(c)
            },
        }
    }
}

} // verus!
