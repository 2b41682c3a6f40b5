//! `Interpreter`: the modal state and the sinks, driven by what the parser reports.
//!
//! The parser reports the words and codes of a line one after the other, then the
//! end of the line. Codes that set a mode act at once; everything else waits for
//! the end of the line, where it becomes moves and commands.
use vstd::prelude::*;
use crate::double::Double;
use super::command::Command;
use super::command::CoolantCommand;
use super::command::ProgramFlow;
use super::command::SpindleCommand;
use super::line::Event;
use super::line::HomeReference;
use super::line::Line;
use super::meaning::CannedCycleWords;
use super::meaning::Hole;
use super::meaning::Progress;
use super::meaning::bites;
use super::meaning::bottom_action;
use super::meaning::command;
use super::meaning::conflict;
use super::meaning::cycle_trace;
use super::meaning::linear;
use super::meaning::rapid;
use super::motion::ArcGeometry;
use super::motion::MotionMode;
use super::motion::ResolvedMotionCommand;
use super::motion::resolve_arc_center;
use super::parser::complete;
use super::parser::parse;
use super::parser::reported;
use super::sink::Emission;
use super::sink::ErrorSink;
use super::sink::InterpretError;
use super::sink::LineOutput;
use super::sink::OutputSink;
use super::sink::delivered;
use super::sink::lemma_delivered_concat;
use super::source::is_readable;
use super::source::readable;
use super::state::DistanceMode;
use super::state::ModalState;
use super::state::Plane;
use super::state::Position;

verus! {

/// The interpreter: one persistent state, a sink for what lines resolve to, and
/// a sink for what is wrong with them.
pub struct Interpreter<O: OutputSink, E: ErrorSink> {
    pub state: ModalState,
    outputs: O,
    errors: E,
}

impl<O: OutputSink, E: ErrorSink> Interpreter<O, E> {
    /// The modal state.
    pub closed spec fn modal(&self) -> ModalState {
        self.state
    }

    /// The sink for moves and commands.
    pub closed spec fn outputs(&self) -> O {
        self.outputs
    }

    /// The sink for errors.
    pub closed spec fn errors(&self) -> E {
        self.errors
    }

    /// Handing out `trace` leads from the sinks of `before` to those here.
    pub open spec fn handed_out(&self, before: &Self, trace: Seq<Emission>) -> bool {
        &&& self.outputs().ready()
        &&& delivered(trace, before.outputs(), before.errors(), self.outputs(), self.errors())
    }

    /// Interpreting `events` leads from `before` to here.
    pub open spec fn went_through(&self, before: &Self, events: Seq<Event>) -> bool {
        let at = Progress::fresh(before.modal()).after_all(events);
        &&& self.modal() == at.state
        &&& self.handed_out(before, at.trace)
    }

    /// Two traces in a row.
    proof fn lemma_in_a_row(
        before: &Self,
        middle: &Self,
        after: &Self,
        first: Seq<Emission>,
        second: Seq<Emission>,
    )
        requires
            middle.handed_out(before, first),
            after.handed_out(middle, second),
        ensures
            after.handed_out(before, first + second),
    {
        lemma_delivered_concat(
            first,
            second,
            before.outputs(),
            before.errors(),
            middle.outputs(),
            middle.errors(),
            after.outputs(),
            after.errors(),
        );
    }

    /// An interpreter at power-on.
    pub fn new(outputs: O, errors: E) -> (interpreter: Self)
        ensures
            interpreter.modal().initial(),
            interpreter.outputs() == outputs,
            interpreter.errors() == errors,
    {
        Interpreter { state: ModalState::new(), outputs, errors }
    }

    /// The modal state, for a host to read.
    pub fn state(&self) -> (state: &ModalState)
        ensures
            *state == self.modal(),
    {
        &self.state
    }

    /// Sets the modal state: for a host that restores one, or sets up offsets.
    pub fn set_state(&mut self, state: ModalState)
        ensures
            final(self).modal() == state,
            final(self).outputs() == old(self).outputs(),
            final(self).errors() == old(self).errors(),
    {
        self.state = state;
    }

    /// The sinks, with what they have collected.
    pub fn into_sinks(self) -> (sinks: (O, E))
        ensures
            sinks.0 == self.outputs(),
            sinks.1 == self.errors(),
    {
        (self.outputs, self.errors)
    }

    fn emit(&mut self, output: LineOutput)
        requires
            old(self).outputs().ready(),
        ensures
            final(self).modal() == old(self).modal(),
            final(self).handed_out(old(self), seq![Emission::Output(output)]),
    {
        let ghost before = *self;
        let accepted = self.outputs.push(output);
        if accepted.is_err() {
            self.errors.push(InterpretError::OutputSinkFull);
        }
        proof {
            let none = Seq::<Emission>::empty();
            assert(delivered(none, before.outputs, before.errors, before.outputs, before.errors));
            super::sink::lemma_delivered_push(
                none,
                Emission::Output(output),
                before.outputs,
                before.errors,
                before.outputs,
                before.errors,
                self.outputs,
                self.errors,
            );
            assert(none.push(Emission::Output(output)) == seq![Emission::Output(output)]);
        }
    }

    fn report(&mut self, error: InterpretError)
        requires
            old(self).outputs().ready(),
        ensures
            final(self).modal() == old(self).modal(),
            final(self).handed_out(old(self), seq![Emission::Error(error)]),
    {
        let ghost before = *self;
        self.errors.push(error);
        proof {
            let none = Seq::<Emission>::empty();
            assert(delivered(none, before.outputs, before.errors, before.outputs, before.errors));
            super::sink::lemma_delivered_push(
                none,
                Emission::Error(error),
                before.outputs,
                before.errors,
                before.outputs,
                before.errors,
                self.outputs,
                self.errors,
            );
            assert(none.push(Emission::Error(error)) == seq![Emission::Error(error)]);
        }
    }

    fn push_command(&mut self, c: Command)
        requires
            old(self).outputs().ready(),
        ensures
            final(self).modal() == old(self).modal(),
            final(self).handed_out(old(self), seq![command(c)]),
    {
        self.emit(LineOutput::Command(c));
    }

    /// A rapid move.
    fn push_rapid(&mut self, start: Position, target: Position)
        requires
            old(self).outputs().ready(),
        ensures
            final(self).modal() == old(self).modal(),
            final(self).handed_out(old(self), seq![rapid(start, target, old(self).modal().feed_rate)]),
    {
        self.emit(
            LineOutput::Motion(
                ResolvedMotionCommand {
                    start,
                    target,
                    motion_mode: MotionMode::Rapid,
                    arc: None,
                    feed_rate: self.state.feed_rate,
                },
            ),
        );
    }

    /// A straight move at the feed rate.
    fn push_linear(&mut self, start: Position, target: Position)
        requires
            old(self).outputs().ready(),
        ensures
            final(self).modal() == old(self).modal(),
            final(self).handed_out(
                old(self),
                seq![linear(start, target, old(self).modal().feed_rate)],
            ),
    {
        self.emit(
            LineOutput::Motion(
                ResolvedMotionCommand {
                    start,
                    target,
                    motion_mode: MotionMode::Linear,
                    arc: None,
                    feed_rate: self.state.feed_rate,
                },
            ),
        );
    }
}

impl ModalState {
    /// Where an axis word leads from `current`.
    pub fn resolve_axis_word(
        &self,
        current: Double,
        offset: Double,
        word: Option<Double>,
    ) -> (coordinate: Double)
        ensures
            coordinate == self.axis(current, offset, word),
    {
        match (word, self.distance_mode) {
            (Some(v), DistanceMode::Absolute) => self.to_mm(v) + offset,
            (Some(v), DistanceMode::Incremental) => current + self.to_mm(v),
            (None, _) => current,
        }
    }

    /// Where the axis words of a line lead. In machine coordinates they are read
    /// as they stand, without offsets and whatever the distance mode is.
    pub fn resolve_target_from_values(
        &self,
        x: Option<Double>,
        y: Option<Double>,
        z: Option<Double>,
        machine_coordinates: bool,
    ) -> (target: Position)
        ensures
            target == self.target(x, y, z, machine_coordinates),
    {
        let at = self.position;
        if machine_coordinates {
            Position {
                x: self.to_mm_or(x, at.x),
                y: self.to_mm_or(y, at.y),
                z: self.to_mm_or(z, at.z),
            }
        } else {
            let offset = self.active_offset();
            Position {
                x: self.resolve_axis_word(at.x, offset.x, x),
                y: self.resolve_axis_word(at.y, offset.y, y),
                z: self.resolve_axis_word(at.z, offset.z, z),
            }
        }
    }

    /// A word in millimeters, or `otherwise` where it was not given.
    fn to_mm_or(&self, word: Option<Double>, otherwise: Double) -> (length: Double)
        ensures
            length == self.machine_axis(otherwise, word),
    {
        match word {
            Some(v) => self.to_mm(v),
            None => otherwise,
        }
    }
}

impl Hole {
    fn point(&self, z: Double) -> (p: Position)
        ensures
            p == self.at(z),
    {
        Position { x: self.x, y: self.y, z }
    }

    fn sign(&self) -> (sign: Double)
        ensures
            sign == self.direction(),
    {
        let one = Double::from_integer(1);
        if self.r.is_at_most(self.bottom) {
            one
        } else {
            one.negated()
        }
    }

    fn total_depth(&self) -> (depth: Double)
        ensures
            depth == self.depth(),
    {
        (self.bottom - self.r).abs()
    }

    fn away_from_bottom(&self, z: Double) -> (distance: Double)
        ensures
            distance == self.clearance(z),
    {
        self.sign().negated() * (z - self.bottom)
    }

    fn retract_point(&self, return_to_initial: bool) -> (p: Position)
        ensures
            p == self.retracted(return_to_initial),
    {
        if return_to_initial && self.away_from_bottom(self.r).is_below(
            self.away_from_bottom(self.initial),
        ) {
            self.point(self.initial)
        } else {
            self.point(self.r)
        }
    }
}

/// Whether bites of `q` get to `total` at all.
fn bites_reach(q: Double, total: Double) -> (reach: bool)
    ensures
        reach == bites(Double::nought(), q, total) is Some,
{
    let mut travelled = Double::zeroed();
    loop
        invariant
            bites(Double::nought(), q, total) is Some == bites(travelled, q, total) is Some,
        decreases crate::double::SIGN - travelled.rank(),
    {
        let next = (travelled + q).min(total);
        if total.is_at_most(next) {
            return true;
        }
        if !travelled.is_below(next) {
            return false;
        }
        travelled = next;
    }
}

impl<O: OutputSink, E: ErrorSink> Interpreter<O, E> {
    /// Drills in bites of `q`, with a full retract between them.
    fn push_bites(&mut self, hole: Hole, q: Double) -> (deepest: Position)
        requires
            old(self).outputs().ready(),
            bites(Double::nought(), q, hole.depth()) is Some,
            hole.feed_rate == old(self).modal().feed_rate,
        ensures
            final(self).modal() == old(self).modal(),
            final(self).handed_out(
                old(self),
                hole.pecks(bites(Double::nought(), q, hole.depth())->0),
            ),
            deepest == hole.bitten(bites(Double::nought(), q, hole.depth())->0.last()),
    {
        let ghost before = *self;
        let ghost all = bites(Double::nought(), q, hole.depth())->0;
        let ghost mut done: Seq<Double> = Seq::empty();
        let ghost mut trace: Seq<Emission> = Seq::empty();
        let total = hole.total_depth();
        let at_r = hole.point(hole.r);
        let mut travelled = Double::zeroed();
        proof {
            assert(done + all == all);
        }
        loop
            invariant
                before == *old(self),
                all == bites(Double::nought(), q, hole.depth())->0,
                self.modal() == before.modal(),
                self.handed_out(&before, trace),
                hole.feed_rate == before.modal().feed_rate,
                total == hole.depth(),
                at_r == hole.at(hole.r),
                bites(travelled, q, total) is Some,
                all == done + bites(travelled, q, total)->0,
                trace == hole.pecks(done) + if done.len() == 0 {
                    Seq::empty()
                } else {
                    seq![rapid(hole.bitten(done.last()), at_r, hole.feed_rate)]
                },
            decreases crate::double::SIGN - travelled.rank(),
        {
            let ghost rest = bites(travelled, q, total)->0;
            let next = (travelled + q).min(total);
            let this_bottom = hole.point(hole.r + hole.sign() * next);
            let ghost middle = *self;
            self.push_linear(at_r, this_bottom);
            proof {
                let one = seq![linear(at_r, this_bottom, hole.feed_rate)];
                Self::lemma_in_a_row(&before, &middle, &*self, trace, one);
                assert(done.push(next).drop_last() == done);
                trace = trace + one;
                done = done.push(next);
                assert(trace == hole.pecks(done));
            }
            if total.is_at_most(next) {
                proof {
                    assert(all == done);
                }
                return this_bottom;
            }
            let ghost middle = *self;
            self.push_rapid(this_bottom, at_r);
            proof {
                let one = seq![rapid(this_bottom, at_r, hole.feed_rate)];
                Self::lemma_in_a_row(&before, &middle, &*self, trace, one);
                trace = trace + one;
                assert(rest == seq![next] + bites(next, q, total)->0);
                assert(all == done + bites(next, q, total)->0);
            }
            travelled = next;
        }
    }
}

impl<O: OutputSink, E: ErrorSink> Interpreter<O, E> {
    /// The command at the bottom of the hole, if the cycle has one.
    fn push_bottom_action(&mut self, kind: MotionMode)
        requires
            old(self).outputs().ready(),
        ensures
            final(self).modal() == old(self).modal(),
            final(self).handed_out(
                old(self),
                bottom_action(kind, old(self).modal().canned_cycle.p),
            ),
    {
        match kind {
            MotionMode::DrillDwell | MotionMode::BoreDwellFeedOut => {
                if let Some(seconds) = self.state.canned_cycle.p {
                    self.push_command(Command::Dwell { seconds });
                }
            },
            MotionMode::BoreSpindleStop => {
                self.push_command(Command::Spindle(SpindleCommand::Stop));
            },
            _ => {},
        }
    }

    /// The moves of a canned cycle, from where the machine is.
    fn push_cycle(&mut self, kind: MotionMode, hole: Hole, peck: Option<Double>) -> (retracted:
        Position)
        requires
            old(self).outputs().ready(),
            hole.feed_rate == old(self).modal().feed_rate,
            peck is Some == kind is PeckDrill,
            peck is Some ==> bites(Double::nought(), peck->0, hole.depth()) is Some,
        ensures
            final(self).modal() == old(self).modal(),
            retracted == hole.retracted(old(self).modal().canned_cycle_return_to_initial_z),
            final(self).handed_out(
                old(self),
                cycle_trace(
                    old(self).modal().position,
                    hole,
                    kind,
                    match peck {
                        Some(q) => bites(Double::nought(), q, hole.depth())->0,
                        None => Seq::empty(),
                    },
                    old(self).modal().canned_cycle.p,
                    old(self).modal().canned_cycle_return_to_initial_z,
                ),
            ),
    {
        // over the hole, then down to the retract plane
        let ghost s0 = *self;
        let start = self.state.position;
        let above_hole = hole.point(start.z);
        self.push_rapid(start, above_hole);
        let ghost s1 = *self;
        let at_r = hole.point(hole.r);
        self.push_rapid(above_hole, at_r);
        let ghost s2 = *self;

        // to the bottom, in one go or in bites
        let deepest = if let Some(q) = peck {
            self.push_bites(hole, q)
        } else {
            let bottom = hole.point(hole.bottom);
            self.push_linear(at_r, bottom);
            bottom
        };
        let ghost s3 = *self;
        self.push_bottom_action(kind);
        let ghost s4 = *self;

        // and out again
        let retracted = hole.retract_point(self.state.canned_cycle_return_to_initial_z);
        match kind {
            MotionMode::BoreFeedOut | MotionMode::BoreDwellFeedOut => {
                self.push_linear(deepest, retracted);
            },
            _ => {
                self.push_rapid(deepest, retracted);
            },
        }
        proof {
            let feed = hole.feed_rate;
            let depths = match peck {
                Some(q) => bites(Double::nought(), q, hole.depth())->0,
                None => Seq::empty(),
            };
            let first = seq![rapid(start, above_hole, feed)];
            let second = seq![rapid(above_hole, at_r, feed)];
            let cut = if kind is PeckDrill {
                hole.pecks(depths)
            } else {
                seq![linear(at_r, hole.at(hole.bottom), feed)]
            };
            let action = bottom_action(kind, s3.state.canned_cycle.p);
            let retract = if kind is BoreFeedOut || kind is BoreDwellFeedOut {
                linear(deepest, retracted, feed)
            } else {
                rapid(deepest, retracted, feed)
            };
            Self::lemma_in_a_row(&s0, &s1, &s2, first, second);
            Self::lemma_in_a_row(&s0, &s2, &s3, first + second, cut);
            Self::lemma_in_a_row(&s0, &s3, &s4, first + second + cut, action);
            Self::lemma_in_a_row(&s0, &s4, &*self, first + second + cut + action, seq![retract]);
            assert(first + second == seq![
                rapid(start, above_hole, feed),
                rapid(above_hole, at_r, feed),
            ]);
        }
        retracted
    }

    /// Runs one hole of a canned cycle. Whether it can run is settled before
    /// anything moves.
    fn execute_canned_cycle(&mut self, kind: MotionMode, words: CannedCycleWords) -> (r: Result<
        (),
        InterpretError,
    >)
        requires
            old(self).outputs().ready(),
        ensures
            final(self).modal() == old(self).modal().cycle(kind, words).state,
            match r {
                Ok(_) => {
                    &&& old(self).modal().cycle_error(kind, words) is None
                    &&& final(self).handed_out(
                        old(self),
                        old(self).modal().cycle(kind, words).trace,
                    )
                },
                Err(e) => {
                    &&& old(self).modal().cycle_error(kind, words) == Some(e)
                    &&& final(self).handed_out(old(self), Seq::empty())
                },
            },
    {
        let (hole, peck) = match self.state.prepare_cycle(kind, words) {
            Ok(prepared) => prepared,
            Err(e) => {
                return Err(e);
            },
        };
        let retracted = self.push_cycle(kind, hole, peck);
        self.state.position = retracted;
        self.state.motion_mode = kind;
        Ok(())
    }
}

impl ModalState {
    /// Settles whether a canned cycle can run, and takes up the parameters that
    /// its line gives.
    fn prepare_cycle(&mut self, kind: MotionMode, words: CannedCycleWords) -> (r: Result<
        (Hole, Option<Double>),
        InterpretError,
    >)
        ensures
            *final(self) == (ModalState {
                canned_cycle: if old(self).plane == Plane::Xy {
                    old(self).cycle_params(words)
                } else {
                    old(self).canned_cycle
                },
                ..*old(self)
            }),
            match r {
                Ok((hole, peck)) => {
                    &&& old(self).cycle_error(kind, words) is None
                    &&& hole == old(self).hole(words)
                    &&& peck is Some == kind is PeckDrill
                    &&& peck matches Some(q) ==> {
                        &&& old(self).cycle_params(words).q == Some(q)
                        &&& bites(Double::nought(), q, hole.depth()) is Some
                        &&& old(self).cycle_bites(words) == bites(
                            Double::nought(),
                            q,
                            hole.depth(),
                        )
                    }
                },
                Err(e) => old(self).cycle_error(kind, words) == Some(e),
            },
    {
        if self.plane != Plane::Xy {
            return Err(InterpretError::UnsupportedCannedCyclePlane);
        }
        let start = self.position;
        let offset = self.active_offset();
        let x = self.resolve_axis_word(start.x, offset.x, words.x);
        let y = self.resolve_axis_word(start.y, offset.y, words.y);

        if words.z.is_some() {
            let z = self.resolve_axis_word(start.z, offset.z, words.z);
            self.canned_cycle.z = Some(z);
        }
        let bottom = match self.canned_cycle.z {
            Some(z) => z,
            None => {
                return Err(InterpretError::CannedCycleMissingParameter);
            },
        };
        if words.r.is_some() {
            let r = self.resolve_axis_word(start.z, offset.z, words.r);
            self.canned_cycle.r = Some(r);
        }
        let r = match self.canned_cycle.r {
            Some(r) => r,
            None => {
                return Err(InterpretError::CannedCycleMissingParameter);
            },
        };
        if let Some(q) = words.q {
            let q = self.to_mm(q);
            self.canned_cycle.q = Some(q);
        }
        if words.p.is_some() {
            self.canned_cycle.p = words.p;
        }
        let hole = Hole { x, y, r, bottom, initial: start.z, feed_rate: self.feed_rate };
        match kind {
            MotionMode::PeckDrill => match self.canned_cycle.q {
                Some(q) => {
                    if Double::zeroed().is_below(q) && bites_reach(q, hole.total_depth()) {
                        Ok((hole, Some(q)))
                    } else {
                        Err(InterpretError::InvalidPeckIncrement)
                    }
                },
                None => Err(InterpretError::InvalidPeckIncrement),
            },
            MotionMode::DrillDwell | MotionMode::BoreDwellFeedOut => {
                if self.canned_cycle.p.is_none() {
                    Err(InterpretError::CannedCycleMissingParameter)
                } else {
                    Ok((hole, None))
                }
            },
            _ => Ok((hole, None)),
        }
    }
}

impl ModalState {
    /// A word in millimeters, where it was given.
    fn to_mm_option(&self, word: Option<Double>) -> (length: Option<Double>)
        ensures
            length == self.length(word),
    {
        match word {
            Some(v) => Some(self.to_mm(v)),
            None => None,
        }
    }

    /// G92 and G92.1.
    fn shift_origin(&mut self, line: &Line)
        ensures
            *final(self) == old(self).after_shift(*line),
    {
        if line.g92_requested {
            let base = self.coordinate_system_offset(self.coordinate_system);
            let at = self.position;
            if let Some(v) = line.x {
                self.g92_offset.x = at.x - base.x - self.to_mm(v);
            }
            if let Some(v) = line.y {
                self.g92_offset.y = at.y - base.y - self.to_mm(v);
            }
            if let Some(v) = line.z {
                self.g92_offset.z = at.z - base.z - self.to_mm(v);
            }
        }
        if line.g92_cancel_requested {
            self.g92_offset = Position::default();
        }
    }

    /// G28.1 and G30.1.
    fn store_reference(&mut self, line: &Line)
        ensures
            *final(self) == old(self).after_reference(*line),
    {
        if let Some(reference) = line.set_home_reference {
            match reference {
                HomeReference::G28 => {
                    self.g28_position = self.position;
                },
                HomeReference::G30 => {
                    self.g30_position = self.position;
                },
            }
        }
    }
}

impl<O: OutputSink, E: ErrorSink> Interpreter<O, E> {
    /// A straight move or an arc.
    fn travel(&mut self, line: &Line, mode: MotionMode)
        requires
            old(self).outputs().ready(),
        ensures
            final(self).modal() == old(self).modal().travel(*line, mode).state,
            final(self).handed_out(old(self), old(self).modal().travel(*line, mode).trace),
    {
        let start = self.state.position;
        let target = self.state.resolve_target_from_values(
            line.x,
            line.y,
            line.z,
            line.machine_coordinates,
        );
        let mut arc = None;
        if mode.is_arc() {
            let zero = Double::zeroed();
            let ijk = if line.i.is_some() || line.j.is_some() || line.k.is_some() {
                Some(
                    (
                        self.state.to_mm_or(line.i, zero),
                        self.state.to_mm_or(line.j, zero),
                        self.state.to_mm_or(line.k, zero),
                    ),
                )
            } else {
                None
            };
            let r = self.state.to_mm_option(line.r);
            let clockwise = mode == MotionMode::ArcClockwise;
            match resolve_arc_center(self.state.plane, start, target, ijk, r, clockwise) {
                Ok(center) => {
                    arc = Some(ArcGeometry { center });
                },
                Err(e) => {
                    self.report(InterpretError::InvalidArc(e));
                    return;
                },
            }
        }
        let command = ResolvedMotionCommand {
            start,
            target,
            motion_mode: mode,
            arc,
            feed_rate: self.state.feed_rate,
        };
        self.state.position = target;
        self.state.motion_mode = mode;
        self.emit(LineOutput::Motion(command));
    }

    /// The move of a line, if it asks for one.
    fn resolve_motion(&mut self, line: &Line)
        requires
            old(self).outputs().ready(),
        ensures
            final(self).modal() == old(self).modal().after_motion(*line).state,
            final(self).handed_out(old(self), old(self).modal().after_motion(*line).trace),
    {
        let mode = match line.resolved_mode {
            Some(mode) => mode,
            None => self.state.motion_mode,
        };
        let is_canned_cycle = mode.is_canned_cycle();
        let has_axis_word = line.x.is_some() || line.y.is_some() || line.z.is_some();
        let has_arc_geometry = line.i.is_some() || line.j.is_some() || line.k.is_some()
            || line.r.is_some();
        // a canned cycle runs again when it is named, even without an axis word
        let fresh_canned_cycle_word = is_canned_cycle && line.resolved_mode.is_some();
        let has_motion_data = !line.suppress_motion && (has_axis_word || (mode.is_arc()
            && has_arc_geometry) || fresh_canned_cycle_word);

        if !has_motion_data {
            if let Some(mode) = line.resolved_mode {
                self.state.motion_mode = mode;
            }
        } else if mode == MotionMode::Inactive {
            // a mode that is cancelled on a line with axis words is cancelled too
            if line.mode_cancelled {
                self.state.motion_mode = mode;
            }
            self.report(InterpretError::NoActiveMotionMode);
        } else if is_canned_cycle {
            let words = CannedCycleWords {
                x: line.x,
                y: line.y,
                z: line.z,
                r: line.r,
                q: line.q,
                p: line.p,
            };
            let ghost before = *self;
            let result = self.execute_canned_cycle(mode, words);
            if let Err(e) = result {
                let ghost middle = *self;
                self.report(e);
                proof {
                    let none = Seq::<Emission>::empty();
                    let one = seq![Emission::Error(e)];
                    Self::lemma_in_a_row(&before, &middle, &*self, none, one);
                    assert(none + one == one);
                }
            }
        } else {
            self.travel(line, mode);
        }
    }

    /// The spindle, coolant and program flow commands of a line.
    fn push_machine_words(&mut self, line: &Line)
        requires
            old(self).outputs().ready(),
        ensures
            final(self).modal() == old(self).modal().after_machine_words(*line).state,
            final(self).handed_out(old(self), old(self).modal().after_machine_words(*line).trace),
    {
        let ghost s0 = *self;
        if let Some(s) = line.s {
            self.state.spindle_speed = s;
        }
        let ghost mut spindle: Seq<Emission> = Seq::empty();
        if let Some(major) = line.spindle_word {
            let speed = self.state.spindle_speed;
            let c = match major {
                3 => SpindleCommand::Clockwise(speed),
                4 => SpindleCommand::CounterClockwise(speed),
                _ => SpindleCommand::Stop,
            };
            self.push_command(Command::Spindle(c));
            proof {
                spindle = seq![command(Command::Spindle(c))];
            }
        }
        let ghost s1 = *self;
        let ghost mut coolant: Seq<Emission> = Seq::empty();
        if let Some(major) = line.coolant_word {
            let c = match major {
                7 => CoolantCommand::Mist,
                8 => CoolantCommand::Flood,
                _ => CoolantCommand::Off,
            };
            self.push_command(Command::Coolant(c));
            proof {
                coolant = seq![command(Command::Coolant(c))];
            }
        }
        let ghost s2 = *self;
        let ghost mut flow: Seq<Emission> = Seq::empty();
        if let Some(major) = line.program_flow {
            let c = match major {
                0 => ProgramFlow::Stop,
                1 => ProgramFlow::OptionalStop,
                2 => ProgramFlow::End,
                _ => ProgramFlow::EndAndRewind,
            };
            self.push_command(Command::ProgramFlow(c));
            proof {
                flow = seq![command(Command::ProgramFlow(c))];
            }
        }
        proof {
            Self::lemma_in_a_row(&s0, &s1, &s2, spindle, coolant);
            Self::lemma_in_a_row(&s0, &s2, &*self, spindle + coolant, flow);
        }
    }

    /// The dwell and the tool change of a line.
    fn push_tool_words(&mut self, line: &Line)
        requires
            old(self).outputs().ready(),
        ensures
            final(self).modal() == old(self).modal().after_tool_words(*line).state,
            final(self).handed_out(old(self), old(self).modal().after_tool_words(*line).trace),
    {
        let ghost s0 = *self;
        if line.tool_select.is_some() {
            self.state.selected_tool = line.tool_select;
        }
        let ghost mut dwell: Seq<Emission> = Seq::empty();
        if line.dwell_requested {
            let seconds = match line.p {
                Some(p) => p,
                None => Double::zeroed(),
            };
            self.push_command(Command::Dwell { seconds });
            proof {
                dwell = seq![command(Command::Dwell { seconds })];
            }
        }
        let ghost s1 = *self;
        let ghost mut change: Seq<Emission> = Seq::empty();
        if line.tool_change_requested {
            match self.state.selected_tool {
                Some(tool) => {
                    self.push_command(Command::ToolChange { tool });
                    proof {
                        change = seq![command(Command::ToolChange { tool })];
                    }
                },
                None => {
                    self.report(InterpretError::NoToolSelected);
                    proof {
                        change = seq![Emission::Error(InterpretError::NoToolSelected)];
                    }
                },
            }
        }
        proof {
            Self::lemma_in_a_row(&s0, &s1, &*self, dwell, change);
        }
    }

    /// G28 and G30.
    fn push_homing(&mut self, line: &Line)
        requires
            old(self).outputs().ready(),
        ensures
            final(self).modal() == old(self).modal().after_homing(*line).state,
            final(self).handed_out(old(self), old(self).modal().after_homing(*line).trace),
    {
        if let Some(reference) = line.home_request {
            let ghost s0 = *self;
            let start = self.state.position;
            let home = match reference {
                HomeReference::G28 => self.state.g28_position,
                HomeReference::G30 => self.state.g30_position,
            };
            if line.x.is_some() || line.y.is_some() || line.z.is_some() {
                let via = self.state.resolve_target_from_values(line.x, line.y, line.z, false);
                self.push_rapid(start, via);
                let ghost s1 = *self;
                self.push_rapid(via, home);
                proof {
                    let feed = s0.state.feed_rate;
                    let first = seq![rapid(start, via, feed)];
                    let second = seq![rapid(via, home, feed)];
                    Self::lemma_in_a_row(&s0, &s1, &*self, first, second);
                    assert(first + second == seq![
                        rapid(start, via, feed),
                        rapid(via, home, feed),
                    ]);
                }
            } else {
                self.push_rapid(start, home);
            }
            self.state.position = home;
        }
    }

    /// The whole line: its feed rate, its move, its commands, its offsets, its homing.
    fn end_line(&mut self, line: &Line)
        requires
            old(self).outputs().ready(),
        ensures
            final(self).modal() == old(self).modal().after_line(*line).state,
            final(self).handed_out(old(self), old(self).modal().after_line(*line).trace),
    {
        if let Some(f) = line.f {
            self.state.feed_rate = self.state.to_mm(f);
        }
        let ghost s0 = *self;
        self.resolve_motion(line);
        let ghost s1 = *self;
        self.push_machine_words(line);
        let ghost s2 = *self;
        self.push_tool_words(line);
        let ghost s3 = *self;
        self.state.shift_origin(line);
        let ghost s4 = *self;
        self.push_homing(line);
        let ghost s5 = *self;
        self.state.store_reference(line);
        proof {
            reveal(ModalState::after_line);
            let moved = s0.state.after_motion(*line);
            let commanded = moved.state.after_machine_words(*line);
            let tooled = commanded.state.after_tool_words(*line);
            let homed = tooled.state.after_shift(*line).after_homing(*line);
            Self::lemma_in_a_row(&s0, &s1, &s2, moved.trace, commanded.trace);
            Self::lemma_in_a_row(&s0, &s2, &s3, moved.trace + commanded.trace, tooled.trace);
            Self::lemma_in_a_row(
                &s0,
                &s4,
                &s5,
                moved.trace + commanded.trace + tooled.trace,
                homed.trace,
            );
        }
    }

    /// Reports an error, if there is one.
    fn report_if(&mut self, error: Option<InterpretError>)
        requires
            old(self).outputs().ready(),
        ensures
            final(self).modal() == old(self).modal(),
            final(self).handed_out(
                old(self),
                match error {
                    Some(e) => seq![Emission::Error(e)],
                    None => Seq::empty(),
                },
            ),
    {
        if let Some(e) = error {
            self.report(e);
        }
    }

    /// One event, with what has been read of the line so far.
    fn take(&mut self, line: &mut Line, event: Event, Ghost(done): Ghost<Seq<Emission>>)
        requires
            old(self).outputs().ready(),
        ensures
            ({
                let at = Progress { state: old(self).modal(), line: *old(line), trace: done };
                let next = at.after(event);
                &&& final(self).modal() == next.state
                &&& *final(line) == next.line
                &&& exists|more: Seq<Emission>|
                    next.trace == done + more && #[trigger] final(self).handed_out(old(self), more)
            }),
    {
        proof {
            reveal(Progress::after);
        }
        let ghost before = *self;
        let ghost mut more: Seq<Emission> = Seq::empty();
        match event {
            Event::Word { letter, value } => {
                let error = line.record_axis(letter, value);
                self.report_if(error);
                proof {
                    if let Some(e) = error {
                        more = seq![Emission::Error(e)];
                    }
                }
            },
            Event::GeneralCode { major, minor } => {
                let error = line.start_general_code(&mut self.state, major, minor);
                self.report_if(error);
                proof {
                    more = conflict(error is Some);
                }
            },
            Event::MiscellaneousCode { major, minor } => {
                let error = line.start_miscellaneous_code(major, minor);
                self.report_if(error);
                proof {
                    more = conflict(error is Some);
                }
            },
            Event::ToolCode { major } => {
                line.start_tool_change_code(major);
            },
            Event::Diagnostic(span) => {
                self.report(InterpretError::SyntaxError(span));
                proof {
                    more = seq![Emission::Error(InterpretError::SyntaxError(span))];
                }
            },
            Event::EndLine => {
                self.end_line(&*line);
                proof {
                    more = before.state.after_line(*line).trace;
                }
                *line = Line::start_block();
            },
        }
        proof {
            assert(self.handed_out(&before, more));
            assert(done + Seq::<Emission>::empty() == done);
        }
    }

    /// A sequence of events, from the start of a line.
    fn take_all(&mut self, events: &[Event]) -> (line: Line)
        requires
            old(self).outputs().ready(),
        ensures
            ({
                let end = Progress::fresh(old(self).modal()).after_all(events@);
                &&& final(self).modal() == end.state
                &&& line == end.line
                &&& final(self).handed_out(old(self), end.trace)
            }),
    {
        let ghost before = *self;
        let ghost start = Progress::fresh(before.state);
        let mut line = Line::start_block();
        let mut i: usize = 0;
        while i < events.len()
            invariant
                i <= events.len(),
                ({
                    let at = start.after_all(events@.take(i as int));
                    &&& self.modal() == at.state
                    &&& line == at.line
                    &&& self.handed_out(&before, at.trace)
                }),
            decreases events.len() - i,
        {
            let ghost middle = *self;
            let ghost at = start.after_all(events@.take(i as int));
            let event = events[i];
            self.take(&mut line, event, Ghost(at.trace));
            proof {
                let more = choose|more: Seq<Emission>|
                    at.after(event).trace == at.trace + more && #[trigger] self.handed_out(
                        &middle,
                        more,
                    );
                Self::lemma_in_a_row(&before, &middle, &*self, at.trace, more);
                assert(events@.take(i + 1).drop_last() == events@.take(i as int));
            }
            i = i + 1;
        }
        proof {
            assert(events@.take(i as int) == events@);
        }
        line
    }

    /// Interprets what the parser reported of a text.
    pub fn interpret(&mut self, events: &[Event])
        requires
            old(self).outputs().ready(),
        ensures
            final(self).went_through(old(self), events@),
    {
        let _ = self.take_all(events);
    }

    /// Parses and interprets a whole program.
    pub fn run(&mut self, src: &str)
        requires
            old(self).outputs().ready(),
            readable(src@),
        ensures
            final(self).went_through(old(self), reported(src@)),
            complete(reported(src@)),
    {
        let events = parse(src);
        self.interpret(events.as_slice());
    }

    /// Parses and interprets a whole program, if the parser can take it.
    pub fn try_run(&mut self, src: &str) -> (ran: bool)
        requires
            old(self).outputs().ready(),
        ensures
            ran == readable(src@),
            ran ==> final(self).went_through(old(self), reported(src@)) && complete(
                reported(src@),
            ),
            !ran ==> *final(self) == *old(self),
    {
        if is_readable(src) {
            self.run(src);
            true
        } else {
            false
        }
    }

    /// Parses and interprets one line: for a loop that feeds the interpreter line by
    /// line.
    pub fn step(&mut self, line: &str)
        requires
            old(self).outputs().ready(),
            readable(line@),
        ensures
            final(self).went_through(old(self), reported(line@)),
            complete(reported(line@)),
    {
        self.run(line);
    }
}

} // verus!
