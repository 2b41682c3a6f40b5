//! What lines mean: the state that a line leads to, and what it hands out.
use vstd::prelude::*;
use crate::double::Double;
use super::command::Command;
use super::command::CoolantCommand;
use super::command::ProgramFlow;
use super::command::SpindleCommand;
use super::line::Event;
use super::line::HomeReference;
use super::line::Line;
use super::line::WordValue;
use super::line::code_group;
use super::modal_groups::miscellaneous_group;
use super::motion::ArcError;
use super::motion::ArcGeometry;
use super::motion::MotionMode;
use super::motion::ResolvedMotionCommand;
use super::motion::arc_center;
use super::sink::Emission;
use super::sink::InterpretError;
use super::sink::LineOutput;
use super::state::CannedCycleParams;
use super::state::DistanceMode;
use super::state::ModalState;
use super::state::Plane;
use super::state::Position;

verus! {

/// The state after a step, and what the step hands out.
#[verifier::ext_equal]
pub struct Outcome {
    pub state: ModalState,
    pub trace: Seq<Emission>,
}

impl Outcome {
    /// Nothing handed out.
    pub open spec fn silent(state: ModalState) -> Outcome {
        Outcome { state, trace: Seq::empty() }
    }

    /// One error.
    pub open spec fn error(state: ModalState, error: InterpretError) -> Outcome {
        Outcome { state, trace: seq![Emission::Error(error)] }
    }
}

/// A move as it is handed out.
pub open spec fn motion(
    start: Position,
    target: Position,
    motion_mode: MotionMode,
    arc: Option<ArcGeometry>,
    feed_rate: Double,
) -> Emission {
    Emission::Output(
        LineOutput::Motion(
            ResolvedMotionCommand { start, target, motion_mode, arc, feed_rate },
        ),
    )
}

pub open spec fn rapid(start: Position, target: Position, feed_rate: Double) -> Emission {
    motion(start, target, MotionMode::Rapid, None, feed_rate)
}

pub open spec fn linear(start: Position, target: Position, feed_rate: Double) -> Emission {
    motion(start, target, MotionMode::Linear, None, feed_rate)
}

/// A command as it is handed out.
pub open spec fn command(command: Command) -> Emission {
    Emission::Output(LineOutput::Command(command))
}

impl ModalState {
    /// Where an axis word leads: `offset` away in absolute mode, on from
    /// `current` in incremental mode; to `current` itself where there is none.
    pub open spec fn axis(self, current: Double, offset: Double, word: Option<Double>) -> Double {
        match word {
            None => current,
            Some(v) => match self.distance_mode {
                DistanceMode::Absolute => self.millimeters(v) + offset,
                DistanceMode::Incremental => current + self.millimeters(v),
            },
        }
    }

    /// Where an axis word leads when it is a machine coordinate.
    pub open spec fn machine_axis(self, current: Double, word: Option<Double>) -> Double {
        match word {
            None => current,
            Some(v) => self.millimeters(v),
        }
    }

    /// Where the axis words of a line lead.
    pub open spec fn target(
        self,
        x: Option<Double>,
        y: Option<Double>,
        z: Option<Double>,
        machine_coordinates: bool,
    ) -> Position {
        let at = self.position;
        if machine_coordinates {
            Position {
                x: self.machine_axis(at.x, x),
                y: self.machine_axis(at.y, y),
                z: self.machine_axis(at.z, z),
            }
        } else {
            let offset = self.offset();
            Position {
                x: self.axis(at.x, offset.x, x),
                y: self.axis(at.y, offset.y, y),
                z: self.axis(at.z, offset.z, z),
            }
        }
    }

    /// A word in millimeters, where it was given.
    pub open spec fn length(self, word: Option<Double>) -> Option<Double> {
        match word {
            None => None,
            Some(v) => Some(self.millimeters(v)),
        }
    }

    /// A word in millimeters, zero where it was not given.
    pub open spec fn length_or_zero(self, word: Option<Double>) -> Double {
        match word {
            None => Double::nought(),
            Some(v) => self.millimeters(v),
        }
    }
}

// ---- canned cycles ----

/// The words that a canned cycle takes from its line.
#[derive(Debug, Clone, Copy)]
pub struct CannedCycleWords {
    pub x: Option<Double>,
    pub y: Option<Double>,
    pub z: Option<Double>,
    pub r: Option<Double>,
    pub q: Option<Double>,
    pub p: Option<Double>,
}

/// How deep each bite of a peck drilling cycle goes, as long as `travelled` is
/// behind: each goes `q` deeper, and the last one to `total`. There is no answer
/// where the bites stop getting deeper before that.
pub open spec fn bites(travelled: Double, q: Double, total: Double) -> Option<Seq<Double>>
    decreases crate::double::SIGN - travelled.rank(),
{
    let next = (travelled + q).lesser(total);
    if total.at_most(next) {
        Some(seq![next])
    } else if travelled.below(next) {
        match bites(next, q, total) {
            Some(rest) => Some(seq![next] + rest),
            None => None,
        }
    } else {
        None
    }
}

/// A hole to be drilled.
#[derive(Debug, Clone, Copy)]
pub struct Hole {
    pub x: Double,
    pub y: Double,
    /// The height of the retract plane.
    pub r: Double,
    /// The height of the bottom.
    pub bottom: Double,
    /// The height that the cycle starts from.
    pub initial: Double,
    pub feed_rate: Double,
}

impl Hole {
    /// The point at a height over the hole.
    pub open spec fn at(self, z: Double) -> Position {
        Position { x: self.x, y: self.y, z }
    }

    /// +1 where the bottom is not below the retract plane, -1 where it is.
    pub open spec fn direction(self) -> Double {
        if self.r.at_most(self.bottom) {
            Double::of(1)
        } else {
            Double::of(1).opposite()
        }
    }

    /// The point that a bite reaches.
    pub open spec fn bitten(self, depth: Double) -> Position {
        self.at(self.r + self.direction() * depth)
    }

    /// How deep the hole is.
    pub open spec fn depth(self) -> Double {
        (self.bottom - self.r).size()
    }

    /// The moves of the bites: down to each, with a full retract in between.
    pub open spec fn pecks(self, depths: Seq<Double>) -> Seq<Emission>
        decreases depths.len(),
    {
        if depths.len() == 0 {
            Seq::empty()
        } else {
            let before = depths.drop_last();
            let retract = if before.len() == 0 {
                Seq::empty()
            } else {
                seq![rapid(self.bitten(before.last()), self.at(self.r), self.feed_rate)]
            };
            self.pecks(before) + retract + seq![
                linear(self.at(self.r), self.bitten(depths.last()), self.feed_rate),
            ]
        }
    }

    /// How far a height is from the bottom, on the side of the retract plane.
    pub open spec fn clearance(self, z: Double) -> Double {
        self.direction().opposite() * (z - self.bottom)
    }

    /// Where the cycle ends: at the retract plane, or at the height that it
    /// started from if it is to return there and that is further out.
    pub open spec fn retracted(self, return_to_initial: bool) -> Position {
        if return_to_initial && self.clearance(self.r).below(self.clearance(self.initial)) {
            self.at(self.initial)
        } else {
            self.at(self.r)
        }
    }
}

/// What happens at the bottom of the hole.
pub open spec fn bottom_action(kind: MotionMode, p: Option<Double>) -> Seq<Emission> {
    match kind {
        MotionMode::DrillDwell | MotionMode::BoreDwellFeedOut => match p {
            Some(seconds) => seq![command(Command::Dwell { seconds })],
            None => Seq::empty(),
        },
        MotionMode::BoreSpindleStop => seq![command(Command::Spindle(SpindleCommand::Stop))],
        _ => Seq::empty(),
    }
}

/// The moves of a cycle that starts from `start`, with `depths` for the bites
/// where it drills in bites.
pub open spec fn cycle_trace(
    start: Position,
    hole: Hole,
    kind: MotionMode,
    depths: Seq<Double>,
    p: Option<Double>,
    return_to_initial: bool,
) -> Seq<Emission> {
    let above = hole.at(start.z);
    let at_r = hole.at(hole.r);
    let approach = seq![
        rapid(start, above, hole.feed_rate),
        rapid(above, at_r, hole.feed_rate),
    ];
    let cut = if kind is PeckDrill {
        hole.pecks(depths)
    } else {
        seq![linear(at_r, hole.at(hole.bottom), hole.feed_rate)]
    };
    let deepest = if kind is PeckDrill {
        hole.bitten(depths.last())
    } else {
        hole.at(hole.bottom)
    };
    let out = hole.retracted(return_to_initial);
    let retract = if kind is BoreFeedOut || kind is BoreDwellFeedOut {
        linear(deepest, out, hole.feed_rate)
    } else {
        rapid(deepest, out, hole.feed_rate)
    };
    approach + cut + bottom_action(kind, p) + seq![retract]
}

/// A parameter that stays until it is given again.
pub open spec fn given_or(word: Option<Double>, stored: Option<Double>) -> Option<Double> {
    match word {
        Some(v) => Some(v),
        None => stored,
    }
}

impl ModalState {
    /// A height word of a canned cycle as a machine coordinate.
    pub open spec fn height(self, word: Option<Double>) -> Option<Double> {
        match word {
            None => None,
            Some(_) => Some(self.axis(self.position.z, self.offset().z, word)),
        }
    }

    /// The parameters after the words of a line. R, Q and P are looked at only
    /// when there is a depth, Q and P only when there is a retract plane too.
    pub open spec fn cycle_params(self, words: CannedCycleWords) -> CannedCycleParams {
        let stored = self.canned_cycle;
        let z = given_or(self.height(words.z), stored.z);
        let r = given_or(self.height(words.r), stored.r);
        if z is None {
            stored
        } else if r is None {
            CannedCycleParams { z, ..stored }
        } else {
            CannedCycleParams {
                z,
                r,
                q: given_or(self.length(words.q), stored.q),
                p: given_or(words.p, stored.p),
            }
        }
    }

    /// The hole that a line drills, its parameters complete.
    pub open spec fn hole(self, words: CannedCycleWords) -> Hole {
        let params = self.cycle_params(words);
        let offset = self.offset();
        Hole {
            x: self.axis(self.position.x, offset.x, words.x),
            y: self.axis(self.position.y, offset.y, words.y),
            r: params.r->0,
            bottom: params.z->0,
            initial: self.position.z,
            feed_rate: self.feed_rate,
        }
    }

    /// How deep the bites go; `None` where the increment is missing, not
    /// positive, or never reaches the bottom.
    pub open spec fn cycle_bites(self, words: CannedCycleWords) -> Option<Seq<Double>> {
        match self.cycle_params(words).q {
            Some(q) if Double::nought().below(q) => bites(
                Double::nought(),
                q,
                self.hole(words).depth(),
            ),
            _ => None,
        }
    }

    /// Why a canned cycle cannot run.
    pub open spec fn cycle_error(
        self,
        kind: MotionMode,
        words: CannedCycleWords,
    ) -> Option<InterpretError> {
        let params = self.cycle_params(words);
        if self.plane != Plane::Xy {
            Some(InterpretError::UnsupportedCannedCyclePlane)
        } else if params.z is None || params.r is None {
            Some(InterpretError::CannedCycleMissingParameter)
        } else if kind is PeckDrill && self.cycle_bites(words) is None {
            Some(InterpretError::InvalidPeckIncrement)
        } else if (kind is DrillDwell || kind is BoreDwellFeedOut) && params.p is None {
            Some(InterpretError::CannedCycleMissingParameter)
        } else {
            None
        }
    }

    /// One hole of a canned cycle. A cycle that cannot run moves nothing, but
    /// keeps the parameters that it was given.
    pub open spec fn cycle(self, kind: MotionMode, words: CannedCycleWords) -> Outcome {
        let params = if self.plane == Plane::Xy {
            self.cycle_params(words)
        } else {
            self.canned_cycle
        };
        match self.cycle_error(kind, words) {
            Some(error) => Outcome::error(ModalState { canned_cycle: params, ..self }, error),
            None => {
                let hole = self.hole(words);
                let depths = match self.cycle_bites(words) {
                    Some(depths) => depths,
                    None => Seq::empty(),
                };
                Outcome {
                    state: ModalState {
                        canned_cycle: params,
                        position: hole.retracted(self.canned_cycle_return_to_initial_z),
                        motion_mode: kind,
                        ..self
                    },
                    trace: cycle_trace(
                        self.position,
                        hole,
                        kind,
                        depths,
                        params.p,
                        self.canned_cycle_return_to_initial_z,
                    ),
                }
            },
        }
    }
}

// ---- straight moves and arcs ----

impl ModalState {
    /// The center of the arc that a line asks for.
    pub open spec fn line_center(
        self,
        line: Line,
        mode: MotionMode,
        target: Position,
    ) -> Result<Position, ArcError> {
        let ijk = if line.i is Some || line.j is Some || line.k is Some {
            Some(
                (
                    self.length_or_zero(line.i),
                    self.length_or_zero(line.j),
                    self.length_or_zero(line.k),
                ),
            )
        } else {
            None
        };
        arc_center(
            self.plane,
            self.position,
            target,
            ijk,
            self.length(line.r),
            mode is ArcClockwise,
        )
    }

    /// A straight move or an arc.
    pub open spec fn travel(self, line: Line, mode: MotionMode) -> Outcome {
        let target = self.target(line.x, line.y, line.z, line.machine_coordinates);
        let center = self.line_center(line, mode, target);
        if mode.arc() && center is Err {
            Outcome::error(self, InterpretError::InvalidArc(center->Err_0))
        } else {
            let arc = if mode.arc() {
                Some(ArcGeometry { center: center->Ok_0 })
            } else {
                None
            };
            Outcome {
                state: ModalState { position: target, motion_mode: mode, ..self },
                trace: seq![motion(self.position, target, mode, arc, self.feed_rate)],
            }
        }
    }
}

// ---- the end of a line ----

impl Line {
    /// The motion mode that the line runs in.
    pub open spec fn mode(self, state: ModalState) -> MotionMode {
        match self.resolved_mode {
            Some(mode) => mode,
            None => state.motion_mode,
        }
    }

    pub open spec fn has_axis_word(self) -> bool {
        self.x is Some || self.y is Some || self.z is Some
    }

    pub open spec fn has_arc_geometry(self) -> bool {
        self.i is Some || self.j is Some || self.k is Some || self.r is Some
    }

    /// The line asks for a move: by axis words; in an arc mode by the arc's words
    /// alone, for a full circle; or by naming a canned cycle.
    pub open spec fn moves(self, state: ModalState) -> bool {
        let mode = self.mode(state);
        !self.suppress_motion && (self.has_axis_word() || (mode.arc() && self.has_arc_geometry())
            || (mode.canned_cycle() && self.resolved_mode is Some))
    }

    pub open spec fn cycle_words(self) -> CannedCycleWords {
        CannedCycleWords { x: self.x, y: self.y, z: self.z, r: self.r, q: self.q, p: self.p }
    }
}

impl ModalState {
    /// The feed rate that a line gives, which its own moves go by already. It stays
    /// until it is given again, whatever becomes of the line's move.
    pub open spec fn after_feed(self, line: Line) -> ModalState {
        match line.f {
            Some(f) => ModalState { feed_rate: self.millimeters(f), ..self },
            None => self,
        }
    }

    /// The move of a line, if it asks for one. Where the mode that the line runs in is
    /// none, that is an error; G80 cancels the mode all the same.
    pub open spec fn after_motion(self, line: Line) -> Outcome {
        let mode = line.mode(self);
        if !line.moves(self) {
            Outcome::silent(ModalState { motion_mode: mode, ..self })
        } else if mode is Inactive {
            let motion_mode = if line.mode_cancelled {
                MotionMode::Inactive
            } else {
                self.motion_mode
            };
            Outcome::error(
                ModalState { motion_mode, ..self },
                InterpretError::NoActiveMotionMode,
            )
        } else if mode.canned_cycle() {
            self.cycle(mode, line.cycle_words())
        } else {
            self.travel(line, mode)
        }
    }

    /// The spindle speed after a line's S word.
    pub open spec fn spun(self, line: Line) -> Double {
        match line.s {
            Some(s) => s,
            None => self.spindle_speed,
        }
    }

    /// The spindle, coolant and program flow commands of a line.
    pub open spec fn after_machine_words(self, line: Line) -> Outcome {
        let speed = self.spun(line);
        let spindle = match line.spindle_word {
            None => Seq::empty(),
            Some(3) => seq![command(Command::Spindle(SpindleCommand::Clockwise(speed)))],
            Some(4) => seq![command(Command::Spindle(SpindleCommand::CounterClockwise(speed)))],
            Some(_) => seq![command(Command::Spindle(SpindleCommand::Stop))],
        };
        let coolant = match line.coolant_word {
            None => Seq::empty(),
            Some(7) => seq![command(Command::Coolant(CoolantCommand::Mist))],
            Some(8) => seq![command(Command::Coolant(CoolantCommand::Flood))],
            Some(_) => seq![command(Command::Coolant(CoolantCommand::Off))],
        };
        let flow = match line.program_flow {
            None => Seq::empty(),
            Some(0) => seq![command(Command::ProgramFlow(ProgramFlow::Stop))],
            Some(1) => seq![command(Command::ProgramFlow(ProgramFlow::OptionalStop))],
            Some(2) => seq![command(Command::ProgramFlow(ProgramFlow::End))],
            Some(_) => seq![command(Command::ProgramFlow(ProgramFlow::EndAndRewind))],
        };
        Outcome {
            state: ModalState { spindle_speed: speed, ..self },
            trace: spindle + coolant + flow,
        }
    }

    /// The dwell and the tool change of a line. A tool that the line itself
    /// selects counts.
    pub open spec fn after_tool_words(self, line: Line) -> Outcome {
        let tool = if line.tool_select is Some {
            line.tool_select
        } else {
            self.selected_tool
        };
        let dwell = if line.dwell_requested {
            let seconds = match line.p {
                Some(p) => p,
                None => Double::nought(),
            };
            seq![command(Command::Dwell { seconds })]
        } else {
            Seq::empty()
        };
        let change = if line.tool_change_requested {
            match tool {
                Some(tool) => seq![command(Command::ToolChange { tool })],
                None => seq![Emission::Error(InterpretError::NoToolSelected)],
            }
        } else {
            Seq::empty()
        };
        Outcome {
            state: ModalState { selected_tool: tool, ..self },
            trace: dwell + change,
        }
    }

    /// A coordinate of the G92 offset: such that the current position has the
    /// given coordinate in the active system.
    pub open spec fn shifted(
        self,
        at: Double,
        base: Double,
        word: Option<Double>,
        stored: Double,
    ) -> Double {
        match word {
            Some(v) => (at - base) - self.millimeters(v),
            None => stored,
        }
    }

    /// G92 and G92.1.
    pub open spec fn after_shift(self, line: Line) -> ModalState {
        let base = self.offset_of(self.coordinate_system);
        if line.g92_cancel_requested {
            ModalState { g92_offset: Position::origin(), ..self }
        } else if line.g92_requested {
            ModalState {
                g92_offset: Position {
                    x: self.shifted(self.position.x, base.x, line.x, self.g92_offset.x),
                    y: self.shifted(self.position.y, base.y, line.y, self.g92_offset.y),
                    z: self.shifted(self.position.z, base.z, line.z, self.g92_offset.z),
                },
                ..self
            }
        } else {
            self
        }
    }

    /// The stored reference position.
    pub open spec fn home(self, reference: HomeReference) -> Position {
        match reference {
            HomeReference::G28 => self.g28_position,
            HomeReference::G30 => self.g30_position,
        }
    }

    /// G28 and G30: a rapid move to the reference position, by way of the point
    /// that the axis words give, if there are any. The motion mode stays.
    pub open spec fn after_homing(self, line: Line) -> Outcome {
        match line.home_request {
            None => Outcome::silent(self),
            Some(reference) => {
                let home = self.home(reference);
                let via = self.target(line.x, line.y, line.z, false);
                Outcome {
                    state: ModalState { position: home, ..self },
                    trace: if line.has_axis_word() {
                        seq![
                            rapid(self.position, via, self.feed_rate),
                            rapid(via, home, self.feed_rate),
                        ]
                    } else {
                        seq![rapid(self.position, home, self.feed_rate)]
                    },
                }
            },
        }
    }

    /// G28.1 and G30.1: the current position becomes the reference position.
    pub open spec fn after_reference(self, line: Line) -> ModalState {
        match line.set_home_reference {
            None => self,
            Some(HomeReference::G28) => ModalState { g28_position: self.position, ..self },
            Some(HomeReference::G30) => ModalState { g30_position: self.position, ..self },
        }
    }

    /// The whole line: its feed rate, its move, its commands, its offsets, its homing.
    #[verifier::opaque]
    pub open spec fn after_line(self, line: Line) -> Outcome {
        let moved = self.after_feed(line).after_motion(line);
        let commanded = moved.state.after_machine_words(line);
        let tooled = commanded.state.after_tool_words(line);
        let homed = tooled.state.after_shift(line).after_homing(line);
        Outcome {
            state: homed.state.after_reference(line),
            trace: moved.trace + commanded.trace + tooled.trace + homed.trace,
        }
    }
}

// ---- a whole program ----

/// The interpreter between two events.
#[verifier::ext_equal]
pub struct Progress {
    pub state: ModalState,
    pub line: Line,
    pub trace: Seq<Emission>,
}

/// The error of a second code of one group.
pub open spec fn conflict(found: bool) -> Seq<Emission> {
    if found {
        seq![Emission::Error(InterpretError::ModalGroupConflict)]
    } else {
        Seq::empty()
    }
}

impl Progress {
    /// At the start of a line, nothing handed out yet.
    pub open spec fn fresh(state: ModalState) -> Progress {
        Progress { state, line: Line::blank(), trace: Seq::empty() }
    }

    /// After one more event.
    #[verifier::opaque]
    pub open spec fn after(self, event: Event) -> Progress {
        match event {
            Event::Word { letter, value } => match value {
                WordValue::Literal(v) => Progress {
                    line: self.line.with_word(letter, v.double()),
                    ..self
                },
                WordValue::Variable => Progress {
                    trace: self.trace + seq![Emission::Error(InterpretError::UnsupportedSyntax)],
                    ..self
                },
            },
            Event::GeneralCode { major, minor } => Progress {
                state: self.state.after_code(major, minor),
                line: self.line.with_code(major, minor),
                trace: self.trace + conflict(self.line.conflicts(code_group(major, minor))),
            },
            Event::MiscellaneousCode { major, minor } => Progress {
                line: self.line.with_miscellaneous_code(major, minor),
                trace: self.trace + conflict(
                    self.line.conflicts(miscellaneous_group(major, minor)),
                ),
                ..self
            },
            Event::ToolCode { major } => Progress {
                line: Line { tool_select: Some(major), ..self.line },
                ..self
            },
            Event::Diagnostic(span) => Progress {
                trace: self.trace + seq![Emission::Error(InterpretError::SyntaxError(span))],
                ..self
            },
            Event::EndLine => {
                let outcome = self.state.after_line(self.line);
                Progress {
                    state: outcome.state,
                    line: Line::blank(),
                    trace: self.trace + outcome.trace,
                }
            },
        }
    }

    /// After a sequence of events.
    pub open spec fn after_all(self, events: Seq<Event>) -> Progress
        decreases events.len(),
    {
        if events.len() == 0 {
            self
        } else {
            self.after_all(events.drop_last()).after(events.last())
        }
    }
}

} // verus!
