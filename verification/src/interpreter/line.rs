//! `Line`: what has been read of the current line.
//!
//! The words of a line form one pool, whether they stand alone or behind a G or
//! M word: `G1 G91 X10` gives X to the line, not to G91. What the words do is
//! decided at the end of the line; the codes that set a mode do so at once.
use vstd::prelude::*;
use crate::double::Double;
use crate::single::Single;
use super::modal_groups::ModalGroup;
use super::modal_groups::ModalGroupSet;
use super::modal_groups::classify_general_code;
use super::modal_groups::classify_miscellaneous_code;
use super::modal_groups::general_group;
use super::modal_groups::miscellaneous_group;
use super::motion::MotionMode;
use super::sink::InterpretError;
use super::sink::SourceSpan;
use super::state::CoordinateSystem;
use super::state::DistanceMode;
use super::state::ModalState;
use super::state::Plane;
use super::state::Units;

verus! {

/// The value of a word.
#[derive(Debug, Clone, Copy, PartialEq)]
pub enum WordValue {
    Literal(Single),
    /// A parameter reference or an expression, which is not evaluated.
    Variable,
}

/// What the parser reports of the source text, in order.
#[derive(Debug, Clone, Copy, PartialEq)]
pub enum Event {
    /// A letter with its value, alone or as an argument of a G or M word.
    Word { letter: char, value: WordValue },
    GeneralCode { major: u32, minor: Option<u32> },
    MiscellaneousCode { major: u32, minor: Option<u32> },
    ToolCode { major: u32 },
    /// Something that the parser could not read.
    Diagnostic(SourceSpan),
    EndLine,
}

/// The stored reference position that a G28/G30 line speaks of.
#[derive(Debug, Clone, Copy, PartialEq, Eq, Structural)]
pub enum HomeReference {
    G28,
    G30,
}

/// The words and requests of the current line so far.
#[derive(Debug, Clone, Copy)]
pub struct Line {
    /// The modal groups of its codes.
    pub seen_groups: ModalGroupSet,
    /// The motion mode that a motion word on it asks for.
    pub resolved_mode: Option<MotionMode>,
    /// The motion word that counts is G80.
    pub mode_cancelled: bool,
    pub x: Option<Double>,
    pub y: Option<Double>,
    pub z: Option<Double>,
    pub f: Option<Double>,
    /// A dwell in seconds.
    pub p: Option<Double>,
    /// A spindle speed.
    pub s: Option<Double>,
    /// The offset of an arc's center from its start.
    pub i: Option<Double>,
    pub j: Option<Double>,
    pub k: Option<Double>,
    /// An arc's radius, or the retract plane of a canned cycle.
    pub r: Option<Double>,
    /// A peck increment.
    pub q: Option<Double>,
    pub dwell_requested: bool,
    /// The number of an M0/M1/M2/M30 word.
    pub program_flow: Option<u32>,
    /// The number of an M3/M4/M5 word.
    pub spindle_word: Option<u32>,
    /// The number of an M7/M8/M9 word.
    pub coolant_word: Option<u32>,
    pub tool_change_requested: bool,
    pub tool_select: Option<u32>,
    /// The axis words are not the target of a move.
    pub suppress_motion: bool,
    /// G92: the axis words set its offset.
    pub g92_requested: bool,
    /// G92.1: its offset goes back to zero.
    pub g92_cancel_requested: bool,
    /// G28 or G30.
    pub home_request: Option<HomeReference>,
    /// G28.1 or G30.1.
    pub set_home_reference: Option<HomeReference>,
    /// G53: the axis words are machine coordinates.
    pub machine_coordinates: bool,
}

/// The modal group of a G code as the interpreter sees it: the canned cycles
/// that it can run are motion words too.
pub open spec fn code_group(major: u32, minor: Option<u32>) -> Option<ModalGroup> {
    if cycle_of(major, minor) is Some {
        Some(ModalGroup::Motion)
    } else {
        general_group(major, minor)
    }
}

/// The canned cycle that a G code starts.
pub open spec fn cycle_of(major: u32, minor: Option<u32>) -> Option<MotionMode> {
    match (major, minor) {
        (81, None) => Some(MotionMode::Drill),
        (82, None) => Some(MotionMode::DrillDwell),
        (83, None) => Some(MotionMode::PeckDrill),
        (85, None) => Some(MotionMode::BoreFeedOut),
        (86, None) => Some(MotionMode::BoreSpindleStop),
        (89, None) => Some(MotionMode::BoreDwellFeedOut),
        _ => None,
    }
}

/// The motion mode that a motion word asks for. G80 and the probing codes ask
/// for none.
pub open spec fn mode_of(major: u32, minor: Option<u32>) -> MotionMode {
    match (major, minor) {
        (0, None) => MotionMode::Rapid,
        (1, None) => MotionMode::Linear,
        (2, None) => MotionMode::ArcClockwise,
        (3, None) => MotionMode::ArcCounterclockwise,
        _ => match cycle_of(major, minor) {
            Some(cycle) => cycle,
            None => MotionMode::Inactive,
        },
    }
}

/// The coordinate system that a G code selects.
pub open spec fn system_of(major: u32, minor: Option<u32>) -> Option<CoordinateSystem> {
    match (major, minor) {
        (54, None) => Some(CoordinateSystem::G54),
        (55, None) => Some(CoordinateSystem::G55),
        (56, None) => Some(CoordinateSystem::G56),
        (57, None) => Some(CoordinateSystem::G57),
        (58, None) => Some(CoordinateSystem::G58),
        (59, None) => Some(CoordinateSystem::G59),
        (59, Some(1)) => Some(CoordinateSystem::G59_1),
        (59, Some(2)) => Some(CoordinateSystem::G59_2),
        (59, Some(3)) => Some(CoordinateSystem::G59_3),
        _ => None,
    }
}

impl ModalState {
    /// The state after the mode that a G code sets, if it sets one.
    pub open spec fn after_code(self, major: u32, minor: Option<u32>) -> ModalState {
        match (major, minor) {
            (17, None) => ModalState { plane: Plane::Xy, ..self },
            (18, None) => ModalState { plane: Plane::Zx, ..self },
            (19, None) => ModalState { plane: Plane::Yz, ..self },
            (20, None) => ModalState { units: Units::Inches, ..self },
            (21, None) => ModalState { units: Units::Millimeters, ..self },
            (90, None) => ModalState { distance_mode: DistanceMode::Absolute, ..self },
            (91, None) => ModalState { distance_mode: DistanceMode::Incremental, ..self },
            (98, None) => ModalState { canned_cycle_return_to_initial_z: true, ..self },
            (99, None) => ModalState { canned_cycle_return_to_initial_z: false, ..self },
            _ => match system_of(major, minor) {
                Some(system) => ModalState { coordinate_system: system, ..self },
                None => self,
            },
        }
    }
}

impl Line {
    /// Nothing read yet.
    pub open spec fn blank() -> Line {
        Line {
            seen_groups: ModalGroupSet::none(),
            resolved_mode: None,
            mode_cancelled: false,
            x: None,
            y: None,
            z: None,
            f: None,
            p: None,
            s: None,
            i: None,
            j: None,
            k: None,
            r: None,
            q: None,
            dwell_requested: false,
            program_flow: None,
            spindle_word: None,
            coolant_word: None,
            tool_change_requested: false,
            tool_select: None,
            suppress_motion: false,
            g92_requested: false,
            g92_cancel_requested: false,
            home_request: None,
            set_home_reference: None,
            machine_coordinates: false,
        }
    }

    /// The line with one more word. A later word of a letter replaces an earlier
    /// one; letters without a meaning here are passed over.
    pub open spec fn with_word(self, letter: char, v: Double) -> Line {
        match letter {
            'X' => Line { x: Some(v), ..self },
            'Y' => Line { y: Some(v), ..self },
            'Z' => Line { z: Some(v), ..self },
            'F' => Line { f: Some(v), ..self },
            'P' => Line { p: Some(v), ..self },
            'S' => Line { s: Some(v), ..self },
            'I' => Line { i: Some(v), ..self },
            'J' => Line { j: Some(v), ..self },
            'K' => Line { k: Some(v), ..self },
            'R' => Line { r: Some(v), ..self },
            'Q' => Line { q: Some(v), ..self },
            _ => self,
        }
    }

    /// The line with one more code's group.
    pub open spec fn with_group(self, group: Option<ModalGroup>) -> Line {
        match group {
            Some(g) => Line { seen_groups: self.seen_groups.with(g), ..self },
            None => self,
        }
    }

    /// A code of this group would be the second one.
    pub open spec fn conflicts(self, group: Option<ModalGroup>) -> bool {
        group matches Some(g) && self.seen_groups@.contains(g)
    }

    /// The line with one more G code.
    pub open spec fn with_code(self, major: u32, minor: Option<u32>) -> Line {
        let line = self.with_group(code_group(major, minor));
        if code_group(major, minor) == Some(ModalGroup::Motion) {
            Line {
                resolved_mode: Some(mode_of(major, minor)),
                mode_cancelled: major == 80,
                ..line
            }
        } else {
            match (major, minor) {
                (4, None) => Line { dwell_requested: true, ..line },
                (28, None) => Line {
                    home_request: Some(HomeReference::G28),
                    suppress_motion: true,
                    ..line
                },
                (28, Some(1)) => Line {
                    set_home_reference: Some(HomeReference::G28),
                    suppress_motion: true,
                    ..line
                },
                (30, None) => Line {
                    home_request: Some(HomeReference::G30),
                    suppress_motion: true,
                    ..line
                },
                (30, Some(1)) => Line {
                    set_home_reference: Some(HomeReference::G30),
                    suppress_motion: true,
                    ..line
                },
                (53, None) => Line { machine_coordinates: true, ..line },
                (92, None) => Line { g92_requested: true, suppress_motion: true, ..line },
                (92, Some(1)) => Line {
                    g92_cancel_requested: true,
                    suppress_motion: true,
                    ..line
                },
                _ => line,
            }
        }
    }

    /// The line with one more M code.
    pub open spec fn with_miscellaneous_code(self, major: u32, minor: Option<u32>) -> Line {
        let group = miscellaneous_group(major, minor);
        let line = self.with_group(group);
        match group {
            Some(ModalGroup::ProgramStopping) => Line { program_flow: Some(major), ..line },
            Some(ModalGroup::SpindleTurning) => Line { spindle_word: Some(major), ..line },
            Some(ModalGroup::CoolantControl) => Line { coolant_word: Some(major), ..line },
            Some(ModalGroup::ToolChange) => Line { tool_change_requested: true, ..line },
            _ => line,
        }
    }

    /// A line of which nothing has been read.
    pub fn start_block() -> (line: Line)
        ensures
            line == Line::blank(),
    {
        Line {
            seen_groups: ModalGroupSet::new(),
            resolved_mode: None,
            mode_cancelled: false,
            x: None,
            y: None,
            z: None,
            f: None,
            p: None,
            s: None,
            i: None,
            j: None,
            k: None,
            r: None,
            q: None,
            dwell_requested: false,
            program_flow: None,
            spindle_word: None,
            coolant_word: None,
            tool_change_requested: false,
            tool_select: None,
            suppress_motion: false,
            g92_requested: false,
            g92_cancel_requested: false,
            home_request: None,
            set_home_reference: None,
            machine_coordinates: false,
        }
    }

    /// Takes a word into the pool, unless its value is not a number.
    pub fn record_axis(&mut self, letter: char, value: WordValue) -> (error: Option<InterpretError>)
        ensures
            value matches WordValue::Literal(v) ==> *final(self) == old(self).with_word(
                letter,
                v.double(),
            ) && error is None,
            value is Variable ==> *final(self) == *old(self) && error == Some(
                InterpretError::UnsupportedSyntax,
            ),
    {
        let v = match value {
            WordValue::Literal(v) => v.to_double(),
            WordValue::Variable => {
                return Some(InterpretError::UnsupportedSyntax);
            },
        };
        match letter {
            'X' => self.x = Some(v),
            'Y' => self.y = Some(v),
            'Z' => self.z = Some(v),
            'F' => self.f = Some(v),
            'P' => self.p = Some(v),
            'S' => self.s = Some(v),
            'I' => self.i = Some(v),
            'J' => self.j = Some(v),
            'K' => self.k = Some(v),
            'R' => self.r = Some(v),
            'Q' => self.q = Some(v),
            _ => {},
        }
        None
    }

    /// Marks the group of a code as seen; an error if it was seen before.
    fn classify_and_record_group(&mut self, group: ModalGroup) -> (error: Option<InterpretError>)
        ensures
            *final(self) == old(self).with_group(Some(group)),
            error == if old(self).conflicts(Some(group)) {
                Some(InterpretError::ModalGroupConflict)
            } else {
                None
            },
    {
        let conflict = self.seen_groups.contains(group);
        self.seen_groups.insert(group);
        if conflict {
            Some(InterpretError::ModalGroupConflict)
        } else {
            None
        }
    }

    /// Takes a G code: what it sets in the state it sets at once.
    pub fn start_general_code(
        &mut self,
        state: &mut ModalState,
        major: u32,
        minor: Option<u32>,
    ) -> (error: Option<InterpretError>)
        ensures
            *final(self) == old(self).with_code(major, minor),
            *final(state) == old(state).after_code(major, minor),
            error == if old(self).conflicts(code_group(major, minor)) {
                Some(InterpretError::ModalGroupConflict)
            } else {
                None
            },
    {
        let cycle = match (major, minor) {
            (81, None) => Some(MotionMode::Drill),
            (82, None) => Some(MotionMode::DrillDwell),
            (83, None) => Some(MotionMode::PeckDrill),
            (85, None) => Some(MotionMode::BoreFeedOut),
            (86, None) => Some(MotionMode::BoreSpindleStop),
            (89, None) => Some(MotionMode::BoreDwellFeedOut),
            _ => None,
        };
        if let Some(mode) = cycle {
            let error = self.classify_and_record_group(ModalGroup::Motion);
            self.resolved_mode = Some(mode);
            self.mode_cancelled = false;
            return error;
        }
        let group = match classify_general_code(major, minor) {
            Some(group) => group,
            None => {
                return None;
            },
        };
        let error = self.classify_and_record_group(group);
        match group {
            ModalGroup::Motion => {
                self.mode_cancelled = major == 80;
                self.resolved_mode = Some(
                    match (major, minor) {
                        (0, None) => MotionMode::Rapid,
                        (1, None) => MotionMode::Linear,
                        (2, None) => MotionMode::ArcClockwise,
                        (3, None) => MotionMode::ArcCounterclockwise,
                        _ => MotionMode::Inactive,
                    },
                );
            },
            ModalGroup::Plane => {
                state.plane = match major {
                    17 => Plane::Xy,
                    18 => Plane::Zx,
                    _ => Plane::Yz,
                };
            },
            ModalGroup::Units => {
                state.units = match major {
                    20 => Units::Inches,
                    _ => Units::Millimeters,
                };
            },
            ModalGroup::DistanceMode => {
                state.distance_mode = match major {
                    90 => DistanceMode::Absolute,
                    _ => DistanceMode::Incremental,
                };
            },
            ModalGroup::NonModal => {
                match (major, minor) {
                    (4, None) => {
                        self.dwell_requested = true;
                    },
                    (92, None) => {
                        self.g92_requested = true;
                        self.suppress_motion = true;
                    },
                    (92, Some(1)) => {
                        self.g92_cancel_requested = true;
                        self.suppress_motion = true;
                    },
                    (28, None) => {
                        self.home_request = Some(HomeReference::G28);
                        self.suppress_motion = true;
                    },
                    (28, Some(1)) => {
                        self.set_home_reference = Some(HomeReference::G28);
                        self.suppress_motion = true;
                    },
                    (30, None) => {
                        self.home_request = Some(HomeReference::G30);
                        self.suppress_motion = true;
                    },
                    (30, Some(1)) => {
                        self.set_home_reference = Some(HomeReference::G30);
                        self.suppress_motion = true;
                    },
                    (53, None) => {
                        self.machine_coordinates = true;
                    },
                    _ => {},
                }
            },
            ModalGroup::CoordinateSystem => {
                state.coordinate_system = match (major, minor) {
                    (54, _) => CoordinateSystem::G54,
                    (55, _) => CoordinateSystem::G55,
                    (56, _) => CoordinateSystem::G56,
                    (57, _) => CoordinateSystem::G57,
                    (58, _) => CoordinateSystem::G58,
                    (_, None) => CoordinateSystem::G59,
                    (_, Some(1)) => CoordinateSystem::G59_1,
                    (_, Some(2)) => CoordinateSystem::G59_2,
                    _ => CoordinateSystem::G59_3,
                };
            },
            ModalGroup::CannedCycleReturnMode => {
                state.canned_cycle_return_to_initial_z = major == 98;
            },
            _ => {},
        }
        error
    }

    /// Takes an M code.
    pub fn start_miscellaneous_code(
        &mut self,
        major: u32,
        minor: Option<u32>,
    ) -> (error: Option<InterpretError>)
        ensures
            *final(self) == old(self).with_miscellaneous_code(major, minor),
            error == if old(self).conflicts(miscellaneous_group(major, minor)) {
                Some(InterpretError::ModalGroupConflict)
            } else {
                None
            },
    {
        if let Some(group) = classify_miscellaneous_code(major, minor) {
            let error = self.classify_and_record_group(group);
            match group {
                ModalGroup::ProgramStopping => self.program_flow = Some(major),
                ModalGroup::SpindleTurning => self.spindle_word = Some(major),
                ModalGroup::CoolantControl => self.coolant_word = Some(major),
                ModalGroup::ToolChange => self.tool_change_requested = true,
                _ => {},
            }
            error
        } else {
            None
        }
    }

    /// Takes a T code.
    pub fn start_tool_change_code(&mut self, major: u32)
        ensures
            *final(self) == (Line { tool_select: Some(major), ..*old(self) }),
    {
        self.tool_select = Some(major);
    }
}

} // verus!
