//! `ModalState`: what the interpreter remembers from line to line.
//!
//! The state changes in place, line by line, and is never rolled back. What is
//! read out of it into a resolved command is copied: by the time a consumer
//! looks at the command, the state has moved on.
use vstd::prelude::*;
use crate::double::Double;
use super::motion::MotionMode;

verus! {

/// The plane in which arcs are read (G17/G18/G19).
#[derive(Debug, Clone, Copy, PartialEq, Eq, Structural)]
pub enum Plane {
    /// G17: the XY plane; Z is the linear axis.
    Xy,
    /// G18: the ZX plane; Y is the linear axis.
    Zx,
    /// G19: the YZ plane; X is the linear axis.
    Yz,
}

impl Default for Plane {
    fn default() -> (plane: Plane)
        ensures
            plane == Plane::Xy,
    {
        Plane::Xy
    }
}

/// Length units (G20/G21) of the numbers on a line. Positions are stored in
/// millimeters whatever the units are.
#[derive(Debug, Clone, Copy, PartialEq, Eq, Structural)]
pub enum Units {
    /// G20: inches.
    Inches,
    /// G21: millimeters.
    Millimeters,
}

impl Default for Units {
    fn default() -> (units: Units)
        ensures
            units == Units::Millimeters,
    {
        Units::Millimeters
    }
}

/// A work coordinate system (G54 to G59.3). Each has an offset of its own, set
/// by the host.
#[derive(Debug, Clone, Copy, PartialEq, Eq, Structural)]
pub enum CoordinateSystem {
    /// G54: the system that is active at first.
    G54,
    G55,
    G56,
    G57,
    G58,
    G59,
    G59_1,
    G59_2,
    G59_3,
}

impl CoordinateSystem {
    /// How many systems there are.
    pub const COUNT: usize = 9;

    /// The place of the system's offset in the table.
    pub open spec fn place(self) -> int {
        match self {
            CoordinateSystem::G54 => 0,
            CoordinateSystem::G55 => 1,
            CoordinateSystem::G56 => 2,
            CoordinateSystem::G57 => 3,
            CoordinateSystem::G58 => 4,
            CoordinateSystem::G59 => 5,
            CoordinateSystem::G59_1 => 6,
            CoordinateSystem::G59_2 => 7,
            CoordinateSystem::G59_3 => 8,
        }
    }

    /// The place of the system's offset in the table.
    pub fn index(self) -> (index: usize)
        ensures
            index == self.place(),
            index < CoordinateSystem::COUNT,
    {
        match self {
            CoordinateSystem::G54 => 0,
            CoordinateSystem::G55 => 1,
            CoordinateSystem::G56 => 2,
            CoordinateSystem::G57 => 3,
            CoordinateSystem::G58 => 4,
            CoordinateSystem::G59 => 5,
            CoordinateSystem::G59_1 => 6,
            CoordinateSystem::G59_2 => 7,
            CoordinateSystem::G59_3 => 8,
        }
    }
}

impl Default for CoordinateSystem {
    fn default() -> (system: CoordinateSystem)
        ensures
            system == CoordinateSystem::G54,
    {
        CoordinateSystem::G54
    }
}

/// Whether axis words are positions or steps (G90/G91).
#[derive(Debug, Clone, Copy, PartialEq, Eq, Structural)]
pub enum DistanceMode {
    /// G90: absolute.
    Absolute,
    /// G91: incremental.
    Incremental,
}

impl Default for DistanceMode {
    fn default() -> (mode: DistanceMode)
        ensures
            mode == DistanceMode::Absolute,
    {
        DistanceMode::Absolute
    }
}

/// A position in millimeters.
#[derive(Debug, Clone, Copy, PartialEq)]
pub struct Position {
    pub x: Double,
    pub y: Double,
    pub z: Double,
}

impl Position {
    /// All coordinates zero.
    pub open spec fn origin() -> Position {
        Position { x: Double::nought(), y: Double::nought(), z: Double::nought() }
    }

    /// Coordinate by coordinate.
    pub open spec fn moved_by(self, offset: Position) -> Position {
        Position { x: self.x + offset.x, y: self.y + offset.y, z: self.z + offset.z }
    }
}

impl Default for Position {
    fn default() -> (position: Position)
        ensures
            position == Position::origin(),
    {
        Position { x: Double::zeroed(), y: Double::zeroed(), z: Double::zeroed() }
    }
}

/// The parameters of the canned drilling cycles, which stay until they are given
/// again. Distances are absolute machine millimeters, except the peck increment,
/// which is a length; the dwell is in seconds. `None` until first given.
#[derive(Debug, Clone, Copy, PartialEq)]
pub struct CannedCycleParams {
    /// The bottom of the hole.
    pub z: Option<Double>,
    /// The retract plane.
    pub r: Option<Double>,
    /// The peck increment (G83 only).
    pub q: Option<Double>,
    /// The dwell at the bottom (G82 and G89 only).
    pub p: Option<Double>,
}

impl Default for CannedCycleParams {
    fn default() -> (params: CannedCycleParams)
        ensures
            params == (CannedCycleParams { z: None, r: None, q: None, p: None }),
    {
        CannedCycleParams { z: None, r: None, q: None, p: None }
    }
}

/// The persistent state of the interpreter.
#[derive(Debug, Clone, Copy, PartialEq)]
pub struct ModalState {
    /// Where the next move starts from, in machine coordinates.
    pub position: Position,
    /// What a line with axis words and no motion word does.
    pub motion_mode: MotionMode,
    pub plane: Plane,
    pub units: Units,
    pub distance_mode: DistanceMode,
    pub coordinate_system: CoordinateSystem,
    /// The offset of each coordinate system. Hosts read and write it through
    /// `coordinate_system_offset` and `set_coordinate_system_offset`.
    pub coordinate_system_offsets: [Position; CoordinateSystem::COUNT],
    /// The origin shift that G92 set, on top of the coordinate system's.
    pub g92_offset: Position,
    /// Where G28 goes, in machine coordinates.
    pub g28_position: Position,
    /// Where G30 goes, in machine coordinates.
    pub g30_position: Position,
    /// In millimeters per minute, converted when F was read.
    pub feed_rate: Double,
    /// In revolutions per minute.
    pub spindle_speed: Double,
    /// The tool that the last T word selected.
    pub selected_tool: Option<u32>,
    pub canned_cycle: CannedCycleParams,
    /// G98 (true): a canned cycle retracts to the higher of the R plane and the
    /// height it started from. G99 (false): always to the R plane.
    pub canned_cycle_return_to_initial_z: bool,
}

impl ModalState {
    /// The state at power-on: every offset is zero.
    pub open spec fn initial(self) -> bool {
        &&& forall|system: CoordinateSystem| #[trigger]
            self.offset_of(system) == Position::origin()
        &&& self == ModalState {
            position: Position::origin(),
            motion_mode: MotionMode::Inactive,
            plane: Plane::Xy,
            units: Units::Millimeters,
            distance_mode: DistanceMode::Absolute,
            coordinate_system: CoordinateSystem::G54,
            coordinate_system_offsets: self.coordinate_system_offsets,
            g92_offset: Position::origin(),
            g28_position: Position::origin(),
            g30_position: Position::origin(),
            feed_rate: Double::nought(),
            spindle_speed: Double::nought(),
            selected_tool: None,
            canned_cycle: CannedCycleParams { z: None, r: None, q: None, p: None },
            canned_cycle_return_to_initial_z: true,
        }
    }

    /// A number from the line, in millimeters.
    pub open spec fn millimeters(self, raw: Double) -> Double {
        match self.units {
            Units::Millimeters => raw,
            Units::Inches => raw * (Double::of(254) / Double::of(10)),
        }
    }

    /// The offset of a coordinate system.
    pub open spec fn offset_of(self, system: CoordinateSystem) -> Position {
        self.coordinate_system_offsets@[system.place()]
    }

    /// The offset of the active coordinate system and that of G92 together.
    pub open spec fn offset(self) -> Position {
        self.offset_of(self.coordinate_system).moved_by(self.g92_offset)
    }

    /// The state at power-on.
    pub fn new() -> (state: ModalState)
        ensures
            state.initial(),
    {
        let origin = Position::default();
        ModalState {
            position: origin,
            motion_mode: MotionMode::default(),
            plane: Plane::default(),
            units: Units::default(),
            distance_mode: DistanceMode::default(),
            coordinate_system: CoordinateSystem::default(),
            coordinate_system_offsets: [origin; CoordinateSystem::COUNT],
            g92_offset: origin,
            g28_position: origin,
            g30_position: origin,
            feed_rate: Double::zeroed(),
            spindle_speed: Double::zeroed(),
            selected_tool: None,
            canned_cycle: CannedCycleParams::default(),
            canned_cycle_return_to_initial_z: true,
        }
    }

    /// A number from the line, in millimeters, by the units that are active now.
    pub fn to_mm(&self, raw: Double) -> (length: Double)
        ensures
            length == self.millimeters(raw),
    {
        match self.units {
            Units::Millimeters => raw,
            Units::Inches => raw * (Double::from_integer(254) / Double::from_integer(10)),
        }
    }

    /// The offset of a coordinate system: zero until the host sets one.
    pub fn coordinate_system_offset(&self, system: CoordinateSystem) -> (offset: Position)
        ensures
            offset == self.offset_of(system),
    {
        self.coordinate_system_offsets[system.index()]
    }

    /// Sets the offset of a coordinate system.
    pub fn set_coordinate_system_offset(&mut self, system: CoordinateSystem, offset: Position)
        ensures
            *final(self) == (ModalState {
                coordinate_system_offsets: final(self).coordinate_system_offsets,
                ..*old(self)
            }),
            forall|other: CoordinateSystem| #[trigger]
                final(self).offset_of(other) == if other == system {
                    offset
                } else {
                    old(self).offset_of(other)
                },
    {
        self.coordinate_system_offsets[system.index()] = offset;
    }

    /// The offset that absolute moves are shifted by.
    pub fn active_offset(&self) -> (offset: Position)
        ensures
            offset == self.offset(),
    {
        let base = self.coordinate_system_offset(self.coordinate_system);
        Position {
            x: base.x + self.g92_offset.x,
            y: base.y + self.g92_offset.y,
            z: base.z + self.g92_offset.z,
        }
    }
}

impl Default for ModalState {
    fn default() -> (state: ModalState)
        ensures
            state.initial(),
    {
        ModalState::new()
    }
}

} // verus!
