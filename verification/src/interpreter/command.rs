//! `Command`: every effect of a line that is not a move.
//!
//! Commands and moves leave the interpreter through one sink, in the order in
//! which they were resolved, so that a consumer can tell where "spindle on"
//! falls among the surrounding moves.
use vstd::prelude::*;
use crate::double::Double;

verus! {

/// M0/M1/M2/M30: what to do with program execution. Whether an optional stop is
/// honoured is a controller setting, so it is reported as it stands.
#[derive(Debug, Clone, Copy, PartialEq, Eq, Structural)]
pub enum ProgramFlow {
    /// M0: unconditional stop.
    Stop,
    /// M1: stop only if the controller's optional-stop switch is on.
    OptionalStop,
    /// M2: end of program.
    End,
    /// M30: end of program, and rewind to the start.
    EndAndRewind,
}

/// M3/M4/M5: spindle state. The speed is whatever S was last set to.
#[derive(Debug, Clone, Copy, PartialEq)]
pub enum SpindleCommand {
    /// M3: spindle on, clockwise, at the given revolutions per minute.
    Clockwise(Double),
    /// M4: spindle on, counterclockwise, at the given revolutions per minute.
    CounterClockwise(Double),
    /// M5: spindle stop.
    Stop,
}

/// M7/M8/M9: coolant state.
#[derive(Debug, Clone, Copy, PartialEq, Eq, Structural)]
pub enum CoolantCommand {
    /// M7: mist coolant on.
    Mist,
    /// M8: flood coolant on.
    Flood,
    /// M9: all coolant off.
    Off,
}

/// One resolved command that is not a move.
#[derive(Debug, Clone, Copy, PartialEq)]
pub enum Command {
    ProgramFlow(ProgramFlow),
    Spindle(SpindleCommand),
    Coolant(CoolantCommand),
    /// M6: change to the tool that the most recent T word selected.
    ToolChange { tool: u32 },
    /// G4, or the pause at the bottom of a dwelling canned cycle.
    Dwell { seconds: Double },
}

} // verus!
