//! The interpreter: G-code in, resolved moves and commands out.
//!
//! It keeps the modal state of a machine: position, motion mode, plane, units,
//! distance mode, offsets, feed rate, spindle speed and tool. The parser reports the
//! words of each line; at the end of the line they become moves, commands or errors,
//! which go to sinks that the host supplies.
//!
//! `source` says which texts the parser can take, and `parser` writes down what it
//! reports of them.
//!
//! `meaning` says what a line does, as a function from the state and the words to the
//! next state and what is handed out. `visitor` does it.
pub mod arc_laws;
pub mod center_laws;
pub mod circle;
pub mod command;
pub mod laws;
pub mod line;
pub mod meaning;
pub mod modal_groups;
pub mod motion;
pub mod parser;
pub mod program_laws;
pub mod sink;
pub mod source;
pub mod state;
pub mod target_laws;
pub mod visitor;

pub use self::command::Command;
pub use self::command::CoolantCommand;
pub use self::command::ProgramFlow;
pub use self::command::SpindleCommand;
pub use self::line::Event;
pub use self::line::WordValue;
pub use self::modal_groups::ModalGroup;
pub use self::modal_groups::ModalGroupSet;
pub use self::motion::ArcError;
pub use self::motion::ArcGeometry;
pub use self::motion::MotionMode;
pub use self::motion::ResolvedMotionCommand;
pub use self::sink::CommandSink;
pub use self::sink::ErrorSink;
pub use self::sink::InterpretError;
pub use self::sink::LineOutput;
pub use self::sink::MotionSink;
pub use self::sink::OutputSink;
pub use self::sink::SourceSpan;
pub use self::sink::SplitSink;
pub use self::state::CoordinateSystem;
pub use self::state::DistanceMode;
pub use self::state::ModalState;
pub use self::state::Plane;
pub use self::state::Position;
pub use self::state::Units;
pub use self::visitor::Interpreter;
