//! Building blocks for CNC firmware: from G-code to planned motion.
//!
//! - `interpreter` parses G-code, keeps the modal state and turns the words of each
//!   line into resolved moves and commands.
//! - `planner` gives moves their speeds: it cuts arcs into segments, takes corners as
//!   fast as the machine can, and looks ahead over a bounded queue.
//! - `bridge` makes a planner the output sink of the interpreter.
//!
//! Coordinates, feed rates and speeds are binary64 numbers. `double` holds them as
//! their bit patterns, with IEEE 754 arithmetic that is exact to the bit, on top of
//! `rounding`; `order` relates that arithmetic to the order of the numbers. The numbers
//! in a text are binary32, as `single` holds them.
//!
//! What is promised of the parts together is stated and proved in the modules whose
//! names end in `laws`.
pub mod bridge;
pub mod bridge_laws;
pub mod double;
pub mod interpreter;
pub mod order;
pub mod planner;
pub mod rounding;
pub mod single;
pub mod value;

pub use bridge::GcodePlanner;
pub use double::Double;
