# swarf

Building blocks for CNC firmware, verified with Verus.

- `src/interpreter`: G-code interpretation. The `gcode` crate parses the text; the
  interpreter keeps the modal state and hands out resolved moves and commands.
- `src/planner`: look-ahead motion planning over a bounded queue, with arcs cut into
  segments.
- `src/bridge.rs`: the planner as the interpreter's output sink.
- `src/double.rs`, `src/rounding.rs`, `src/order.rs`, `src/single.rs`: IEEE 754
  arithmetic on bit patterns, exact to the bit.

The modules whose names end in `laws` state what holds of the parts together.
`app/` supplies the trigonometric functions of `libm`; `tests/` runs the library.

What is believed without proof stands in `src/interpreter/parser.rs`: that the parser's
reports depend on the text alone and leave no line open, and the ranges of code numbers.
