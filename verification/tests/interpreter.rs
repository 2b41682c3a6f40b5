use swarf::double::Double;
use swarf::interpreter::command::{Command, CoolantCommand, ProgramFlow, SpindleCommand};
use swarf::interpreter::line::{Event, WordValue};
use swarf::interpreter::motion::{ArcError, MotionMode, ResolvedMotionCommand};
use swarf::interpreter::sink::{
    CommandSink, ErrorSink, InterpretError, LineOutput, MotionSink, OutputSink, SourceSpan,
    SplitSink,
};
use swarf::interpreter::source::is_readable;
use swarf::interpreter::state::{CoordinateSystem, ModalState, Position};
use swarf::interpreter::visitor::Interpreter;
use swarf::single::Single;

fn d(x: f64) -> Double {
    Double { bits: x.to_bits() }
}

fn f(x: Double) -> f64 {
    f64::from_bits(x.bits)
}

fn literal(x: f32) -> WordValue {
    WordValue::Literal(Single { bits: x.to_bits() })
}

#[derive(Default)]
struct CollectingSink {
    commands: Vec<ResolvedMotionCommand>,
}

impl MotionSink for CollectingSink {
    fn push(&mut self, command: ResolvedMotionCommand) -> Result<(), ()> {
        self.commands.push(command);
        Ok(())
    }
}

#[derive(Default)]
struct CollectingCommands {
    commands: Vec<Command>,
}

impl CommandSink for CollectingCommands {
    fn push(&mut self, command: Command) -> Result<(), ()> {
        self.commands.push(command);
        Ok(())
    }
}

#[derive(Default)]
struct CollectingErrors {
    errors: Vec<InterpretError>,
}

impl ErrorSink for CollectingErrors {
    fn push(&mut self, error: InterpretError) {
        self.errors.push(error);
    }
}


fn interpreter() -> Interpreter<SplitSink<CollectingSink, CollectingCommands>, CollectingErrors> {
    Interpreter::new(
        SplitSink {
            motions: CollectingSink::default(),
            commands: CollectingCommands::default(),
        },
        CollectingErrors::default(),
    )
}

fn finish(
    interp: Interpreter<SplitSink<CollectingSink, CollectingCommands>, CollectingErrors>,
) -> (CollectingSink, CollectingCommands, CollectingErrors) {
    let (outputs, errors) = interp.into_sinks();
    (outputs.motions, outputs.commands, errors)
}

fn run(src: &str) -> (CollectingSink, CollectingCommands, CollectingErrors) {
    let mut interp = interpreter();
    interp.run(src);
    finish(interp)
}

#[test]
fn simple_linear_move_resolves_to_one_command() {
    let (sink, _, _) = run("G1 X10 Y20\n");
    assert_eq!(sink.commands.len(), 1);
    let cmd = sink.commands[0];
    assert_eq!(cmd.motion_mode, MotionMode::Linear);
    assert_eq!(cmd.target.x, d(10.0));
    assert_eq!(cmd.target.y, d(20.0));
    assert_eq!(cmd.start, Position::default());
}

#[test]
fn modal_carry_forward_reuses_previous_motion_mode() {
    let (sink, _, _) = run("G1 X10\nY20\n");
    assert_eq!(sink.commands.len(), 2);
    assert_eq!(sink.commands[1].motion_mode, MotionMode::Linear);
    assert_eq!(sink.commands[1].target.y, d(20.0));
    assert_eq!(sink.commands[1].target.x, d(10.0));
}

#[test]
fn bare_axis_words_before_any_command_have_no_active_motion_mode() {
    let (sink, _, errors) = run("X10\n");
    assert_eq!(sink.commands.len(), 0);
    assert!(errors.errors.contains(&InterpretError::NoActiveMotionMode));
}

#[test]
fn incremental_distance_mode_adds_to_current_position() {
    let (sink, _, _) = run("G1 G91 X10\nX10\n");
    assert_eq!(sink.commands.len(), 2);
    assert_eq!(sink.commands[0].target.x, d(10.0));
    assert_eq!(sink.commands[1].target.x, d(20.0));
}

#[test]
fn conflicting_motion_words_on_one_line_is_detected() {
    let (_, _, errors) = run("G0 G1 X10\n");
    assert!(errors.errors.contains(&InterpretError::ModalGroupConflict));
}

#[test]
fn plane_and_motion_words_coexist_without_conflict() {
    let (sink, _, errors) = run("G17 G1 X10\n");
    assert!(!errors.errors.contains(&InterpretError::ModalGroupConflict));
    assert_eq!(sink.commands.len(), 1);
}

#[test]
fn units_conversion_applies_to_subsequent_literals() {
    let (sink, _, _) = run("G20 G1 X1\n");
    assert_eq!(sink.commands.len(), 1);
    assert!((f(sink.commands[0].target.x) - 25.4).abs() < 1e-6);
}

#[test]
fn rapid_and_linear_are_distinct_modes_in_output() {
    let (sink, _, _) = run("G0 X5\nG1 X10\n");
    assert_eq!(sink.commands.len(), 2);
    assert_eq!(sink.commands[0].motion_mode, MotionMode::Rapid);
    assert_eq!(sink.commands[1].motion_mode, MotionMode::Linear);
}

#[test]
fn multiple_lines_accumulate_position_correctly() {
    let (sink, _, _) = run("G1 X10 Y0\nX20 Y10\nX0 Y0\n");
    assert_eq!(sink.commands.len(), 3);
    assert_eq!(
        sink.commands[0].target,
        Position {
            x: d(10.0),
            y: d(0.0),
            z: d(0.0)
        }
    );
    assert_eq!(
        sink.commands[1].target,
        Position {
            x: d(20.0),
            y: d(10.0),
            z: d(0.0)
        }
    );
    assert_eq!(
        sink.commands[2].target,
        Position {
            x: d(0.0),
            y: d(0.0),
            z: d(0.0)
        }
    );
}

#[test]
fn parameter_reference_is_rejected_as_a_syntax_error() {
    // the parser does not know parameters: `#` is content that it cannot read
    let (sink, _, errors) = run("G1 X#1\n");
    assert!(sink.commands.is_empty());
    assert!(!errors.errors.is_empty());
    assert!(errors
        .errors
        .iter()
        .all(|e| matches!(e, InterpretError::SyntaxError(_))));
}

#[test]
fn spindle_on_with_speed_is_resolved() {
    let (_, commands, _) = run("M3 S1000\n");
    assert_eq!(
        commands.commands,
        vec![Command::Spindle(SpindleCommand::Clockwise(d(1000.0)))]
    );
}

#[test]
fn spindle_speed_is_modal_across_lines() {
    let (_, commands, _) = run("S500\nM3\nM5\nM4\n");
    assert_eq!(
        commands.commands,
        vec![
            Command::Spindle(SpindleCommand::Clockwise(d(500.0))),
            Command::Spindle(SpindleCommand::Stop),
            Command::Spindle(SpindleCommand::CounterClockwise(d(500.0))),
        ]
    );
}

#[test]
fn coolant_commands_are_resolved() {
    let (_, commands, _) = run("M8\nM9\n");
    assert_eq!(
        commands.commands,
        vec![
            Command::Coolant(CoolantCommand::Flood),
            Command::Coolant(CoolantCommand::Off),
        ]
    );
}

#[test]
fn dwell_reads_p_word_in_seconds() {
    let (_, commands, _) = run("G4 P1.5\n");
    assert_eq!(
        commands.commands,
        vec![Command::Dwell { seconds: d(1.5) }]
    );
}

#[test]
fn program_flow_codes_are_resolved() {
    let (_, commands, _) = run("M0\nM1\nM2\nM30\n");
    assert_eq!(
        commands.commands,
        vec![
            Command::ProgramFlow(ProgramFlow::Stop),
            Command::ProgramFlow(ProgramFlow::OptionalStop),
            Command::ProgramFlow(ProgramFlow::End),
            Command::ProgramFlow(ProgramFlow::EndAndRewind),
        ]
    );
}

#[test]
fn tool_select_then_change_resolves_with_selected_tool_number() {
    let (_, commands, _) = run("T4\nM6\n");
    assert_eq!(
        commands.commands,
        vec![Command::ToolChange { tool: 4 }]
    );
}

#[test]
fn tool_change_without_prior_selection_is_an_error() {
    let (_, commands, errors) = run("M6\n");
    assert!(commands.commands.is_empty());
    assert!(errors.errors.contains(&InterpretError::NoToolSelected));
}

#[test]
fn tool_select_and_change_on_the_same_line_resolves_immediately() {
    let (_, commands, _) = run("T5 M6\n");
    assert_eq!(
        commands.commands,
        vec![Command::ToolChange { tool: 5 }]
    );
}

#[test]
fn ccw_arc_by_radius_resolves_the_minor_arc_center() {
    // a quarter circle from (10,0) to (0,10): counterclockwise around the origin
    let (sink, _, errors) = run("G0 X10 Y0\nG3 X0 Y10 R10\n");
    assert!(errors.errors.is_empty());
    let arc = sink.commands[1].arc.expect("arc geometry");
    assert!((f(arc.center.x) - 0.0).abs() < 1e-9);
    assert!((f(arc.center.y) - 0.0).abs() < 1e-9);
}

#[test]
fn cw_arc_by_radius_resolves_the_other_minor_arc_center() {
    // the same ends the other way round: around (10,10)
    let (sink, _, errors) = run("G0 X10 Y0\nG2 X0 Y10 R10\n");
    assert!(errors.errors.is_empty());
    let arc = sink.commands[1].arc.expect("arc geometry");
    assert!((f(arc.center.x) - 10.0).abs() < 1e-9);
    assert!((f(arc.center.y) - 10.0).abs() < 1e-9);
}

#[test]
fn arc_by_ijk_center_is_start_plus_offset() {
    let (sink, _, errors) = run("G2 X10 Y0 I5 J0\n");
    assert!(errors.errors.is_empty());
    let arc = sink.commands[0].arc.expect("arc geometry");
    assert_eq!(arc.center.x, d(5.0));
    assert_eq!(arc.center.y, d(0.0));
}

#[test]
fn full_circle_via_ijk_with_no_axis_words_targets_the_start_point() {
    let (sink, _, errors) = run("G0 X10 Y0\nG2 I-10 J0\n");
    assert!(errors.errors.is_empty());
    assert_eq!(sink.commands.len(), 2);
    let full_circle = sink.commands[1];
    assert_eq!(full_circle.target, full_circle.start);
    let arc = full_circle.arc.expect("arc geometry");
    assert!((f(arc.center.x) - 0.0).abs() < 1e-9);
    assert!((f(arc.center.y) - 0.0).abs() < 1e-9);
}

#[test]
fn arc_with_neither_ijk_nor_r_is_a_missing_geometry_error() {
    let (sink, _, errors) = run("G2 X10 Y0\n");
    assert!(sink.commands.is_empty());
    assert!(errors
        .errors
        .contains(&InterpretError::InvalidArc(ArcError::MissingGeometry)));
}

#[test]
fn radius_smaller_than_half_the_chord_is_an_error() {
    // no circle of radius 1 passes through points 10 apart
    let (sink, _, errors) = run("G2 X10 Y0 R1\n");
    assert!(sink.commands.is_empty());
    assert!(errors
        .errors
        .contains(&InterpretError::InvalidArc(ArcError::RadiusTooSmall)));
}

#[test]
fn radius_form_with_coincident_start_and_end_is_an_error() {
    let (sink, _, errors) = run("G2 R5\n");
    assert!(sink.commands.is_empty());
    assert!(errors
        .errors
        .contains(&InterpretError::InvalidArc(ArcError::CoincidentEndpoints)));
}

#[test]
fn ccw_arc_in_zx_plane_uses_the_same_cyclic_convention_as_xy() {
    let (sink, _, errors) = run("G18\nG0 Z10 X0\nG3 Z0 X10 R10\n");
    assert!(errors.errors.is_empty());
    let ccw = sink.commands[1].arc.expect("arc geometry");
    assert!((f(ccw.center.z) - 0.0).abs() < 1e-9);
    assert!((f(ccw.center.x) - 0.0).abs() < 1e-9);
}

#[test]
fn cw_arc_in_zx_plane_uses_the_same_cyclic_convention_as_xy() {
    let (sink, _, errors) = run("G18\nG0 Z10 X0\nG2 Z0 X10 R10\n");
    assert!(errors.errors.is_empty());
    let cw = sink.commands[1].arc.expect("arc geometry");
    assert!((f(cw.center.z) - 10.0).abs() < 1e-9);
    assert!((f(cw.center.x) - 10.0).abs() < 1e-9);
}

#[test]
fn ccw_arc_in_yz_plane_uses_the_same_cyclic_convention_as_xy() {
    let (sink, _, errors) = run("G19\nG0 Y10 Z0\nG3 Y0 Z10 R10\n");
    assert!(errors.errors.is_empty());
    let ccw = sink.commands[1].arc.expect("arc geometry");
    assert!((f(ccw.center.y) - 0.0).abs() < 1e-9);
    assert!((f(ccw.center.z) - 0.0).abs() < 1e-9);
}

#[test]
fn cw_arc_in_yz_plane_uses_the_same_cyclic_convention_as_xy() {
    let (sink, _, errors) = run("G19\nG0 Y10 Z0\nG2 Y0 Z10 R10\n");
    assert!(errors.errors.is_empty());
    let cw = sink.commands[1].arc.expect("arc geometry");
    assert!((f(cw.center.y) - 10.0).abs() < 1e-9);
    assert!((f(cw.center.z) - 10.0).abs() < 1e-9);
}

/// Like `run`, with offsets that a host has set before.
fn run_with_offsets(
    offsets: &[(CoordinateSystem, Position)],
    src: &str,
) -> (CollectingSink, CollectingCommands, CollectingErrors) {
    let mut interp = interpreter();
    for &(system, offset) in offsets {
        interp.state.set_coordinate_system_offset(system, offset);
    }
    interp.run(src);
    finish(interp)
}

#[test]
fn selecting_a_coordinate_system_applies_its_offset_to_absolute_moves() {
    let (sink, _, errors) = run_with_offsets(
        &[(
            CoordinateSystem::G55,
            Position {
                x: d(100.0),
                y: d(50.0),
                z: d(0.0),
            },
        )],
        "G55 G1 X10 Y0\n",
    );
    assert!(errors.errors.is_empty());
    assert_eq!(sink.commands[0].target.x, d(110.0));
    assert_eq!(sink.commands[0].target.y, d(50.0));
}

#[test]
fn default_coordinate_system_is_g54_with_no_offset() {
    let (sink, _, errors) = run("G1 X10 Y0\n");
    assert!(errors.errors.is_empty());
    assert_eq!(sink.commands[0].target.x, d(10.0));
}

#[test]
fn g92_shifts_subsequent_absolute_moves() {
    // at X10, G92 X0 says that here is zero
    let (sink, _, errors) = run("G0 X10\nG92 X0\nG1 X5\n");
    assert!(errors.errors.is_empty());
    assert_eq!(sink.commands.len(), 2);
    assert_eq!(sink.commands[1].target.x, d(15.0));
}

#[test]
fn g92_does_not_itself_move_the_machine() {
    let (sink, _, errors) = run("G0 X10\nG92 X0\n");
    assert!(errors.errors.is_empty());
    // the X of G92 is no target of the G0 mode
    assert_eq!(sink.commands.len(), 1);
    assert_eq!(sink.commands[0].target.x, d(10.0));
}

#[test]
fn g92_only_shifts_the_axes_it_names() {
    let (sink, _, errors) = run("G0 X10 Y20\nG92 X0\nG1 X5 Y20\n");
    assert!(errors.errors.is_empty());
    // X was shifted, Y was not
    assert_eq!(sink.commands[1].target.x, d(15.0));
    assert_eq!(sink.commands[1].target.y, d(20.0));
}

#[test]
fn g92_1_cancels_the_offset() {
    let (sink, _, errors) = run("G0 X10\nG92 X0\nG92.1\nG1 X5\n");
    assert!(errors.errors.is_empty());
    assert_eq!(sink.commands.len(), 2);
    assert_eq!(sink.commands[1].target.x, d(5.0));
}

/// Like `run`, with a state that a host has set up before.
fn run_configured(
    configure: impl FnOnce(&mut ModalState),
    src: &str,
) -> (CollectingSink, CollectingCommands, CollectingErrors) {
    let mut interp = interpreter();
    configure(&mut interp.state);
    interp.run(src);
    finish(interp)
}

#[test]
fn g28_with_axis_words_moves_through_intermediate_point_then_home() {
    let (sink, _, errors) = run_configured(
        |state| {
            state.g28_position = Position {
                x: d(0.0),
                y: d(0.0),
                z: d(50.0),
            }
        },
        "G0 X10 Y0\nG28 Z20\n",
    );
    assert!(errors.errors.is_empty());
    assert_eq!(sink.commands.len(), 3);
    // by way of Z20
    let intermediate = sink.commands[1];
    assert_eq!(intermediate.motion_mode, MotionMode::Rapid);
    assert_eq!(intermediate.target.x, d(10.0));
    assert_eq!(intermediate.target.z, d(20.0));
    // and on to the reference position
    let home = sink.commands[2];
    assert_eq!(home.start, intermediate.target);
    assert_eq!(home.target.x, d(0.0));
    assert_eq!(home.target.z, d(50.0));
}

#[test]
fn g28_with_no_axis_words_goes_directly_to_reference() {
    let (sink, _, errors) = run_configured(
        |state| {
            state.g28_position = Position {
                x: d(1.0),
                y: d(2.0),
                z: d(3.0),
            }
        },
        "G0 X10 Y0\nG28\n",
    );
    assert!(errors.errors.is_empty());
    assert_eq!(sink.commands.len(), 2);
    assert_eq!(
        sink.commands[1].target,
        Position {
            x: d(1.0),
            y: d(2.0),
            z: d(3.0)
        }
    );
}

#[test]
fn g28_does_not_change_the_carried_motion_mode() {
    let (sink, _, errors) = run("G1 X10\nG28\nX20\n");
    assert!(errors.errors.is_empty());
    assert_eq!(sink.commands.len(), 3);
    assert_eq!(sink.commands[2].motion_mode, MotionMode::Linear);
}

#[test]
fn g28_1_records_current_position_as_the_reference() {
    let (sink, _, errors) = run("G0 X7 Y8 Z9\nG28.1\nG28\n");
    assert!(errors.errors.is_empty());
    assert_eq!(sink.commands.len(), 2);
    assert_eq!(
        sink.commands[1].target,
        Position {
            x: d(7.0),
            y: d(8.0),
            z: d(9.0)
        }
    );
}

#[test]
fn g30_uses_a_separate_reference_position_from_g28() {
    let (sink, _, errors) = run_configured(
        |state| {
            state.g28_position = Position {
                x: d(1.0),
                y: d(0.0),
                z: d(0.0),
            };
            state.g30_position = Position {
                x: d(2.0),
                y: d(0.0),
                z: d(0.0),
            };
        },
        "G30\n",
    );
    assert!(errors.errors.is_empty());
    assert_eq!(sink.commands[0].target.x, d(2.0));
}

#[test]
fn g53_ignores_work_offset_and_uses_machine_coordinates() {
    let (sink, _, errors) = run_with_offsets(
        &[(
            CoordinateSystem::G54,
            Position {
                x: d(100.0),
                y: d(0.0),
                z: d(0.0),
            },
        )],
        "G1 X10\nG53 G1 X10\n",
    );
    assert!(errors.errors.is_empty());
    assert_eq!(sink.commands[0].target.x, d(110.0));
    assert_eq!(sink.commands[1].target.x, d(10.0));
}

#[test]
fn g53_ignores_incremental_distance_mode() {
    let (sink, _, errors) = run("G91 G1 X10\nG53 G1 X5\n");
    assert!(errors.errors.is_empty());
    assert_eq!(sink.commands[1].target.x, d(5.0));
}

#[test]
fn g81_drills_a_hole_with_rapid_legs_and_default_g98_retract() {
    // the start at Z0 is below R, so the cycle ends at R
    let (sink, _, errors) = run("G81 X5 Y5 Z-10 R2 F100\n");
    assert!(errors.errors.is_empty());
    assert_eq!(sink.commands.len(), 4);
    assert_eq!(sink.commands[0].motion_mode, MotionMode::Rapid);
    assert_eq!(
        sink.commands[0].target,
        Position {
            x: d(5.0),
            y: d(5.0),
            z: d(0.0)
        }
    );
    assert_eq!(sink.commands[1].motion_mode, MotionMode::Rapid);
    assert_eq!(
        sink.commands[1].target,
        Position {
            x: d(5.0),
            y: d(5.0),
            z: d(2.0)
        }
    );
    assert_eq!(sink.commands[2].motion_mode, MotionMode::Linear);
    assert_eq!(
        sink.commands[2].target,
        Position {
            x: d(5.0),
            y: d(5.0),
            z: d(-10.0)
        }
    );
    assert_eq!(sink.commands[3].motion_mode, MotionMode::Rapid);
    assert_eq!(
        sink.commands[3].target,
        Position {
            x: d(5.0),
            y: d(5.0),
            z: d(2.0)
        }
    );
}

#[test]
fn g81_g98_retracts_to_initial_z_when_higher_than_r() {
    let (sink, _, errors) = run("G0 Z5\nG81 X0 Y0 Z-10 R2 F100\n");
    assert!(errors.errors.is_empty());
    assert_eq!(sink.commands.last().unwrap().target.z, d(5.0));
}

#[test]
fn g99_always_retracts_to_r_even_when_lower_than_initial_z() {
    let (sink, _, errors) = run("G0 Z5\nG99 G81 X0 Y0 Z-10 R2 F100\n");
    assert!(errors.errors.is_empty());
    assert_eq!(sink.commands.last().unwrap().target.z, d(2.0));
}

#[test]
fn bare_axis_words_repeat_the_canned_cycle_with_sticky_z_and_r() {
    let (sink, _, errors) = run("G81 X0 Y0 Z-5 R2 F100\nX10 Y0\n");
    assert!(errors.errors.is_empty());
    assert_eq!(sink.commands.len(), 8);
    assert_eq!(
        sink.commands[6].target,
        Position {
            x: d(10.0),
            y: d(0.0),
            z: d(-5.0)
        }
    );
}

#[test]
fn g82_dwells_at_the_bottom_of_the_hole() {
    let (sink, commands, errors) = run("G82 X0 Y0 Z-5 R2 P0.5 F100\n");
    assert!(errors.errors.is_empty());
    assert_eq!(sink.commands.len(), 4);
    assert_eq!(
        commands.commands,
        vec![Command::Dwell { seconds: d(0.5) }]
    );
}

#[test]
fn g82_without_p_and_no_prior_value_is_a_missing_parameter_error() {
    let (sink, _, errors) = run("G82 X0 Y0 Z-5 R2 F100\n");
    assert!(sink.commands.is_empty());
    assert!(errors
        .errors
        .contains(&InterpretError::CannedCycleMissingParameter));
}

#[test]
fn g83_pecks_in_q_sized_bites_with_full_retracts_between() {
    // 12 deep in bites of 3: four of them, with three retracts between
    let (sink, _, errors) = run("G83 X0 Y0 Z-10 R2 Q3 F100\n");
    assert!(errors.errors.is_empty());
    assert_eq!(sink.commands.len(), 10);
    assert_eq!(sink.commands[2].target.z, d(-1.0));
    assert_eq!(sink.commands[3].target.z, d(2.0));
    assert_eq!(sink.commands[4].target.z, d(-4.0));
    assert_eq!(sink.commands[5].target.z, d(2.0));
    assert_eq!(sink.commands[6].target.z, d(-7.0));
    assert_eq!(sink.commands[7].target.z, d(2.0));
    assert_eq!(sink.commands[8].target.z, d(-10.0));
    assert_eq!(sink.commands[8].motion_mode, MotionMode::Linear);
}

#[test]
fn g83_without_a_positive_q_is_an_error_with_no_partial_output() {
    let (sink, _, errors) = run("G83 X0 Y0 Z-10 R2 F100\n");
    assert!(sink.commands.is_empty());
    assert!(errors
        .errors
        .contains(&InterpretError::InvalidPeckIncrement));
}

#[test]
fn g85_retracts_at_feed_rate_instead_of_rapid() {
    let (sink, _, errors) = run("G85 X0 Y0 Z-5 R2 F100\n");
    assert!(errors.errors.is_empty());
    assert_eq!(
        sink.commands.last().unwrap().motion_mode,
        MotionMode::Linear
    );
}

#[test]
fn g86_stops_the_spindle_at_the_bottom_and_rapid_retracts() {
    let (sink, commands, errors) = run("G86 X0 Y0 Z-5 R2 F100\n");
    assert!(errors.errors.is_empty());
    assert_eq!(sink.commands.last().unwrap().motion_mode, MotionMode::Rapid);
    assert_eq!(
        commands.commands,
        vec![Command::Spindle(SpindleCommand::Stop)]
    );
}

#[test]
fn g89_dwells_then_retracts_at_feed_rate() {
    let (sink, commands, errors) = run("G89 X0 Y0 Z-5 R2 P0.25 F100\n");
    assert!(errors.errors.is_empty());
    assert_eq!(
        sink.commands.last().unwrap().motion_mode,
        MotionMode::Linear
    );
    assert_eq!(
        commands.commands,
        vec![Command::Dwell { seconds: d(0.25) }]
    );
}

#[test]
fn canned_cycle_without_z_or_r_is_a_missing_parameter_error() {
    let (sink, _, errors) = run("G81 X0 Y0 F100\n");
    assert!(sink.commands.is_empty());
    assert!(errors
        .errors
        .contains(&InterpretError::CannedCycleMissingParameter));
}

#[test]
fn canned_cycle_in_a_non_xy_plane_is_unsupported() {
    let (sink, _, errors) = run("G18\nG81 X0 Y0 Z-5 R2 F100\n");
    assert!(sink.commands.is_empty());
    assert!(errors
        .errors
        .contains(&InterpretError::UnsupportedCannedCyclePlane));
}

#[test]
fn g80_cancels_a_canned_cycle() {
    let (sink, _, errors) = run("G81 X0 Y0 Z-5 R2 F100\nG80\nX10\n");
    assert!(sink.commands.len() == 4);
    assert!(errors.errors.contains(&InterpretError::NoActiveMotionMode));
}

// ---- what else a host can rely on ----

/// Takes everything, in order.
#[derive(Default)]
struct Outputs(Vec<LineOutput>);

impl OutputSink for Outputs {
    fn push(&mut self, output: LineOutput) -> Result<(), ()> {
        self.0.push(output);
        Ok(())
    }
}

/// Takes nothing.
struct Closed;

impl OutputSink for Closed {
    fn push(&mut self, _output: LineOutput) -> Result<(), ()> {
        Err(())
    }
}

fn ordered(src: &str) -> (Vec<LineOutput>, Vec<InterpretError>) {
    let mut interp = Interpreter::new(Outputs::default(), CollectingErrors::default());
    interp.run(src);
    let (outputs, errors) = interp.into_sinks();
    (outputs.0, errors.errors)
}

const LONG_PROGRAM: &str = "G21 G90 G17\nG0 X0 Y0 Z5\nM3 S1200\nG1 Z-2 F200\nG1 X20 Y0\n\
G2 X20 Y20 I0 J10\nG1 X0 Y20\nG83 X5 Y5 Z-3 R1 Q0.7\nX6\nG80\nG92 X0 Y0\nG1 X1 Y1\n\
G91 X2\nG90\nG20 X1\nG21\nG28 Z9\nG28.1\nG53 G0 X3\nG2 X9 Y9\nM5\nG0 Z5\nM2\n";

#[test]
fn moves_and_commands_come_out_in_the_order_of_the_program() {
    let (outputs, errors) = ordered("G21 G90\nG0 X10 Y0\nM3 S1000\nG1 X20 F300\n");
    assert_eq!(outputs.len(), 3);
    assert!(matches!(outputs[0], LineOutput::Motion(_)));
    assert!(matches!(
        outputs[1],
        LineOutput::Command(Command::Spindle(_))
    ));
    assert!(matches!(outputs[2], LineOutput::Motion(_)));
    assert!(errors.is_empty());
}

#[test]
fn a_line_moves_before_it_commands() {
    let (outputs, _) = ordered("G1 X1 M8 M3 S5 M0 G4 P2 T7 M6\n");
    let commands: Vec<Command> = outputs[1..]
        .iter()
        .map(|o| match o {
            LineOutput::Command(c) => *c,
            LineOutput::Motion(_) => panic!("expected a command"),
        })
        .collect();
    assert!(matches!(outputs[0], LineOutput::Motion(_)));
    assert_eq!(
        commands,
        vec![
            Command::Spindle(SpindleCommand::Clockwise(d(5.0))),
            Command::Coolant(CoolantCommand::Flood),
            Command::ProgramFlow(ProgramFlow::Stop),
            Command::Dwell { seconds: d(2.0) },
            Command::ToolChange { tool: 7 },
        ]
    );
}

#[test]
fn moves_form_one_path() {
    let (sink, _, _) = run(LONG_PROGRAM);
    assert!(sink.commands.len() > 20);
    let mut at = Position::default();
    for m in &sink.commands {
        assert_eq!(m.start, at);
        at = m.target;
    }
    let mut interp = interpreter();
    interp.run(LONG_PROGRAM);
    assert_eq!(interp.state.position, at);
}

#[test]
fn only_straight_moves_and_arcs_come_out() {
    let (sink, _, _) = run(LONG_PROGRAM);
    for m in &sink.commands {
        match m.motion_mode {
            MotionMode::Rapid | MotionMode::Linear => assert!(m.arc.is_none()),
            MotionMode::ArcClockwise | MotionMode::ArcCounterclockwise => {
                assert!(m.arc.is_some())
            }
            other => panic!("{other:?} was handed out"),
        }
    }
}

#[test]
fn a_program_can_be_fed_line_by_line() {
    let whole = ordered(LONG_PROGRAM);
    let mut interp = Interpreter::new(Outputs::default(), CollectingErrors::default());
    for line in LONG_PROGRAM.lines() {
        interp.step(line);
    }
    let (outputs, errors) = interp.into_sinks();
    assert_eq!((outputs.0, errors.errors), whole);
}

#[test]
fn a_program_can_be_cut_between_lines() {
    let whole = ordered(LONG_PROGRAM);
    for (cut, _) in LONG_PROGRAM.match_indices('\n') {
        let (first, second) = LONG_PROGRAM.split_at(cut + 1);
        let mut interp = Interpreter::new(Outputs::default(), CollectingErrors::default());
        interp.run(first);
        interp.run(second);
        let (outputs, errors) = interp.into_sinks();
        assert_eq!((outputs.0, errors.errors), whole);
    }
}

#[test]
fn every_rejected_output_is_reported() {
    let mut interp = Interpreter::new(Closed, CollectingErrors::default());
    interp.run("G1 X1\nM8\nG2 X5\nX2 R5\n");
    assert_eq!(
        interp.into_sinks().1.errors,
        vec![
            InterpretError::OutputSinkFull,
            InterpretError::OutputSinkFull,
            InterpretError::InvalidArc(ArcError::MissingGeometry),
            InterpretError::OutputSinkFull,
        ]
    );
}

#[test]
fn a_line_with_an_invalid_arc_leaves_the_state_alone() {
    let mut interp = interpreter();
    interp.run("G1 X3 Y4 F120\n");
    let before = interp.state;
    interp.run("G2 X9 Y9 R1\n");
    assert_eq!(interp.state, before);
    let (sink, _, errors) = finish(interp);
    assert_eq!(sink.commands.len(), 1);
    assert_eq!(
        errors.errors,
        vec![InterpretError::InvalidArc(ArcError::RadiusTooSmall)]
    );
}

#[test]
fn a_cycle_that_cannot_run_keeps_its_parameters_only() {
    let mut interp = interpreter();
    interp.run("G1 X3 Y4\nG83 X9 Z-5 R2 P0.5\n");
    let state = interp.state;
    assert_eq!(state.position.x, d(3.0));
    assert_eq!(state.motion_mode, MotionMode::Linear);
    assert_eq!(state.canned_cycle.z, Some(d(-5.0)));
    assert_eq!(state.canned_cycle.r, Some(d(2.0)));
    assert_eq!(state.canned_cycle.q, None);
    assert_eq!(state.canned_cycle.p, Some(d(0.5)));
    let (sink, _, errors) = finish(interp);
    assert_eq!(sink.commands.len(), 1);
    assert_eq!(errors.errors, vec![InterpretError::InvalidPeckIncrement]);
}

#[test]
fn a_peck_increment_that_is_not_positive_is_an_error() {
    for q in ["Q0", "Q-1"] {
        let (sink, _, errors) = run(&format!("G83 X0 Y0 Z-10 R2 {q}\n"));
        assert!(sink.commands.is_empty());
        assert_eq!(errors.errors, vec![InterpretError::InvalidPeckIncrement]);
    }
}

#[test]
fn a_peck_increment_that_never_reaches_the_bottom_is_an_error() {
    let word = |letter: char, v: f32| Event::Word {
        letter,
        value: literal(v),
    };
    let mut interp = interpreter();
    interp.interpret(&[
        Event::GeneralCode {
            major: 83,
            minor: None,
        },
        word('Z', f32::NAN),
        word('R', 2.0),
        word('Q', f32::INFINITY),
        Event::EndLine,
    ]);
    let (sink, _, errors) = finish(interp);
    assert!(sink.commands.is_empty());
    assert_eq!(errors.errors, vec![InterpretError::InvalidPeckIncrement]);
}

#[test]
fn a_peck_increment_may_exceed_the_depth() {
    let (sink, _, errors) = run("G83 X0 Y0 Z-10 R2 Q50\n");
    assert!(errors.errors.is_empty());
    assert_eq!(sink.commands.len(), 4);
    assert_eq!(sink.commands[2].target.z, d(-10.0));
}

#[test]
fn a_cycle_may_drill_upward() {
    let (sink, _, errors) = run("G83 X0 Y0 Z10 R2 Q3\n");
    assert!(errors.errors.is_empty());
    let heights: Vec<f64> = sink.commands.iter().map(|m| f(m.target.z)).collect();
    assert_eq!(
        heights,
        vec![0.0, 2.0, 5.0, 2.0, 8.0, 2.0, 10.0, 0.0]
    );
}

#[test]
fn a_named_cycle_runs_again_without_axis_words() {
    let (sink, _, errors) = run("G81 X1 Y2 Z-5 R2\nG81 R3\n");
    assert!(errors.errors.is_empty());
    assert_eq!(sink.commands.len(), 8);
    assert_eq!(sink.commands[5].target.z, d(3.0));
    assert_eq!(sink.commands[6].target.z, d(-5.0));
}

#[test]
fn groups_conflict_and_others_do_not() {
    for src in ["M3 M4\n", "M8 M9\n", "G17 G18\n", "G90 G91\n", "G54 G55\n", "G81 G0\n", "G4 G53\n"] {
        let (_, _, errors) = run(src);
        assert_eq!(errors.errors[0], InterpretError::ModalGroupConflict, "{src}");
    }
    for src in ["M3 M8 M0\n", "G17 G21 G90 G54 G98 G94 G1\n", "G91 G91.1\n"] {
        let (_, _, errors) = run(src);
        assert!(errors.errors.is_empty(), "{src}");
    }
}

#[test]
fn a_third_code_of_a_group_is_reported_again_and_the_last_one_counts() {
    let (sink, _, errors) = run("G0 G2 G1 X10\n");
    assert_eq!(
        errors.errors,
        vec![
            InterpretError::ModalGroupConflict,
            InterpretError::ModalGroupConflict
        ]
    );
    assert_eq!(sink.commands[0].motion_mode, MotionMode::Linear);
}

#[test]
fn values_that_are_no_numbers_are_reported_and_dropped() {
    let mut interp = interpreter();
    interp.interpret(&[
        Event::GeneralCode {
            major: 1,
            minor: None,
        },
        Event::Word {
            letter: 'X',
            value: literal(4.0),
        },
        Event::Word {
            letter: 'Y',
            value: WordValue::Variable,
        },
        Event::EndLine,
    ]);
    let (sink, _, errors) = finish(interp);
    assert_eq!(errors.errors, vec![InterpretError::UnsupportedSyntax]);
    assert_eq!(sink.commands[0].target.x, d(4.0));
    assert_eq!(sink.commands[0].target.y, d(0.0));
}

#[test]
fn what_the_parser_cannot_read_is_reported_with_its_place() {
    let (_, _, errors) = run("G1 X1\nG1 Y#\n");
    assert!(errors.errors.iter().all(|e| match e {
        InterpretError::SyntaxError(span) => span.line == 1,
        _ => false,
    }));
    assert!(!errors.errors.is_empty());
}

#[test]
fn probing_leaves_no_motion_mode() {
    let (sink, _, errors) = run("G1 X1\nG38.2\nX5\n");
    assert_eq!(sink.commands.len(), 1);
    assert_eq!(errors.errors, vec![InterpretError::NoActiveMotionMode]);
}

#[test]
fn probing_with_axis_words_keeps_the_motion_mode() {
    let (sink, _, errors) = run("G1 X1\nG38.2 X5\nX20\n");
    assert_eq!(errors.errors, vec![InterpretError::NoActiveMotionMode]);
    assert_eq!(sink.commands.len(), 2);
    assert_eq!(sink.commands[1].start.x, d(1.0));
    assert_eq!(sink.commands[1].target.x, d(20.0));
    assert_eq!(sink.commands[1].motion_mode, MotionMode::Linear);
    // of two motion words the last one counts
    let (sink, _, errors) = run("G1 X1\nG38.2 G80 X5\nX20\n");
    assert_eq!(sink.commands.len(), 1);
    assert_eq!(
        errors.errors,
        vec![
            InterpretError::ModalGroupConflict,
            InterpretError::NoActiveMotionMode,
            InterpretError::NoActiveMotionMode
        ]
    );
    let (sink, _, _) = run("G1 X1\nG80 G38.2 X5\nX20\n");
    assert_eq!(sink.commands.len(), 2);
}

#[test]
fn all_moves_of_a_program_can_be_run() {
    let (sink, _, _) = run(
        "G1 X1 F50\nG2 X3 I1\nG83 X0 Y0 Z-10 R2 Q3\nG28 X5\nG38.2 X1\nG80\nX9\nG0 X2\nG3 I1\n",
    );
    assert!(sink.commands.len() > 10);
    for m in &sink.commands {
        let arc = matches!(
            m.motion_mode,
            MotionMode::ArcClockwise | MotionMode::ArcCounterclockwise
        );
        assert!(arc || matches!(m.motion_mode, MotionMode::Rapid | MotionMode::Linear));
        assert_eq!(m.arc.is_some(), arc);
    }
}

#[test]
fn nothing_moves_before_a_motion_mode() {
    let (sink, _, errors) = run("G90 G21\nX10\nG92 X5\nG91 Y2 F100\nM3 S9 Z1\n");
    assert!(sink.commands.is_empty());
    assert_eq!(
        errors.errors,
        vec![
            InterpretError::NoActiveMotionMode,
            InterpretError::NoActiveMotionMode,
            InterpretError::NoActiveMotionMode
        ]
    );
}

#[test]
fn a_blank_line_changes_nothing() {
    let mut interp = interpreter();
    interp.run("G1 X3 F100 S20 T4\n");
    let before = interp.state;
    interp.step("");
    interp.run("\n\n(nothing)\n");
    assert_eq!(interp.state, before);
}

#[test]
fn inches_apply_to_every_length_of_a_line() {
    let (sink, _, errors) = run("G20\nG1 X1 F10\nG2 X3 I1\nG83 X3 Z-1 R1 Q0.5\n");
    assert!(errors.errors.is_empty());
    assert_eq!(sink.commands[0].feed_rate, d(10.0 * 25.4));
    let arc = sink.commands[1].arc.expect("arc geometry");
    assert_eq!(arc.center.x, d(25.4 + 25.4));
    assert_eq!(sink.commands[4].target.z, d(25.4 - 12.7));
}

#[test]
fn the_center_offset_wins_over_a_radius() {
    let (sink, _, errors) = run("G2 X10 Y0 I5 J0 R1\n");
    assert!(errors.errors.is_empty());
    let arc = sink.commands[0].arc.expect("arc geometry");
    assert_eq!(arc.center.x, d(5.0));
}

#[test]
fn a_negative_radius_is_the_other_arc() {
    let (a, _, _) = run("G0 X10 Y0 Z3\nG3 X0 Y10 Z7 R-10\n");
    let (b, _, _) = run("G0 X10 Y0 Z3\nG2 X0 Y10 Z7 R10\n");
    let (a, b) = (a.commands[1].arc.unwrap(), b.commands[1].arc.unwrap());
    assert_eq!(a, b);
    // off the plane the center is level with the start
    assert_eq!(a.center.z, d(3.0));
}

#[test]
fn g92_wins_no_move_even_with_a_motion_word() {
    let (sink, _, errors) = run("G0 X10\nG1 G92 X4 F50\nX6\n");
    assert!(errors.errors.is_empty());
    assert_eq!(sink.commands.len(), 2);
    assert_eq!(sink.commands[1].motion_mode, MotionMode::Linear);
    assert_eq!(sink.commands[1].target.x, d(12.0));
    // the feed rate is taken up all the same
    assert_eq!(sink.commands[1].feed_rate, d(50.0));
}

#[test]
fn a_feed_rate_holds_from_its_own_line_on() {
    let mut interp = interpreter();
    // on a line of its own, before any motion mode
    interp.run("F100\n");
    assert_eq!(interp.state.feed_rate, d(100.0));
    interp.run("G1 X1\nX2 F200\nX3\n");
    // on a line whose move cannot be run
    interp.run("G2 X9 Y9 R1 F300\n");
    assert_eq!(interp.state.feed_rate, d(300.0));
    interp.run("G80\nX1 F400\n");
    assert_eq!(interp.state.feed_rate, d(400.0));
    // on a line that moves to a reference position, in inches
    interp.run("G20\nG28 F2\n");
    let (sink, _, errors) = finish(interp);
    let rates: Vec<_> = sink.commands.iter().map(|m| m.feed_rate).collect();
    assert_eq!(rates, vec![d(100.0), d(200.0), d(200.0), d(2.0 * 25.4)]);
    assert_eq!(
        errors.errors,
        vec![
            InterpretError::InvalidArc(ArcError::RadiusTooSmall),
            InterpretError::NoActiveMotionMode
        ]
    );
}

#[test]
fn every_leg_of_a_cycle_has_the_feed_rate_of_its_line() {
    let (sink, _, errors) = run("G1 X1 F50\nG83 X0 Y0 Z-10 R2 Q3 F100\nX5\n");
    assert!(errors.errors.is_empty());
    assert_eq!(sink.commands[0].feed_rate, d(50.0));
    assert!(sink.commands.len() > 10);
    assert!(sink.commands[1..].iter().all(|m| m.feed_rate == d(100.0)));
}

#[test]
fn small_letters_have_no_meaning() {
    let (sink, _, errors) = run("G1 X1 y5\n");
    assert!(errors.errors.is_empty());
    assert_eq!(sink.commands[0].target.y, d(0.0));
}

#[test]
fn each_kind_of_unreadable_content_has_its_place() {
    let place = |src: &str| match run(src).2.errors[..] {
        [InterpretError::SyntaxError(span)] => span,
        ref other => panic!("{other:?}"),
    };
    let span = |start: usize, length: usize, line: usize| SourceSpan {
        start,
        length,
        line,
    };
    assert_eq!(place("G1 X1\nG1 Y5 #\n"), span(12, 1, 1));
    assert_eq!(place("G1 N5\n"), span(3, 2, 0));
    assert_eq!(place("N99999999999 G1 X1\n"), span(1, 11, 0));
    assert_eq!(place("\n\n  5\n"), span(4, 1, 2));
}

#[test]
fn what_stands_behind_a_tool_word_is_passed_over() {
    let (sink, _, errors) = run("G1 X1\nT3 X5\n");
    assert_eq!(sink.commands.len(), 1);
    assert!(errors.errors.is_empty());
}

#[test]
fn a_text_without_a_last_newline_is_read_to_its_end() {
    let (sink, _, _) = run("G1 X1\nX2");
    assert_eq!(sink.commands.len(), 2);
}

#[test]
fn numbers_are_read_as_singles() {
    let (sink, _, _) = run("G1 X0.1 Y-25.4 Z+.5\n");
    assert_eq!(sink.commands[0].target.x, d(f64::from(0.1f32)));
    assert_eq!(sink.commands[0].target.y, d(f64::from(-25.4f32)));
    assert_eq!(sink.commands[0].target.z, d(0.5));
}

#[test]
fn code_numbers_that_the_parser_cannot_hold_are_found() {
    for src in [
        "",
        "G1 X10\n",
        "G429496728\n",
        "G429496729",
        "G429496729.0 X1\n",
        "g429496729.05\n",
        "G429496729.10\n",
        "G1700000000.\n",
        "G1700000000.12\n",
        "M4294967296\n",
        "G99999999999999999999999\n",
        "X1700000000 Y0.1700000000\n",
        "; printed at 1700000000\n",
        "(set (t1700000000) m 1700000000)\n",
        "G1 1700000000\n",
        "G1.1700000000\n",
        "G G4294967295\n",
        "N \tm1700000000\n",
        "G1 X1 O\rT1700000000\n",
        "T G N M1700000000 G\nX1 N N(n)5\n",
    ] {
        assert!(is_readable(src), "{src}");
    }
    for src in [
        "G429496729.6",
        "G429496729.06\n",
        "M429496730",
        "g1700000000\n",
        "M4294967295\n",
        "X1 T \t\r1700000000 Y2\n",
        "; comment\nG0000429496730\n",
        "(a (b) c)m1700000000",
        "G G1 G1700000000\n",
        "G G G1700000000\n",
        "G (g) G1700000000\n",
        "N\nG1700000000\n",
        "X G1700000000\n",
        "O ; o\nM1700000000\n",
    ] {
        assert!(!is_readable(src), "{src}");
    }
}

#[test]
fn a_letter_in_the_place_of_a_number_is_a_mistake() {
    let mut interp = interpreter();
    assert!(interp.try_run("G G4294967295\nG1 X1\nN M1700000000 X2\n"));
    let (sink, commands, errors) = finish(interp);
    assert_eq!(sink.commands.len(), 2);
    assert!(commands.commands.is_empty());
    // the letter, and the number that is left without one
    assert_eq!(errors.errors.len(), 4);
    assert!(errors
        .errors
        .iter()
        .all(|e| matches!(e, InterpretError::SyntaxError(_))));
}

#[test]
fn a_program_that_the_parser_cannot_take_is_not_run() {
    let mut interp = interpreter();
    interp.run("G1 X3\n");
    let before = interp.state;
    assert!(!interp.try_run("X4\nG1700000000\n"));
    assert_eq!(interp.state, before);
    assert!(interp.try_run("X4\n"));
    assert_eq!(interp.state.position.x, d(4.0));
    assert_eq!(finish(interp).0.commands.len(), 2);
}

#[test]
fn g80_cancels_the_mode_also_on_a_line_with_axis_words() {
    let mut interp = interpreter();
    interp.run("G1 X5\nG80 X10\nX20\nG92 X1\nY3\n");
    assert_eq!(interp.state().motion_mode, MotionMode::Inactive);
    let (sink, _, errors) = finish(interp);
    assert_eq!(sink.commands.len(), 1);
    assert_eq!(sink.commands[0].target.x, d(5.0));
    assert_eq!(
        errors.errors,
        vec![
            InterpretError::NoActiveMotionMode,
            InterpretError::NoActiveMotionMode,
            InterpretError::NoActiveMotionMode
        ]
    );
    let (sink, _, errors) = run("G1 X5\nG80 X10\nG1 X20\n");
    assert_eq!(sink.commands.len(), 2);
    assert_eq!(errors.errors, vec![InterpretError::NoActiveMotionMode]);
}

#[test]
fn a_line_reports_a_conflict_for_every_repeat() {
    let conflicts = |src: &str| {
        run(src)
            .2
            .errors
            .iter()
            .filter(|e| **e == InterpretError::ModalGroupConflict)
            .count()
    };
    assert_eq!(conflicts("G0 G1 X10\n"), 1);
    assert_eq!(conflicts("G17 G1 X10\n"), 0);
    assert_eq!(conflicts("G0 X1\nG1 X2\n"), 0);
    assert_eq!(conflicts("G0 G1 G17 G2 G18 M3 M4 M8 G99 X1\n"), 4);
}

#[test]
fn after_g92_a_move_to_the_given_value_stays_put() {
    let (sink, _, errors) = run("G1 X10 Y20 Z30\nG92 X4 Z-8\nX4 Y20 Z-8\n");
    assert!(errors.errors.is_empty());
    assert_eq!(sink.commands[1].start, sink.commands[1].target);
}

#[test]
fn an_arc_backwards_has_the_same_center() {
    let (there, _, _) = run("G0 X10 Y0\nG3 X2 Y7 R12\n");
    let (back, _, _) = run("G0 X2 Y7\nG2 X10 Y0 R12\n");
    let (a, b) = (there.commands[1].arc.unwrap(), back.commands[1].arc.unwrap());
    assert_eq!((a.center.x, a.center.y), (b.center.x, b.center.y));
}

#[test]
fn a_host_can_read_and_set_the_state() {
    let mut interp = interpreter();
    let mut state = *interp.state();
    state.set_coordinate_system_offset(
        CoordinateSystem::G54,
        Position {
            x: d(100.0),
            ..Position::default()
        },
    );
    interp.set_state(state);
    interp.run("G1 X5\n");
    assert_eq!(interp.state().position.x, d(105.0));
}
