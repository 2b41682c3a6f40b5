use swarf::bridge::GcodePlanner;
use swarf::double::Double;
use swarf::interpreter::command::{Command, CoolantCommand, ProgramFlow, SpindleCommand};
use swarf::interpreter::sink::{ErrorSink, InterpretError};
use swarf::interpreter::visitor::Interpreter;
use swarf::planner::limits::{AxisLimits, MachineLimits};
use swarf::planner::queue::PlannedBlock;
use swarf::planner::trigonometry::Trigonometry;

fn d(x: f64) -> Double {
    Double { bits: x.to_bits() }
}

fn f(x: Double) -> f64 {
    f64::from_bits(x.bits)
}

#[derive(Default)]
struct Errors(Vec<InterpretError>);

impl ErrorSink for Errors {
    fn push(&mut self, error: InterpretError) {
        self.0.push(error);
    }
}

fn axis(max_velocity: f64, max_acceleration: f64) -> AxisLimits {
    AxisLimits {
        max_velocity: d(max_velocity),
        max_acceleration: d(max_acceleration),
    }
}

fn limits() -> MachineLimits<3> {
    MachineLimits {
        axes: [axis(3000.0, 500.0), axis(3000.0, 500.0), axis(600.0, 100.0)],
        junction_deviation: d(0.01),
        arc_tolerance: d(0.002),
    }
}

type Angle = fn(Double, Double) -> Double;
type Function = fn(Double) -> Double;

fn planner_of<const CAPACITY: usize>() -> GcodePlanner<CAPACITY, Angle, Function, Function> {
    GcodePlanner::new(
        limits(),
        Trigonometry {
            atan2: |y, x| d(libm::atan2(f(y), f(x))),
            cos: |a| d(libm::cos(f(a))),
            sin: |a| d(libm::sin(f(a))),
        },
    )
}

fn run(src: &str) -> GcodePlanner<64, Angle, Function, Function> {
    let mut interp = Interpreter::new(planner_of::<64>(), Errors::default());
    interp.run(src);
    let (planner, errors) = interp.into_sinks();
    assert!(errors.0.is_empty(), "unexpected errors: {:?}", errors.0);
    planner
}

#[test]
fn linear_move_becomes_one_planned_block_with_matching_distance() {
    let mut planner = run("G21 G90\nG1 X10 F600\n");
    let block = planner.pop_ready().unwrap();
    let PlannedBlock::Motion {
        distance,
        nominal_speed,
        ..
    } = block
    else {
        panic!("expected motion")
    };
    assert_eq!(distance, d(10.0));
    assert!((f(nominal_speed) - 10.0).abs() < 1e-9);
}

#[test]
fn arc_move_tessellates_into_multiple_planned_blocks() {
    let mut planner = run("G21 G90\nG1 X10 Y0 F600\nG3 X0 Y10 I-10 J0\n");
    assert!(matches!(planner.pop_ready(), Some(PlannedBlock::Motion { .. })));
    let mut arc_segments = 0;
    while let Some(block) = planner.pop_ready() {
        assert!(matches!(block, PlannedBlock::Motion { .. }));
        arc_segments += 1;
    }
    assert!(
        arc_segments > 1,
        "expected the arc to tessellate into multiple segments"
    );
}

#[test]
fn commands_pass_through_in_order() {
    let mut planner = run("G21 G90\nM3 S1000\nG1 X10 F600\nM5\n");
    assert!(matches!(
        planner.pop_ready(),
        Some(PlannedBlock::Command(Command::Spindle(
            SpindleCommand::Clockwise(_)
        )))
    ));
    assert!(matches!(planner.pop_ready(), Some(PlannedBlock::Motion { .. })));
    assert!(matches!(
        planner.pop_ready(),
        Some(PlannedBlock::Command(Command::Spindle(
            SpindleCommand::Stop
        )))
    ));
}

#[test]
fn program_end_flushes_the_last_block_to_rest() {
    let mut planner = run("G21 G90\nG1 X50 F3000\nM2\n");
    let block = planner.pop_ready().unwrap();
    let PlannedBlock::Motion { exit_speed, .. } = block else {
        panic!("expected motion")
    };
    assert_eq!(exit_speed, d(0.0));
    assert!(matches!(
        planner.pop_ready(),
        Some(PlannedBlock::Command(Command::ProgramFlow(
            ProgramFlow::End
        )))
    ));
}

#[test]
fn coolant_and_program_flow_also_pass_through() {
    let mut planner = run("G21 G90\nM8\nG1 X10 F600\nM9\nM30\n");
    assert!(matches!(
        planner.pop_ready(),
        Some(PlannedBlock::Command(Command::Coolant(
            CoolantCommand::Flood
        )))
    ));
    assert!(matches!(planner.pop_ready(), Some(PlannedBlock::Motion { .. })));
    assert!(matches!(
        planner.pop_ready(),
        Some(PlannedBlock::Command(Command::Coolant(
            CoolantCommand::Off
        )))
    ));
    assert!(matches!(
        planner.pop_ready(),
        Some(PlannedBlock::Command(Command::ProgramFlow(
            ProgramFlow::EndAndRewind
        )))
    ));
}

#[test]
fn a_full_planner_is_reported_and_the_program_goes_on() {
    let mut interp = Interpreter::new(planner_of::<2>(), Errors::default());
    interp.run("G1 X10 F600\nX20\nX30\nX40\n");
    assert_eq!(interp.state.position.x, d(40.0));
    let (planner, errors) = interp.into_sinks();
    assert!(planner.is_full());
    assert_eq!(
        errors.0,
        vec![
            InterpretError::OutputSinkFull,
            InterpretError::OutputSinkFull
        ]
    );
}

#[test]
fn without_a_stop_the_last_block_keeps_its_speed() {
    let mut planner = run("G21 G90\nG1 X50 F3000\nM5\n");
    assert_eq!(planner.len(), 2);
    let Some(PlannedBlock::Motion { exit_speed, .. }) = planner.pop_ready() else {
        panic!("expected motion")
    };
    assert!(f(exit_speed) > 0.0);
    assert!(!planner.is_empty());
}

#[test]
fn rapid_moves_run_at_the_machine_limit() {
    let mut planner = run("G0 X10\n");
    let Some(PlannedBlock::Motion {
        nominal_speed,
        is_rapid,
        ..
    }) = planner.pop_ready()
    else {
        panic!("expected motion")
    };
    assert!(is_rapid);
    assert_eq!(nominal_speed, d(50.0));
}

#[test]
fn the_machine_stops_where_the_program_does_also_when_motion_follows() {
    for stop in ["M0", "M1", "M2", "M30"] {
        let mut planner = run(&format!("G1 X50 F3000\n{stop}\nX100\nM5\nG2 X102 I1\n"));
        let speeds = |entry: Option<PlannedBlock<Command>>| match entry {
            Some(PlannedBlock::Motion {
                entry_speed,
                exit_speed,
                ..
            }) => (f(entry_speed), f(exit_speed)),
            _ => panic!("expected motion"),
        };
        assert_eq!(speeds(planner.pop_ready()), (0.0, 0.0));
        assert!(matches!(
            planner.pop_ready(),
            Some(PlannedBlock::Command(Command::ProgramFlow(_)))
        ));
        let (entry, exit) = speeds(planner.pop_ready());
        assert_eq!(entry, 0.0);
        assert!(exit > 0.0);
    }
}
