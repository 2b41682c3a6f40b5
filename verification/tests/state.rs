use swarf::double::Double;
use swarf::interpreter::state::{
    CoordinateSystem, DistanceMode, ModalState, Plane, Position, Units,
};

fn d(x: f64) -> Double {
    Double { bits: x.to_bits() }
}

fn f(x: Double) -> f64 {
    f64::from_bits(x.bits)
}

#[test]
fn default_state_matches_common_controller_conventions() {
    let state = ModalState::new();
    assert_eq!(state.plane, Plane::Xy);
    assert_eq!(state.units, Units::Millimeters);
    assert_eq!(state.distance_mode, DistanceMode::Absolute);
    assert_eq!(state.position, Position::default());
}

#[test]
fn to_mm_converts_inches_correctly() {
    let mut state = ModalState::new();
    state.units = Units::Inches;
    assert!((f(state.to_mm(d(1.0))) - 25.4).abs() < 1e-9);
}

#[test]
fn to_mm_is_identity_in_millimeter_mode() {
    let state = ModalState::new();
    assert_eq!(state.units, Units::Millimeters);
    assert_eq!(state.to_mm(d(42.0)), d(42.0));
}

#[test]
fn an_inch_is_the_double_of_25_4() {
    let mut state = ModalState::new();
    state.units = Units::Inches;
    assert_eq!(state.to_mm(d(1.0)).bits, 25.4f64.to_bits());
    assert_eq!(state.to_mm(d(0.3)).bits, (0.3f64 * 25.4).to_bits());
}

#[test]
fn an_offset_is_read_back_as_it_was_set_and_no_other_changes() {
    let all = [
        CoordinateSystem::G54,
        CoordinateSystem::G55,
        CoordinateSystem::G56,
        CoordinateSystem::G57,
        CoordinateSystem::G58,
        CoordinateSystem::G59,
        CoordinateSystem::G59_1,
        CoordinateSystem::G59_2,
        CoordinateSystem::G59_3,
    ];
    for system in all {
        let mut state = ModalState::new();
        let offset = Position {
            x: d(1.5),
            y: d(-2.0),
            z: d(0.25),
        };
        state.set_coordinate_system_offset(system, offset);
        for other in all {
            let expected = if other == system {
                offset
            } else {
                Position::default()
            };
            assert_eq!(state.coordinate_system_offset(other), expected);
        }
    }
}

#[test]
fn the_active_offset_adds_the_g92_shift() {
    let mut state = ModalState::new();
    state.set_coordinate_system_offset(
        CoordinateSystem::G56,
        Position {
            x: d(1.0),
            y: d(2.0),
            z: d(3.0),
        },
    );
    state.coordinate_system = CoordinateSystem::G56;
    state.g92_offset = Position {
        x: d(0.5),
        y: d(0.0),
        z: d(-3.0),
    };
    let expected = Position {
        x: d(1.5),
        y: d(2.0),
        z: d(0.0),
    };
    assert_eq!(state.active_offset(), expected);
}
