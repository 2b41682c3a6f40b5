use swarf::interpreter::modal_groups::{
    classify_general_code, classify_miscellaneous_code, ModalGroup, ModalGroupSet,
};
use swarf::interpreter::motion::MotionMode;

#[test]
fn motion_codes_classify_correctly() {
    assert_eq!(classify_general_code(0, None), Some(ModalGroup::Motion));
    assert_eq!(classify_general_code(1, None), Some(ModalGroup::Motion));
    assert_eq!(classify_general_code(2, None), Some(ModalGroup::Motion));
    assert_eq!(classify_general_code(3, None), Some(ModalGroup::Motion));
}

#[test]
fn plane_and_motion_are_different_groups() {
    assert_ne!(
        classify_general_code(1, None),
        classify_general_code(17, None)
    );
}

#[test]
fn two_motion_codes_are_same_group_and_would_conflict() {
    assert_eq!(
        classify_general_code(0, None),
        classify_general_code(1, None)
    );
}

#[test]
fn modal_group_set_detects_conflict() {
    let mut seen = ModalGroupSet::new();
    assert!(!seen.contains(ModalGroup::Motion));
    seen.insert(ModalGroup::Motion);
    assert!(seen.contains(ModalGroup::Motion));
}

#[test]
fn modal_group_set_clears_between_lines() {
    let mut seen = ModalGroupSet::new();
    seen.insert(ModalGroup::Motion);
    seen.insert(ModalGroup::Plane);
    seen.clear();
    assert!(!seen.contains(ModalGroup::Motion));
    assert!(!seen.contains(ModalGroup::Plane));
}

#[test]
fn unrecognized_g_code_returns_none_not_panic() {
    assert_eq!(classify_general_code(81, None), None);
}

#[test]
fn distance_mode_codes_classify_correctly() {
    assert_eq!(
        classify_general_code(90, None),
        Some(ModalGroup::DistanceMode)
    );
    assert_eq!(
        classify_general_code(91, None),
        Some(ModalGroup::DistanceMode)
    );
    assert_eq!(
        classify_general_code(91, Some(1)),
        Some(ModalGroup::ArcDistanceMode)
    );
    assert_ne!(
        classify_general_code(91, None),
        classify_general_code(91, Some(1))
    );
}

#[test]
fn spindle_m_codes_classify_correctly() {
    assert_eq!(
        classify_miscellaneous_code(3, None),
        Some(ModalGroup::SpindleTurning)
    );
    assert_eq!(
        classify_miscellaneous_code(5, None),
        Some(ModalGroup::SpindleTurning)
    );
}

#[test]
fn default_motion_mode_is_none_not_a_silent_guess() {
    assert_eq!(MotionMode::default(), MotionMode::Inactive);
}

#[test]
fn a_set_does_not_tell_order_or_repeats() {
    let mut a = ModalGroupSet::new();
    a.insert(ModalGroup::Motion);
    a.insert(ModalGroup::Units);
    let mut b = ModalGroupSet::new();
    b.insert(ModalGroup::Units);
    b.insert(ModalGroup::Motion);
    b.insert(ModalGroup::Units);
    assert_eq!(a, b);
    b.clear();
    assert_eq!(b, ModalGroupSet::new());
    assert_eq!(b, ModalGroupSet::default());
}
