use swarf::double::Double;
use swarf::planner::arc::{segment_count, ArcParams, ArcSegments, Plane};
use swarf::planner::block::Block;
use swarf::planner::limits::{AxisLimits, MachineLimits};
use swarf::planner::position::Position;
use swarf::planner::queue::{junction_speed_sqr, BlockQueue, PlannedBlock};
use swarf::planner::trigonometry::Trigonometry;
use swarf::planner::Planner;

fn d(x: f64) -> Double {
    Double { bits: x.to_bits() }
}

fn f(x: Double) -> f64 {
    f64::from_bits(x.bits)
}

fn atan2(y: Double, x: Double) -> Double {
    d(libm::atan2(f(y), f(x)))
}

fn cos(angle: Double) -> Double {
    d(libm::cos(f(angle)))
}

fn sin(angle: Double) -> Double {
    d(libm::sin(f(angle)))
}

fn trigonometry() -> Trigonometry<
    impl Fn(Double, Double) -> Double,
    impl Fn(Double) -> Double,
    impl Fn(Double) -> Double,
> {
    Trigonometry { atan2, cos, sin }
}

fn vector(v: [f64; 3]) -> [Double; 3] {
    [d(v[0]), d(v[1]), d(v[2])]
}

fn axis(max_velocity: f64, max_acceleration: f64) -> AxisLimits {
    AxisLimits {
        max_velocity: d(max_velocity),
        max_acceleration: d(max_acceleration),
    }
}

fn limits() -> MachineLimits<3> {
    MachineLimits {
        axes: [axis(3000.0, 500.0), axis(3000.0, 500.0), axis(600.0, 100.0)],
        junction_deviation: d(0.01),
        arc_tolerance: d(0.002),
    }
}

fn pos(x: f64, y: f64, z: f64) -> Position {
    Position {
        x: d(x),
        y: d(y),
        z: d(z),
    }
}

// ---- limits ----

#[test]
fn pure_x_move_uses_only_x_axis_limits() {
    let (v, a) = limits().direction_limits(vector([1.0, 0.0, 0.0]));
    assert_eq!(v, d(3000.0));
    assert_eq!(a, d(500.0));
}

#[test]
fn diagonal_move_is_capped_by_the_slower_axis() {
    let half = libm::sqrt(0.5);
    let (v, a) = limits().direction_limits(vector([0.0, half, half]));
    assert!((f(v) - 600.0 / half).abs() < 1e-9);
    assert!((f(a) - 100.0 / half).abs() < 1e-9);
}

#[test]
fn a_direction_without_shares_has_no_limit() {
    let (v, a) = limits().direction_limits(vector([0.0, 1e-13, -1e-12]));
    assert_eq!(v, d(f64::INFINITY));
    assert_eq!(a, d(f64::INFINITY));
}

// ---- blocks ----

#[test]
fn first_block_has_no_junction_cap() {
    let b = Block::new(
        pos(0.0, 0.0, 0.0),
        pos(10.0, 0.0, 0.0),
        d(1000.0),
        false,
        &limits(),
        None,
    );
    assert_eq!(b.distance, d(10.0));
    assert_eq!(b.max_entry_speed_sqr, b.nominal_speed_sqr());
}

#[test]
fn feed_rate_converts_mm_per_min_to_mm_per_s() {
    let b = Block::new(
        pos(0.0, 0.0, 0.0),
        pos(10.0, 0.0, 0.0),
        d(600.0),
        false,
        &limits(),
        None,
    );
    assert!((f(b.nominal_speed) - 10.0).abs() < 1e-9);
}

#[test]
fn zero_length_move_has_zero_unit_vector_not_nan() {
    let b = Block::new(
        pos(5.0, 5.0, 5.0),
        pos(5.0, 5.0, 5.0),
        d(1000.0),
        false,
        &limits(),
        None,
    );
    assert_eq!(b.unit_vector, vector([0.0; 3]));
    assert_eq!(b.distance, d(0.0));
}

#[test]
fn straight_continuation_has_a_high_junction_cap() {
    let first = Block::new(
        pos(0.0, 0.0, 0.0),
        pos(10.0, 0.0, 0.0),
        d(3000.0),
        false,
        &limits(),
        None,
    );
    let second = Block::new(
        pos(10.0, 0.0, 0.0),
        pos(20.0, 0.0, 0.0),
        d(3000.0),
        false,
        &limits(),
        Some(first.unit_vector),
    );
    assert!(f(second.max_entry_speed_sqr) >= f(second.nominal_speed_sqr()) - 1e-6);
}

#[test]
fn reversal_forces_a_low_junction_cap() {
    let first = Block::new(
        pos(0.0, 0.0, 0.0),
        pos(10.0, 0.0, 0.0),
        d(3000.0),
        false,
        &limits(),
        None,
    );
    let second = Block::new(
        pos(10.0, 0.0, 0.0),
        pos(0.0, 0.0, 0.0),
        d(3000.0),
        false,
        &limits(),
        Some(first.unit_vector),
    );
    assert!(f(second.max_entry_speed_sqr) < f(second.nominal_speed_sqr()) * 0.01);
}

#[test]
fn a_rapid_block_runs_at_the_axis_limit_in_mm_per_s() {
    let b = Block::new(
        pos(0.0, 0.0, 0.0),
        pos(0.0, 0.0, 7.0),
        d(1.0),
        true,
        &limits(),
        None,
    );
    assert_eq!(b.nominal_speed, d(10.0)); // 600 mm/min
    assert_eq!(b.acceleration, d(100.0));
}

#[test]
fn a_feed_block_is_held_to_the_axis_limit() {
    let b = Block::new(
        pos(0.0, 0.0, 0.0),
        pos(0.0, 0.0, -7.0),
        d(6000.0),
        false,
        &limits(),
        None,
    );
    assert_eq!(b.nominal_speed, d(10.0));
}

#[test]
fn a_missing_feed_rate_counts_as_one_mm_per_min() {
    for feed in [0.0, -5.0, 0.5, f64::NAN] {
        let b = Block::new(
            pos(0.0, 0.0, 0.0),
            pos(1.0, 0.0, 0.0),
            d(feed),
            false,
            &limits(),
            None,
        );
        assert_eq!(b.nominal_speed, d(1.0 / 60.0));
    }
}

// ---- arcs ----

fn quarter_circle() -> (Position, Position, Position) {
    let start = pos(10.0, 0.0, 0.0);
    let target = pos(0.0, 10.0, 0.0);
    let center = pos(0.0, 0.0, 0.0);
    (start, target, center)
}

#[test]
fn arc_params_recovers_radius_and_quarter_turn_sweep() {
    let (start, target, center) = quarter_circle();
    let params = ArcParams::new(start, target, center, false, &trigonometry());
    assert!((f(params.radius()) - 10.0).abs() < 1e-9);
    assert!((f(params.sweep()) - core::f64::consts::FRAC_PI_2).abs() < 1e-9);
}

#[test]
fn point_at_endpoints_matches_start_and_target() {
    let (start, target, center) = quarter_circle();
    let params = ArcParams::new(start, target, center, false, &trigonometry());
    let p0 = params.point_at(d(0.0), &trigonometry());
    let p1 = params.point_at(d(1.0), &trigonometry());
    assert!((f(p0.x) - f(start.x)).abs() < 1e-9 && (f(p0.y) - f(start.y)).abs() < 1e-9);
    assert!((f(p1.x) - f(target.x)).abs() < 1e-9 && (f(p1.y) - f(target.y)).abs() < 1e-9);
}

#[test]
fn tighter_tolerance_produces_more_segments() {
    let (start, target, center) = quarter_circle();
    let params = ArcParams::new(start, target, center, false, &trigonometry());
    let loose = segment_count(&params, d(0.1));
    let tight = segment_count(&params, d(0.001));
    assert!(tight > loose);
}

#[test]
fn tessellated_segments_stay_within_chord_tolerance() {
    let (start, target, center) = quarter_circle();
    let tolerance = 0.01;
    let params = ArcParams::new(start, target, center, false, &trigonometry());
    let mut segments = ArcSegments::new(
        start,
        target,
        center,
        false,
        d(tolerance),
        &trigonometry(),
    );
    while let Some((a, b)) = segments.next(&trigonometry()) {
        let mid_x = (f(a.x) + f(b.x)) / 2.0;
        let mid_y = (f(a.y) + f(b.y)) / 2.0;
        let mid_radius = libm::sqrt(mid_x * mid_x + mid_y * mid_y);
        let sagitta = f(params.radius()) - mid_radius;
        assert!(
            sagitta < tolerance * 1.01,
            "sagitta {sagitta} exceeded tolerance {tolerance}"
        );
    }
}

#[test]
fn full_circle_tessellates_into_multiple_segments() {
    let start = pos(10.0, 0.0, 0.0);
    let center = pos(0.0, 0.0, 0.0);
    let params = ArcParams::new(start, start, center, true, &trigonometry());
    assert!((f(params.sweep()) + core::f64::consts::TAU).abs() < 1e-9);
    let mut segments = ArcSegments::new(start, start, center, true, d(0.01), &trigonometry());
    let mut count = 0;
    while segments.next(&trigonometry()).is_some() {
        count += 1;
    }
    assert!(count > 4);
}

#[test]
fn an_arc_goes_the_way_it_is_told() {
    let (start, target, center) = quarter_circle();
    let turn = core::f64::consts::TAU;
    let quarter = libm::atan2(10.0, 0.0);
    let left = ArcParams::from_angles(start, target, center, false, d(0.0), d(quarter));
    assert_eq!(left.sweep(), d(quarter));
    let right = ArcParams::from_angles(start, target, center, true, d(0.0), d(quarter));
    assert_eq!(right.sweep(), d(-((0.0 - quarter) + turn)));
}

#[test]
fn the_plane_is_found_from_the_center() {
    // the same quarter circle in each plane, climbing by 4 off it
    let xy = ArcParams::new(
        pos(10.0, 0.0, 0.0),
        pos(0.0, 10.0, 4.0),
        pos(0.0, 0.0, 0.0),
        false,
        &trigonometry(),
    );
    let yz = ArcParams::new(
        pos(0.0, 10.0, 0.0),
        pos(4.0, 0.0, 10.0),
        pos(0.0, 0.0, 0.0),
        false,
        &trigonometry(),
    );
    // a start off both axes, from which the plane can be told
    let zx = ArcParams::new(
        pos(6.0, 0.0, 8.0),
        pos(8.0, 4.0, -6.0),
        pos(0.0, 0.0, 0.0),
        false,
        &trigonometry(),
    );
    let half = d(0.5);
    let (cosine, sine) = (d(0.0), d(1.0));
    let p = xy.point_from(half, cosine, sine);
    assert_eq!((p.x, p.y, p.z), (d(0.0), d(10.0), d(2.0)));
    let p = yz.point_from(half, cosine, sine);
    assert_eq!((p.x, p.y, p.z), (d(2.0), d(0.0), d(10.0)));
    let p = zx.point_from(half, cosine, sine);
    assert_eq!((p.x, p.y, p.z), (d(10.0), d(2.0), d(0.0)));
}

#[test]
fn segment_counts_of_the_special_cases() {
    let (start, target, center) = quarter_circle();
    let params = ArcParams::new(start, target, center, false, &trigonometry());
    let length = f(params.length());
    // no tolerance: chords as long as the radius
    assert_eq!(segment_count(&params, d(0.0)), 2);
    assert_eq!(segment_count(&params, d(-1.0)), 2);
    // more than the diameter: the radius again
    assert_eq!(segment_count(&params, d(25.0)), 2);
    // the formula
    let chord = 2.0 * libm::sqrt(0.002 * (2.0 * 10.0 - 0.002));
    assert_eq!(
        segment_count(&params, d(0.002)),
        libm::ceil(length / chord) as usize
    );
    // a point
    let point = ArcParams::from_angles(
        pos(1.0, 1.0, 0.0),
        pos(1.0, 1.0, 0.0),
        pos(1.0, 1.0, 0.0),
        false,
        d(0.0),
        d(0.0),
    );
    assert_eq!(segment_count(&point, d(0.002)), 2);
}

fn near(a: Position, b: Position) -> bool {
    (f(a.x) - f(b.x)).abs() < 1e-9
        && (f(a.y) - f(b.y)).abs() < 1e-9
        && (f(a.z) - f(b.z)).abs() < 1e-9
}

#[test]
fn where_the_start_does_not_tell_the_plane_the_target_does() {
    let center = pos(0.0, 0.0, 0.0);
    for (start, target) in [
        (pos(0.0, 10.0, 0.0), pos(0.0, 0.0, 10.0)),
        (pos(0.0, 10.0, 0.0), pos(10.0, 0.0, 0.0)),
        (pos(0.0, 10.0, 0.0), pos(6.0, 8.0, 3.0)),
        (pos(10.0, 0.0, 0.0), pos(0.0, 0.0, 10.0)),
        (pos(10.0, 0.0, 0.0), pos(-8.0, 2.0, 6.0)),
        (pos(0.0, 0.0, 10.0), pos(0.0, 10.0, 0.0)),
        (pos(0.0, 0.0, 10.0), pos(10.0, 0.0, 0.0)),
        (pos(0.0, 10.0, 0.0), pos(0.0, -10.0, 0.0)),
    ] {
        for clockwise in [false, true] {
            let arc = ArcParams::new(start, target, center, clockwise, &trigonometry());
            assert!(near(arc.point_at(d(0.0), &trigonometry()), start));
            assert!(near(arc.point_at(d(1.0), &trigonometry()), target));
        }
    }
}

#[test]
fn ends_that_are_rounded_do_not_turn_the_plane() {
    let center = pos(0.0, 0.0, 0.0);
    let start = pos(0.0, 10.0, 0.0);
    for target in [
        pos(9.9999, 0.01, 10.0),
        pos(10.0005, 0.0, 10.0),
        pos(0.0, 9.9995, 0.1),
    ] {
        let arc = ArcParams::new(start, target, center, true, &trigonometry());
        assert!(matches!(arc.plane, Plane::Xy));
    }
    // further off than by rounding
    for target in [pos(9.9, 0.0, 10.0), pos(10.0, 0.0, 10.0), pos(0.0, 9.99, 0.45)] {
        let arc = ArcParams::new(start, target, center, true, &trigonometry());
        let off = (libm::hypot(f(target.x), f(target.y)) - 10.0).abs();
        assert_eq!(matches!(arc.plane, Plane::Xy), off <= 0.001);
    }
}

#[test]
fn both_ways_round_make_a_turn() {
    let (start, target, center) = quarter_circle();
    let pi = core::f64::consts::PI;
    let angles = [-pi, -2.0, -1e-17, 0.0, 0.3, 1.0, 2.7, pi];
    let turn = core::f64::consts::TAU.to_bits();
    for a in angles {
        for b in angles {
            if a != b {
                let left = ArcParams::from_angles(start, target, center, false, d(a), d(b));
                let right = ArcParams::from_angles(start, target, center, true, d(a), d(b));
                let both = f(left.sweep()) - f(right.sweep());
                assert!(both.to_bits().abs_diff(turn) <= 1);
            }
        }
    }
}

#[test]
fn a_turn_is_at_most_a_whole_one() {
    let (start, target, center) = quarter_circle();
    let pi = core::f64::consts::PI;
    let angles = [-pi, -2.0, -1e-17, -0.0, 0.0, 1e-17, 1.0, 2.0, pi];
    for a in angles {
        for b in angles {
            let left = ArcParams::from_angles(start, target, center, false, d(a), d(b));
            let right = ArcParams::from_angles(start, target, center, true, d(a), d(b));
            assert!((0.0..=2.0 * pi).contains(&f(left.sweep())));
            assert!((-2.0 * pi..=0.0).contains(&f(right.sweep())));
        }
    }
}

#[test]
fn an_arc_is_cut_into_as_many_segments_as_it_takes() {
    let (start, target, center) = quarter_circle();
    let params = ArcParams::new(start, target, center, false, &trigonometry());
    for tolerance in [0.1, 0.01, 0.001, 0.0001] {
        let chord = 2.0 * libm::sqrt(tolerance * (20.0 - tolerance));
        let count = segment_count(&params, d(tolerance)) as f64;
        assert!(f(params.length()) / chord <= count);
        assert!(f(params.length()) / chord > count - 1.0);
    }
}

#[test]
fn segments_join_up_and_are_as_many_as_counted() {
    let (start, target, center) = quarter_circle();
    let params = ArcParams::new(start, target, center, true, &trigonometry());
    let count = segment_count(&params, d(0.05));
    let mut segments = ArcSegments::new(start, target, center, true, d(0.05), &trigonometry());
    let mut at = start;
    let mut seen = 0;
    while let Some((a, b)) = segments.next(&trigonometry()) {
        assert_eq!(a, at);
        at = b;
        seen += 1;
    }
    assert_eq!(seen, count);
    assert_eq!(at, params.point_at(d(1.0), &trigonometry()));
}

// ---- corners ----

#[test]
fn straight_through_junction_is_unbounded() {
    let v = junction_speed_sqr(
        vector([1.0, 0.0, 0.0]),
        vector([1.0, 0.0, 0.0]),
        d(500.0),
        d(0.01),
    );
    assert!(f(v).is_infinite());
}

#[test]
fn full_reversal_junction_is_zero() {
    let v = junction_speed_sqr(
        vector([1.0, 0.0, 0.0]),
        vector([-1.0, 0.0, 0.0]),
        d(500.0),
        d(0.01),
    );
    assert_eq!(v, d(0.0));
}

#[test]
fn a_corner_that_is_almost_a_reversal_has_the_speed_of_the_formula() {
    let back = -1.0 + 1e-13;
    let v = junction_speed_sqr(
        vector([1.0, 0.0, 0.0]),
        vector([back, 0.0, 0.0]),
        d(500.0),
        d(0.01),
    );
    let sin_half = libm::sqrt(0.5 * (1.0 + back));
    assert!(f(v) > 0.0);
    assert_eq!(v, d(500.0 * 0.01 * sin_half / (1.0 - sin_half)));
}

#[test]
fn right_angle_junction_is_between_the_extremes() {
    let v = junction_speed_sqr(
        vector([1.0, 0.0, 0.0]),
        vector([0.0, 1.0, 0.0]),
        d(500.0),
        d(0.01),
    );
    assert!(f(v) > 0.0 && f(v).is_finite());
}

#[test]
fn a_right_angle_has_the_speed_of_the_formula() {
    let v = junction_speed_sqr(
        vector([1.0, 0.0, 0.0]),
        vector([0.0, 1.0, 0.0]),
        d(500.0),
        d(0.01),
    );
    let sin_half = libm::sqrt(0.5);
    assert_eq!(v, d(500.0 * 0.01 * sin_half / (1.0 - sin_half)));
}

#[test]
fn a_corner_that_is_nearly_straight_is_taken_fast() {
    // the cosine of the turn lies just inside the general case
    let c = 0.999_998;
    let s = libm::sqrt(1.0 - c * c);
    let v = junction_speed_sqr(
        vector([1.0, 0.0, 0.0]),
        vector([c, s, 0.0]),
        d(500.0),
        d(0.01),
    );
    assert!(f(v) > 1e6);
}

// ---- the queue ----

#[test]
fn a_sharp_corner_forces_an_earlier_straight_block_to_slow_down() {
    let limits = limits();
    let pos = |x: f64, y: f64| pos(x, y, 0.0);
    let a = Block::new(pos(0.0, 0.0), pos(50.0, 0.0), d(3000.0), false, &limits, None);
    let b = Block::new(
        pos(50.0, 0.0),
        pos(50.0, 0.5),
        d(3000.0),
        false,
        &limits,
        Some(a.unit_vector),
    );
    let c = Block::new(
        pos(50.0, 0.5),
        pos(100.0, 0.5),
        d(3000.0),
        false,
        &limits,
        Some(b.unit_vector),
    );

    let mut queue: BlockQueue<8> = BlockQueue::new();
    queue.push_block(a).unwrap();
    queue.push_block(b).unwrap();
    queue.push_block(c).unwrap();

    let planned_a = queue.pop_ready().unwrap();
    let PlannedBlock::Motion {
        exit_speed,
        nominal_speed,
        ..
    } = planned_a
    else {
        panic!("expected motion");
    };
    let (exit_speed, nominal_speed) = (f(exit_speed), f(nominal_speed));
    assert!(
        exit_speed < nominal_speed * 0.5,
        "exit {exit_speed} vs nominal {nominal_speed}"
    );
}

#[test]
fn commands_pass_through_in_order_untouched_by_speed_planning() {
    let limits = limits();
    let pos = |x: f64, y: f64| pos(x, y, 0.0);
    let a = Block::new(pos(0.0, 0.0), pos(10.0, 0.0), d(1000.0), false, &limits, None);

    let mut queue: BlockQueue<8, u32> = BlockQueue::new();
    queue.push_command(1).unwrap();
    queue.push_block(a).unwrap();
    queue.push_command(2).unwrap();

    assert!(matches!(queue.pop_ready(), Some(PlannedBlock::Command(1))));
    assert!(matches!(queue.pop_ready(), Some(PlannedBlock::Motion { .. })));
    assert!(matches!(queue.pop_ready(), Some(PlannedBlock::Command(2))));
    assert!(queue.pop_ready().is_none());
}

#[test]
fn without_flush_the_last_queued_block_may_report_nonzero_exit_speed() {
    let limits = limits();
    let pos = |x: f64, y: f64| pos(x, y, 0.0);
    let mut queue: BlockQueue<8> = BlockQueue::new();
    let a = Block::new(pos(0.0, 0.0), pos(50.0, 0.0), d(3000.0), false, &limits, None);
    queue.push_block(a).unwrap();
    let planned = queue.pop_ready().unwrap();
    let PlannedBlock::Motion { exit_speed, .. } = planned else {
        panic!("expected motion")
    };
    let exit_speed = f(exit_speed);
    assert!(
        exit_speed > 0.0,
        "expected nonzero exit speed without a flush, got {exit_speed}"
    );
}

#[test]
fn flush_forces_the_last_queued_block_to_decelerate_to_a_stop() {
    let limits = limits();
    let pos = |x: f64, y: f64| pos(x, y, 0.0);
    let mut queue: BlockQueue<8> = BlockQueue::new();
    let a = Block::new(pos(0.0, 0.0), pos(50.0, 0.0), d(3000.0), false, &limits, None);
    queue.push_block(a).unwrap();
    queue.flush();
    let planned = queue.pop_ready().unwrap();
    let PlannedBlock::Motion { exit_speed, .. } = planned else {
        panic!("expected motion")
    };
    assert_eq!(exit_speed, d(0.0));
}

#[test]
fn queue_rejects_pushes_past_capacity() {
    let limits = limits();
    let pos = |x: f64, y: f64| pos(x, y, 0.0);
    let mut queue: BlockQueue<2> = BlockQueue::new();
    assert!(queue
        .push_block(Block::new(
            pos(0.0, 0.0),
            pos(1.0, 0.0),
            d(1000.0),
            false,
            &limits,
            None
        ))
        .is_ok());
    assert!(queue
        .push_block(Block::new(
            pos(1.0, 0.0),
            pos(2.0, 0.0),
            d(1000.0),
            false,
            &limits,
            None
        ))
        .is_ok());
    assert!(queue
        .push_block(Block::new(
            pos(2.0, 0.0),
            pos(3.0, 0.0),
            d(1000.0),
            false,
            &limits,
            None
        ))
        .is_err());
}

#[test]
fn the_ring_goes_round() {
    let mut queue: BlockQueue<3, u32> = BlockQueue::new();
    let mut next_in = 0;
    let mut next_out = 0;
    for round in 0..20 {
        while queue.push_command(next_in).is_ok() {
            next_in += 1;
        }
        assert!(queue.is_full());
        assert_eq!(queue.len(), 3);
        for _ in 0..(1 + round % 3) {
            match queue.pop_ready() {
                Some(PlannedBlock::Command(c)) => assert_eq!(c, next_out),
                _ => panic!("expected a command"),
            }
            next_out += 1;
        }
    }
    while queue.pop_ready().is_some() {
        next_out += 1;
    }
    assert!(queue.is_empty());
    assert_eq!(next_in, next_out);
}

#[test]
fn a_queue_without_room_is_always_full() {
    let mut queue: BlockQueue<0, u32> = BlockQueue::new();
    assert!(queue.is_full() && queue.is_empty());
    assert!(queue.push_command(1).is_err());
    queue.flush();
    assert!(queue.pop_ready().is_none());
}

// ---- the planner ----

#[test]
fn the_example_of_one_move_to_a_stop() {
    let limits = MachineLimits {
        axes: [axis(3000.0, 500.0); 3],
        junction_deviation: d(0.01),
        arc_tolerance: d(0.002),
    };
    let mut planner: Planner<16> = Planner::new(limits);
    planner
        .push_linear(pos(0.0, 0.0, 0.0), pos(10.0, 0.0, 0.0), d(600.0), false)
        .unwrap();
    planner.flush();
    match planner.pop_ready() {
        Some(PlannedBlock::Motion {
            distance,
            nominal_speed,
            exit_speed,
            ..
        }) => {
            assert_eq!(distance, d(10.0));
            assert!((f(nominal_speed) - 10.0).abs() < 1e-9);
            assert_eq!(exit_speed, d(0.0));
        }
        _ => panic!("expected one planned motion block"),
    }
}

#[test]
fn blocks_join_at_one_speed_and_can_stop_and_start() {
    let mut planner: Planner<64> = Planner::new(limits());
    let corners = [
        (0.0, 0.0),
        (5.0, 0.0),
        (5.5, 0.1),
        (6.0, 0.3),
        (6.0, 8.0),
        (5.9, 8.0),
        (-3.0, 7.5),
    ];
    for pair in corners.windows(2) {
        planner
            .push_linear(
                pos(pair[0].0, pair[0].1, 0.0),
                pos(pair[1].0, pair[1].1, 0.0),
                d(2400.0),
                false,
            )
            .unwrap();
    }
    planner.flush();
    let mut carried = 0.0;
    let mut count = 0;
    while let Some(PlannedBlock::Motion {
        distance,
        entry_speed,
        nominal_speed,
        exit_speed,
        acceleration,
        ..
    }) = planner.pop_ready()
    {
        let (entry, exit, reach) = (f(entry_speed), f(exit_speed), 2.0 * f(acceleration) * f(distance));
        assert_eq!(entry, carried);
        assert!(entry <= f(nominal_speed) && exit <= f(nominal_speed));
        assert!(exit * exit <= entry * entry + reach + 1e-9);
        assert!(entry * entry <= exit * exit + reach + 1e-9);
        carried = exit;
        count += 1;
    }
    assert_eq!(count, 6);
    assert_eq!(carried, 0.0);
}

#[test]
fn an_arc_that_does_not_fit_keeps_the_segments_that_did() {
    let (start, target, center) = quarter_circle();
    let mut planner: Planner<4> = Planner::new(limits());
    assert!(planner
        .push_arc(start, target, center, false, d(600.0), false, &trigonometry())
        .is_err());
    assert!(planner.is_full());
    assert_eq!(planner.len(), 4);
    let mut at = start;
    for _ in 0..4 {
        match planner.pop_ready() {
            Some(PlannedBlock::Motion { start, target, .. }) => {
                assert_eq!(start, at);
                at = target;
            }
            _ => panic!("expected motion"),
        }
    }
    assert!(planner.is_empty());
}

#[test]
fn a_command_between_two_moves_does_not_hide_the_corner() {
    let mut with: Planner<8, u32> = Planner::new(limits());
    let mut without: Planner<8, u32> = Planner::new(limits());
    for planner in [&mut with, &mut without] {
        planner
            .push_linear(pos(0.0, 0.0, 0.0), pos(20.0, 0.0, 0.0), d(3000.0), false)
            .unwrap();
    }
    with.push_command(7).unwrap();
    for planner in [&mut with, &mut without] {
        planner
            .push_linear(pos(20.0, 0.0, 0.0), pos(20.0, 20.0, 0.0), d(3000.0), false)
            .unwrap();
    }
    match (with.pop_ready(), without.pop_ready()) {
        (
            Some(PlannedBlock::Motion { exit_speed: a, .. }),
            Some(PlannedBlock::Motion { exit_speed: b, .. }),
        ) => {
            assert_eq!(a, b);
            assert!(f(a) < 5.0);
        }
        _ => panic!("expected motion"),
    }
}

#[test]
fn without_a_deviation_every_corner_is_a_stop() {
    let ahead = vector([1.0, 0.0, 0.0]);
    for turned in [[0.0, 1.0, 0.0], [0.6, 0.8, 0.0], [-1.0, 0.0, 0.0]] {
        let v = junction_speed_sqr(ahead, vector(turned), d(500.0), d(0.0));
        assert_eq!(v, d(0.0));
    }
    let v = junction_speed_sqr(ahead, ahead, d(500.0), d(0.0));
    assert!(f(v).is_infinite());
}

#[test]
fn no_axis_is_overrun() {
    let direction = [0.36, 0.48, 0.8];
    let (velocity, acceleration) = limits().direction_limits(vector(direction));
    for (axis, share) in limits().axes.iter().zip(direction) {
        assert!(f(velocity) <= f(axis.max_velocity) / share);
        assert!(f(acceleration) <= f(axis.max_acceleration) / share);
    }
    assert_eq!(velocity, d(600.0 / 0.8));
}

fn speeds<C>(entry: Option<PlannedBlock<C>>) -> (f64, f64) {
    match entry {
        Some(PlannedBlock::Motion {
            entry_speed,
            exit_speed,
            ..
        }) => (f(entry_speed), f(exit_speed)),
        _ => panic!("expected motion"),
    }
}

#[test]
fn no_speed_is_gained_over_no_length() {
    let p = pos(5.0, 5.0, 5.0);
    let mut queue: BlockQueue<8> = BlockQueue::new();
    queue
        .push_block(Block::new(p, p, d(600.0), false, &limits(), None))
        .unwrap();
    assert_eq!(speeds(queue.pop_ready()), (0.0, 0.0));
    // nor over one that is too short to have a direction
    let q = pos(5.0 + 1e-15, 5.0, 5.0);
    let block = Block::new(p, q, d(600.0), false, &limits(), None);
    assert!(f(block.distance) > 0.0);
    queue.push_block(block).unwrap();
    assert_eq!(speeds(queue.pop_ready()), (0.0, 0.0));
}

#[test]
fn a_block_of_no_length_does_not_hide_what_comes_behind_it() {
    let mut planner: Planner<8> = Planner::new(limits());
    let stop = pos(1.0, 0.0, 0.0);
    planner
        .push_linear(pos(0.0, 0.0, 0.0), stop, d(3000.0), false)
        .unwrap();
    planner.push_linear(stop, stop, d(3000.0), false).unwrap();
    planner.flush();
    let (_, first_exit) = speeds(planner.pop_ready());
    assert_eq!(first_exit, 0.0);
    assert_eq!(speeds(planner.pop_ready()), (0.0, 0.0));
}

#[test]
fn a_rejected_move_leaves_no_direction_behind() {
    let limits = MachineLimits {
        axes: [axis(3000.0, 500.0); 3],
        junction_deviation: d(0.01),
        arc_tolerance: d(0.002),
    };
    let at = |x: f64, y: f64| pos(x, y, 0.0);
    let mut planner: Planner<1> = Planner::new(limits);
    let feed = d(3000.0);
    assert!(planner
        .push_linear(at(0.0, 0.0), at(10.0, 0.0), feed, false)
        .is_ok());
    assert!(planner
        .push_linear(at(10.0, 0.0), at(10.0, 10.0), feed, false)
        .is_err());
    planner.pop_ready();
    assert!(planner
        .push_linear(at(10.0, 0.0), at(20.0, 0.0), feed, false)
        .is_ok());
    assert_eq!(speeds(planner.pop_ready()).0, 50.0);
}

#[test]
fn a_flushed_block_ends_at_rest_whatever_comes_behind() {
    let mut queue: BlockQueue<8, u32> = BlockQueue::new();
    let far = |x: f64| pos(x, 0.0, 0.0);
    let block = |from: f64, to: f64| {
        Block::new(
            far(from),
            far(to),
            d(3000.0),
            false,
            &limits(),
            Some(vector([1.0, 0.0, 0.0])),
        )
    };
    queue.push_block(block(0.0, 50.0)).unwrap();
    queue.push_block(block(50.0, 100.0)).unwrap();
    queue.flush();
    queue.push_command(1).unwrap();
    queue.push_block(block(100.0, 150.0)).unwrap();
    queue.push_block(block(150.0, 200.0)).unwrap();
    let (_, joint) = speeds(queue.pop_ready());
    assert_eq!(joint, 50.0);
    assert_eq!(speeds(queue.pop_ready()), (50.0, 0.0));
    assert!(matches!(queue.pop_ready(), Some(PlannedBlock::Command(1))));
    assert_eq!(speeds(queue.pop_ready()), (0.0, 50.0));
}

#[test]
fn a_flush_changes_only_the_end_of_the_newest_block() {
    let fill = |flushes: usize| {
        let mut planner: Planner<8> = Planner::new(limits());
        for i in 0..4 {
            let x = 2.0 * f64::from(i);
            planner
                .push_linear(pos(x, 0.0, 0.0), pos(x + 2.0, 0.0, 0.0), d(3000.0), false)
                .unwrap();
        }
        for _ in 0..flushes {
            planner.flush();
        }
        let mut all = Vec::new();
        while !planner.is_empty() {
            all.push(speeds(planner.pop_ready()));
        }
        all
    };
    let (plain, once, twice) = (fill(0), fill(1), fill(2));
    assert_eq!(plain[..3], once[..3]);
    assert_eq!(plain[3].0, once[3].0);
    assert_eq!(once[3].1, 0.0);
    assert!(plain[3].1 > 0.0);
    assert_eq!(once, twice);
}
