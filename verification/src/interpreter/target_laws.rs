//! What holds of the targets of moves: what an axis word means in each distance mode, and
//! what it does not depend on.
use vstd::prelude::*;
use crate::double::Double;
use crate::order::law_one_is_one;
use crate::order::law_product_keeps_order;
use crate::order::law_sum_keeps_order;
use crate::value::absolute;
use crate::value::grain;
use crate::value::law_sum_is_near;
use crate::value::near;
use super::laws::as_motion;
use super::line::HomeReference;
use super::line::Line;
use super::meaning::CannedCycleWords;
use super::meaning::Hole;
use super::motion::ArcGeometry;
use super::motion::MotionMode;
use super::motion::arc_center;
use super::state::ModalState;
use super::state::Plane;
use super::state::Position;

verus! {

/// In incremental mode the offsets have no say: two states that differ in nothing but
/// their offsets, be they of the coordinate system or of G92, lead to the same target.
pub proof fn law_incremental_targets_ignore_offsets(
    a: ModalState,
    b: ModalState,
    x: Option<Double>,
    y: Option<Double>,
    z: Option<Double>,
)
    requires
        a.distance_mode is Incremental,
        b.distance_mode is Incremental,
        a.position == b.position,
        a.units == b.units,
    ensures
        a.target(x, y, z, false) == b.target(x, y, z, false),
{
}

/// In absolute mode the current position has no say on an axis that has a word.
pub proof fn law_absolute_targets_ignore_the_position(
    a: ModalState,
    b: ModalState,
    x: Double,
    y: Double,
    z: Double,
)
    requires
        a.distance_mode is Absolute,
        b.distance_mode is Absolute,
        a.offset() == b.offset(),
        a.units == b.units,
    ensures
        a.target(Some(x), Some(y), Some(z), false) == b.target(Some(x), Some(y), Some(z), false),
{
}

/// An axis that has no word stays where it is, in every mode; and a word of one axis has
/// no say on another.
pub proof fn law_axes_are_independent(
    state: ModalState,
    x: Option<Double>,
    y: Option<Double>,
    z: Option<Double>,
    machine_coordinates: bool,
)
    ensures
        ({
            let to = state.target(x, y, z, machine_coordinates);
            &&& x is None ==> to.x == state.position.x
            &&& y is None ==> to.y == state.position.y
            &&& z is None ==> to.z == state.position.z
            &&& to.x == state.target(x, None, None, machine_coordinates).x
            &&& to.y == state.target(None, y, None, machine_coordinates).y
            &&& to.z == state.target(None, None, z, machine_coordinates).z
        }),
{
}

/// One number is as far from another as a third says, but for rounding.
pub open spec fn steps(from: Double, to: Double, by: Double) -> bool {
    near(
        to.value(),
        from.value() + by.value(),
        grain() * absolute(from.value() + by.value()),
    )
}

/// In incremental mode a word is a step: the target is the current coordinate and the
/// word, in millimeters, together.
pub proof fn law_incremental_word_is_a_step(
    state: ModalState,
    x: Option<Double>,
    y: Option<Double>,
    z: Option<Double>,
)
    requires
        state.distance_mode is Incremental,
    ensures
        ({
            let at = state.position;
            let to = state.target(x, y, z, false);
            &&& x matches Some(v) ==> (at.x.finite() && state.millimeters(v).finite()
                && to.x.finite() ==> steps(at.x, to.x, state.millimeters(v)))
            &&& y matches Some(v) ==> (at.y.finite() && state.millimeters(v).finite()
                && to.y.finite() ==> steps(at.y, to.y, state.millimeters(v)))
            &&& z matches Some(v) ==> (at.z.finite() && state.millimeters(v).finite()
                && to.z.finite() ==> steps(at.z, to.z, state.millimeters(v)))
        }),
{
    let at = state.position;
    let to = state.target(x, y, z, false);
    if let Some(v) = x {
        if at.x.finite() && state.millimeters(v).finite() && to.x.finite() {
            law_sum_is_near(at.x, state.millimeters(v));
        }
    }
    if let Some(v) = y {
        if at.y.finite() && state.millimeters(v).finite() && to.y.finite() {
            law_sum_is_near(at.y, state.millimeters(v));
        }
    }
    if let Some(v) = z {
        if at.z.finite() && state.millimeters(v).finite() && to.z.finite() {
            law_sum_is_near(at.z, state.millimeters(v));
        }
    }
}

/// In absolute mode a word is a coordinate: the target is as far from the origin of the
/// active system as the word, in millimeters, says.
pub proof fn law_absolute_word_is_a_coordinate(
    state: ModalState,
    x: Option<Double>,
    y: Option<Double>,
    z: Option<Double>,
)
    requires
        state.distance_mode is Absolute,
    ensures
        ({
            let origin = state.offset();
            let to = state.target(x, y, z, false);
            &&& x matches Some(v) ==> (origin.x.finite() && state.millimeters(v).finite()
                && to.x.finite() ==> steps(origin.x, to.x, state.millimeters(v)))
            &&& y matches Some(v) ==> (origin.y.finite() && state.millimeters(v).finite()
                && to.y.finite() ==> steps(origin.y, to.y, state.millimeters(v)))
            &&& z matches Some(v) ==> (origin.z.finite() && state.millimeters(v).finite()
                && to.z.finite() ==> steps(origin.z, to.z, state.millimeters(v)))
        }),
{
    let origin = state.offset();
    let to = state.target(x, y, z, false);
    if let Some(v) = x {
        if origin.x.finite() && state.millimeters(v).finite() && to.x.finite() {
            law_sum_is_near(state.millimeters(v), origin.x);
        }
    }
    if let Some(v) = y {
        if origin.y.finite() && state.millimeters(v).finite() && to.y.finite() {
            law_sum_is_near(state.millimeters(v), origin.y);
        }
    }
    if let Some(v) = z {
        if origin.z.finite() && state.millimeters(v).finite() && to.z.finite() {
            law_sum_is_near(state.millimeters(v), origin.z);
        }
    }
}

/// The origin of the active system lies where its own offset and the shift of G92
/// together put it.
pub proof fn law_offsets_add_up(state: ModalState)
    ensures
        ({
            let base = state.offset_of(state.coordinate_system);
            let shift = state.g92_offset;
            let origin = state.offset();
            &&& base.x.finite() && shift.x.finite() && origin.x.finite() ==> steps(
                base.x,
                origin.x,
                shift.x,
            )
            &&& base.y.finite() && shift.y.finite() && origin.y.finite() ==> steps(
                base.y,
                origin.y,
                shift.y,
            )
            &&& base.z.finite() && shift.z.finite() && origin.z.finite() ==> steps(
                base.z,
                origin.z,
                shift.z,
            )
        }),
{
    let base = state.offset_of(state.coordinate_system);
    let shift = state.g92_offset;
    let origin = state.offset();
    if base.x.finite() && shift.x.finite() && origin.x.finite() {
        law_sum_is_near(base.x, shift.x);
    }
    if base.y.finite() && shift.y.finite() && origin.y.finite() {
        law_sum_is_near(base.y, shift.y);
    }
    if base.z.finite() && shift.z.finite() && origin.z.finite() {
        law_sum_is_near(base.z, shift.z);
    }
}

/// In machine coordinates a word is the target itself, whatever the modes are.
pub proof fn law_machine_word_is_the_target(
    state: ModalState,
    x: Double,
    y: Double,
    z: Double,
)
    ensures
        state.target(Some(x), Some(y), Some(z), true) == (Position {
            x: state.millimeters(x),
            y: state.millimeters(y),
            z: state.millimeters(z),
        }),
        state.units is Millimeters ==> state.millimeters(x) == x,
{
}

/// A straight move starts where the machine is and ends where the line's words lead,
/// from where the line finds it; in machine coordinates if the line says so. That is all
/// that the line hands out for it, and there the machine then is.
pub proof fn law_straight_move_follows_its_words(state: ModalState, line: Line)
    requires
        !line.suppress_motion,
        line.x is Some || line.y is Some || line.z is Some,
        (line.resolved_mode matches Some(mode) && (mode is Rapid || mode is Linear)) || (
        line.resolved_mode is None && (state.motion_mode is Rapid || state.motion_mode is Linear)),
    ensures
        ({
            let outcome = state.after_motion(line);
            let to = state.target(line.x, line.y, line.z, line.machine_coordinates);
            &&& outcome.trace.len() == 1
            &&& as_motion(outcome.trace[0]) matches Some(m) && m.start == state.position
                && m.target == to && m.arc is None && m.motion_mode == (
            match line.resolved_mode {
                Some(mode) => mode,
                None => state.motion_mode,
            })
            &&& outcome.state.position == to
        }),
{
}

/// The hole of a canned cycle lies where a move with the same words would end, and so do
/// the depth and the retract plane where the line gives them.
pub proof fn law_hole_lies_where_its_words_lead(state: ModalState, words: CannedCycleWords)
    requires
        words.z is Some,
        words.r is Some,
    ensures
        ({
            let hole = state.hole(words);
            let bottom = state.target(words.x, words.y, words.z, false);
            &&& hole.x == bottom.x
            &&& hole.y == bottom.y
            &&& hole.bottom == bottom.z
            &&& hole.r == state.target(None, None, words.r, false).z
            &&& hole.initial == state.position.z
        }),
{
}

// ---- arcs, homing and cycles ----

/// Where an arc is given by the offset of its center, the center lies that far from the
/// start on both axes of the plane: I along X, J along Y and K along Z.
pub proof fn law_center_offset_is_from_the_start(
    plane: Plane,
    start: Position,
    end: Position,
    ijk: (Double, Double, Double),
    r: Option<Double>,
    clockwise: bool,
)
    ensures
        arc_center(plane, start, end, Some(ijk), r, clockwise) matches Ok(center) && ({
            &&& !(plane is Yz) && start.x.finite() && ijk.0.finite() && center.x.finite()
                ==> steps(start.x, center.x, ijk.0)
            &&& !(plane is Zx) && start.y.finite() && ijk.1.finite() && center.y.finite()
                ==> steps(start.y, center.y, ijk.1)
            &&& !(plane is Xy) && start.z.finite() && ijk.2.finite() && center.z.finite()
                ==> steps(start.z, center.z, ijk.2)
            &&& plane is Yz ==> center.x == start.x
            &&& plane is Zx ==> center.y == start.y
            &&& plane is Xy ==> center.z == start.z
        }),
{
    reveal(arc_center);
    let center = arc_center(plane, start, end, Some(ijk), r, clockwise)->Ok_0;
    if !(plane is Yz) && start.x.finite() && ijk.0.finite() && center.x.finite() {
        law_sum_is_near(start.x, ijk.0);
    }
    if !(plane is Zx) && start.y.finite() && ijk.1.finite() && center.y.finite() {
        law_sum_is_near(start.y, ijk.1);
    }
    if !(plane is Xy) && start.z.finite() && ijk.2.finite() && center.z.finite() {
        law_sum_is_near(start.z, ijk.2);
    }
}

/// An arc starts where the machine is and ends where the line's words lead, about the
/// center that its I, J and K or its R give, in millimeters; where there is no such
/// center, nothing moves.
pub proof fn law_arc_follows_its_words(state: ModalState, line: Line)
    requires
        !line.suppress_motion,
        line.x is Some || line.y is Some || line.z is Some || line.i is Some || line.j is Some
            || line.k is Some || line.r is Some,
        line.resolved_mode matches Some(mode) && (mode is ArcClockwise || mode
            is ArcCounterclockwise),
    ensures
        ({
            let outcome = state.after_motion(line);
            let to = state.target(line.x, line.y, line.z, line.machine_coordinates);
            let clockwise = line.resolved_mode == Some(MotionMode::ArcClockwise);
            let offset = (
                state.length_or_zero(line.i),
                state.length_or_zero(line.j),
                state.length_or_zero(line.k),
            );
            let given = line.i is Some || line.j is Some || line.k is Some;
            let center = arc_center(
                state.plane,
                state.position,
                to,
                if given {
                    Some(offset)
                } else {
                    None
                },
                state.length(line.r),
                clockwise,
            );
            &&& outcome.trace.len() == 1
            &&& center matches Ok(c) ==> {
                &&& as_motion(outcome.trace[0]) matches Some(m) && m.start == state.position
                    && m.target == to && Some(m.motion_mode) == line.resolved_mode && m.arc
                    == Some(ArcGeometry { center: c })
                &&& outcome.state.position == to
            }
            &&& center is Err ==> outcome.trace[0] is Error && outcome.state == state
        }),
{
}

/// G28 and G30 without axis words go straight to the stored position; with axis words
/// they first go where a move with these words would end. All of it is rapid.
pub proof fn law_homing_ends_at_the_stored_position(state: ModalState, line: Line)
    requires
        line.home_request is Some,
    ensures
        ({
            let outcome = state.after_homing(line);
            let home = match line.home_request {
                Some(HomeReference::G28) => state.g28_position,
                _ => state.g30_position,
            };
            let via = state.target(line.x, line.y, line.z, false);
            let by_way = line.x is Some || line.y is Some || line.z is Some;
            &&& outcome.state.position == home
            &&& outcome.trace.len() == if by_way {
                2nat
            } else {
                1
            }
            &&& as_motion(outcome.trace[0]) matches Some(m) && m.motion_mode is Rapid && m.start
                == state.position && m.target == if by_way {
                via
            } else {
                home
            }
            &&& by_way ==> (as_motion(outcome.trace[1]) matches Some(m) && m.motion_mode is Rapid
                && m.start == via && m.target == home)
        }),
{
}

/// The legs of a canned cycle that goes to the bottom in one: over the hole at the height
/// that it starts from, down to the retract plane, both rapid; then to the bottom at the
/// feed rate; and out again at the end, at the feed rate for G85 and G89 and else rapid.
pub proof fn law_cycle_goes_over_the_hole_first(state: ModalState, kind: MotionMode, words: CannedCycleWords)
    requires
        kind.canned_cycle(),
        !(kind is PeckDrill),
        state.cycle_error(kind, words) is None,
    ensures
        ({
            let outcome = state.cycle(kind, words);
            let hole = state.hole(words);
            let trace = outcome.trace;
            let over = Position { x: hole.x, y: hole.y, z: state.position.z };
            let plane = Position { x: hole.x, y: hole.y, z: hole.r };
            let bottom = Position { x: hole.x, y: hole.y, z: hole.bottom };
            let feeds_out = kind is BoreFeedOut || kind is BoreDwellFeedOut;
            &&& trace.len() >= 4
            &&& as_motion(trace[0]) matches Some(m) && m.motion_mode is Rapid && m.start
                == state.position && m.target == over
            &&& as_motion(trace[1]) matches Some(m) && m.motion_mode is Rapid && m.start == over
                && m.target == plane
            &&& as_motion(trace[2]) matches Some(m) && m.motion_mode is Linear && m.start == plane
                && m.target == bottom
            &&& as_motion(trace.last()) matches Some(m) && m.start == bottom && m.target
                == outcome.state.position && m.motion_mode == if feeds_out {
                MotionMode::Linear
            } else {
                MotionMode::Rapid
            }
            &&& outcome.state.position == plane || outcome.state.position == over
        }),
{
}

/// After a cycle the tool is over the hole. With G99 it is at the retract plane; with G98
/// it is at the height where it started, if that is further from the bottom.
pub proof fn law_cycle_returns_to_its_height(state: ModalState, kind: MotionMode, words: CannedCycleWords)
    requires
        kind.canned_cycle(),
        state.cycle_error(kind, words) is None,
        state.hole(words).r.finite(),
        state.hole(words).bottom.finite(),
        state.hole(words).initial.finite(),
        state.hole(words).bottom.below(state.hole(words).r),
    ensures
        ({
            let hole = state.hole(words);
            let at = state.cycle(kind, words).state.position;
            &&& at.x == hole.x
            &&& at.y == hole.y
            &&& at.z == hole.r || at.z == state.position.z
            &&& !state.canned_cycle_return_to_initial_z ==> at.z == hole.r
            &&& at.z == hole.r || hole.r.at_most(at.z)
        }),
{
    let hole = state.hole(words);
    if !hole.r.at_most(hole.initial) {
        lemma_clearance(hole);
    }
}

/// What is further from the bottom is higher up.
proof fn lemma_clearance(hole: Hole)
    requires
        hole.r.finite(),
        hole.bottom.finite(),
        hole.initial.finite(),
        hole.bottom.below(hole.r),
        hole.initial.at_most(hole.r),
    ensures
        !hole.clearance(hole.r).below(hole.clearance(hole.initial)),
{
    let one = Double::of(1);
    assert(hole.direction() == one.opposite());
    assert(one.opposite().opposite() == one);
    let (a, b) = (hole.initial - hole.bottom, hole.r - hole.bottom);
    assert(!a.nan() && !b.nan()) by {
        reveal(crate::double::sum);
    }
    law_sum_keeps_order(hole.initial, hole.r, hole.bottom.opposite());
    law_one_is_one();
    law_product_keeps_order(a, b, one);
}

} // verus!
