//! `ResolvedMotionCommand`: a move, with everything a planner needs to know of it.
//!
//! Arcs are handed on as arcs, with their center; whether to cut them into
//! segments is the planner's choice. Every value is a copy, so that a command
//! keeps its meaning while the interpreter goes on.
use vstd::prelude::*;
use crate::double::Double;
use super::state::Plane;
use super::state::Position;

verus! {

/// What a line with axis words does.
#[derive(Debug, Clone, Copy, PartialEq, Eq, Structural)]
pub enum MotionMode {
    /// G0: rapid positioning, without regard to the feed rate.
    Rapid,
    /// G1: a straight line at the feed rate.
    Linear,
    /// G2: a clockwise arc at the feed rate.
    ArcClockwise,
    /// G3: a counterclockwise arc at the feed rate.
    ArcCounterclockwise,
    /// G81: rapid to the R plane, feed to the depth, rapid out.
    Drill,
    /// G82: like `Drill`, with a dwell at the bottom.
    DrillDwell,
    /// G83: feed to the depth in bites, with a full retract after each.
    PeckDrill,
    /// G85: like `Drill`, but out at the feed rate.
    BoreFeedOut,
    /// G86: like `Drill`, but the spindle stops at the bottom and stays stopped.
    BoreSpindleStop,
    /// G89: a dwell at the bottom, then out at the feed rate.
    BoreDwellFeedOut,
    /// G80: no motion mode. Axis words are an error then.
    Inactive,
}

impl MotionMode {
    /// G2 and G3.
    pub open spec fn arc(self) -> bool {
        self is ArcClockwise || self is ArcCounterclockwise
    }

    /// G81, G82, G83, G85, G86 and G89.
    pub open spec fn canned_cycle(self) -> bool {
        self is Drill || self is DrillDwell || self is PeckDrill || self is BoreFeedOut
            || self is BoreSpindleStop || self is BoreDwellFeedOut
    }

    pub fn is_arc(self) -> (r: bool)
        ensures
            r == self.arc(),
    {
        match self {
            MotionMode::ArcClockwise | MotionMode::ArcCounterclockwise => true,
            _ => false,
        }
    }

    pub fn is_canned_cycle(self) -> (r: bool)
        ensures
            r == self.canned_cycle(),
    {
        match self {
            MotionMode::Drill
            | MotionMode::DrillDwell
            | MotionMode::PeckDrill
            | MotionMode::BoreFeedOut
            | MotionMode::BoreSpindleStop
            | MotionMode::BoreDwellFeedOut => true,
            _ => false,
        }
    }
}

impl Default for MotionMode {
    /// No mode is active until one is commanded: axis words before that are an
    /// error to report, not a rapid move to guess.
    fn default() -> (mode: MotionMode)
        ensures
            mode == MotionMode::Inactive,
    {
        MotionMode::Inactive
    }
}

/// What an arc has and a straight move has not.
#[derive(Debug, Clone, Copy, PartialEq)]
pub struct ArcGeometry {
    /// The center, in the coordinates of the move's target. Its coordinate on the
    /// linear axis of the plane is that of the start.
    pub center: Position,
}

/// Why a G2/G3 line has no arc.
#[derive(Debug, Clone, Copy, PartialEq, Eq, Structural)]
pub enum ArcError {
    /// Neither a center offset nor a radius was given.
    MissingGeometry,
    /// No circle of this radius passes through both ends.
    RadiusTooSmall,
    /// A radius was given and the ends coincide, so there is no one circle.
    CoincidentEndpoints,
}

/// A resolved move.
#[derive(Debug, Clone, Copy, PartialEq)]
pub struct ResolvedMotionCommand {
    pub start: Position,
    /// In machine millimeters, with offsets, units and distance mode resolved.
    pub target: Position,
    pub motion_mode: MotionMode,
    /// Present for arcs only.
    pub arc: Option<ArcGeometry>,
    /// In millimeters per minute. Without meaning for a rapid move.
    pub feed_rate: Double,
}

/// The in-plane coordinates of `p`, in the cyclic order XY, YZ, ZX: with it one
/// rule tells clockwise from counterclockwise in all three planes.
pub open spec fn in_plane(plane: Plane, p: Position) -> (Double, Double) {
    match plane {
        Plane::Xy => (p.x, p.y),
        Plane::Yz => (p.y, p.z),
        Plane::Zx => (p.z, p.x),
    }
}

/// The coordinate of `p` on the axis that is perpendicular to the plane.
pub open spec fn off_plane(plane: Plane, p: Position) -> Double {
    match plane {
        Plane::Xy => p.z,
        Plane::Yz => p.x,
        Plane::Zx => p.y,
    }
}

/// The position with these coordinates in and off the plane.
pub open spec fn from_plane(plane: Plane, u: Double, v: Double, linear: Double) -> Position {
    match plane {
        Plane::Xy => Position { x: u, y: v, z: linear },
        Plane::Yz => Position { x: linear, y: u, z: v },
        Plane::Zx => Position { x: v, y: linear, z: u },
    }
}

/// The center of the circle of radius `r` through two points of a plane. With
/// `toward` +1 it lies to the left of the way from the first to the second
/// point, with -1 to the right.
pub open spec fn circle_center(
    from: (Double, Double),
    to: (Double, Double),
    r: Double,
    toward: Double,
) -> Result<(Double, Double), ArcError> {
    let dx = to.0 - from.0;
    let dy = to.1 - from.1;
    let d2 = dx * dx + dy * dy;
    let h2 = r * r - d2 / Double::of(4);
    if d2.same(Double::nought()) {
        Err(ArcError::CoincidentEndpoints)
    } else if h2.below(Double::nought()) {
        Err(ArcError::RadiusTooSmall)
    } else {
        let d = d2.root();
        let k = toward * h2.root();
        let two = Double::of(2);
        Ok(
            (
                (from.0 + to.0) / two + k * (dy.opposite() / d),
                (from.1 + to.1) / two + k * (dx / d),
            ),
        )
    }
}

/// On which side of the way from start to target the center lies: a positive
/// radius asks for the arc of at most half a turn, a negative one for the other.
pub open spec fn center_side(r: Double, clockwise: bool) -> Double {
    let one = Double::of(1);
    let turn = if clockwise { one.opposite() } else { one };
    let arc = if Double::nought().at_most(r) { one } else { one.opposite() };
    turn * arc
}

/// The center of a G2/G3 arc. `ijk` is its offset from the start, and is taken
/// where both it and a radius are given.
#[verifier::opaque]
pub open spec fn arc_center(
    plane: Plane,
    start: Position,
    end: Position,
    ijk: Option<(Double, Double, Double)>,
    r: Option<Double>,
    clockwise: bool,
) -> Result<Position, ArcError> {
    let from = in_plane(plane, start);
    let linear = off_plane(plane, start);
    match (ijk, r) {
        (Some(offset), _) => {
            let by = in_plane(plane, Position { x: offset.0, y: offset.1, z: offset.2 });
            Ok(from_plane(plane, from.0 + by.0, from.1 + by.1, linear))
        },
        (None, Some(r)) => match circle_center(
            from,
            in_plane(plane, end),
            r,
            center_side(r, clockwise),
        ) {
            Ok(center) => Ok(from_plane(plane, center.0, center.1, linear)),
            Err(e) => Err(e),
        },
        (None, None) => Err(ArcError::MissingGeometry),
    }
}

fn plane_uv(plane: Plane, p: Position) -> (uv: (Double, Double))
    ensures
        uv == in_plane(plane, p),
{
    match plane {
        Plane::Xy => (p.x, p.y),
        Plane::Yz => (p.y, p.z),
        Plane::Zx => (p.z, p.x),
    }
}

fn plane_linear(plane: Plane, p: Position) -> (linear: Double)
    ensures
        linear == off_plane(plane, p),
{
    match plane {
        Plane::Xy => p.z,
        Plane::Yz => p.x,
        Plane::Zx => p.y,
    }
}

fn uv_to_position(plane: Plane, u: Double, v: Double, linear: Double) -> (p: Position)
    ensures
        p == from_plane(plane, u, v, linear),
{
    match plane {
        Plane::Xy => Position { x: u, y: v, z: linear },
        Plane::Yz => Position { x: linear, y: u, z: v },
        Plane::Zx => Position { x: v, y: linear, z: u },
    }
}

/// The two of I, J and K that lie in the plane, in the order of `plane_uv`.
fn ijk_uv(plane: Plane, ijk: (Double, Double, Double)) -> (uv: (Double, Double))
    ensures
        uv == in_plane(plane, Position { x: ijk.0, y: ijk.1, z: ijk.2 }),
{
    match plane {
        Plane::Xy => (ijk.0, ijk.1),
        Plane::Yz => (ijk.1, ijk.2),
        Plane::Zx => (ijk.2, ijk.0),
    }
}

/// The center of a G2/G3 arc, from the ends of the move and the line's I/J/K
/// and R words, all in millimeters.
pub fn resolve_arc_center(
    plane: Plane,
    start: Position,
    end: Position,
    ijk: Option<(Double, Double, Double)>,
    r: Option<Double>,
    clockwise: bool,
) -> (center: Result<Position, ArcError>)
    ensures
        center == arc_center(plane, start, end, ijk, r, clockwise),
{
    proof {
        reveal(arc_center);
    }
    let (u0, v0) = plane_uv(plane, start);
    let (u1, v1) = plane_uv(plane, end);
    let linear = plane_linear(plane, start);
    let zero = Double::zeroed();

    let (cu, cv) = if let Some(ijk) = ijk {
        let (iu, iv) = ijk_uv(plane, ijk);
        (u0 + iu, v0 + iv)
    } else if let Some(r) = r {
        let dx = u1 - u0;
        let dy = v1 - v0;
        let d2 = dx * dx + dy * dy;
        if d2 == zero {
            return Err(ArcError::CoincidentEndpoints);
        }
        let d = d2.sqrt();
        let h2 = r * r - d2 / Double::from_integer(4);
        if h2.is_below(zero) {
            return Err(ArcError::RadiusTooSmall);
        }
        let h = h2.sqrt();
        let two = Double::from_integer(2);
        let mu = (u0 + u1) / two;
        let mv = (v0 + v1) / two;
        // the direction from start to end, turned left by a right angle
        let perp_u = dy.negated() / d;
        let perp_v = dx / d;
        let one = Double::from_integer(1);
        let r_sign = if zero.is_at_most(r) {
            one
        } else {
            one.negated()
        };
        let dir = if clockwise {
            one.negated()
        } else {
            one
        };
        let k = dir * r_sign * h;
        (mu + k * perp_u, mv + k * perp_v)
    } else {
        return Err(ArcError::MissingGeometry);
    };

    Ok(uv_to_position(plane, cu, cv, linear))
}

} // verus!
