//! Arcs, cut into straight segments.
//!
//! A chord of length `c` of a circle of radius `r` leaves the arc by
//! `s = r - sqrt(r^2 - (c / 2)^2)`. The longest chord that leaves it by `s` is
//! `c = 2 * sqrt(s * (2 * r - s))`, and an arc is cut into as many segments as it
//! takes for none to be longer.
use vstd::prelude::*;
use crate::double::Double;
use super::position::Position;
use super::trigonometry::Trigonometry;

verus! {

/// The axis-aligned plane that an arc lies in.
#[derive(Debug, Clone, Copy, PartialEq, Eq, Structural)]
pub enum Plane {
    Xy,
    Yz,
    Zx,
}

/// The coordinates of `p` in the plane.
pub open spec fn within(p: Position, plane: Plane) -> (Double, Double) {
    match plane {
        Plane::Xy => (p.x, p.y),
        Plane::Yz => (p.y, p.z),
        Plane::Zx => (p.z, p.x),
    }
}

/// The coordinate of `p` off the plane.
pub open spec fn across(p: Position, plane: Plane) -> Double {
    match plane {
        Plane::Xy => p.z,
        Plane::Yz => p.x,
        Plane::Zx => p.y,
    }
}

/// The position with these coordinates in and off the plane.
pub open spec fn placed(u: Double, v: Double, linear: Double, plane: Plane) -> Position {
    match plane {
        Plane::Xy => Position { x: u, y: v, z: linear },
        Plane::Yz => Position { x: linear, y: u, z: v },
        Plane::Zx => Position { x: v, y: linear, z: u },
    }
}

fn in_plane(p: Position, plane: Plane) -> (uv: (Double, Double))
    ensures
        uv == within(p, plane),
{
    match plane {
        Plane::Xy => (p.x, p.y),
        Plane::Yz => (p.y, p.z),
        Plane::Zx => (p.z, p.x),
    }
}

fn linear_coord(p: Position, plane: Plane) -> (linear: Double)
    ensures
        linear == across(p, plane),
{
    match plane {
        Plane::Xy => p.z,
        Plane::Yz => p.x,
        Plane::Zx => p.y,
    }
}

fn from_plane(u: Double, v: Double, linear: Double, plane: Plane) -> (p: Position)
    ensures
        p == placed(u, v, linear, plane),
{
    match plane {
        Plane::Xy => Position { x: u, y: v, z: linear },
        Plane::Yz => Position { x: linear, y: u, z: v },
        Plane::Zx => Position { x: v, y: linear, z: u },
    }
}

/// A position relative to the center, in the plane.
pub open spec fn spoke(p: Position, center: Position, plane: Plane) -> (Double, Double) {
    let at = within(p, plane);
    let c = within(center, plane);
    (at.0 - c.0, at.1 - c.1)
}

/// How far a position is from the center, in the plane.
pub open spec fn reach(p: Position, center: Position, plane: Plane) -> Double {
    let (du, dv) = spoke(p, center, plane);
    (du * du + dv * dv).root()
}

/// By how much one end of an arc is further from the center than the other, in the
/// plane.
pub open spec fn misfit(
    start: Position,
    target: Position,
    center: Position,
    plane: Plane,
) -> Double {
    (reach(start, center, plane) - reach(target, center, plane)).size()
}

/// On no axis is the center closer to the start than on the one that is perpendicular
/// to the plane.
pub open spec fn level(start: Position, center: Position, plane: Plane) -> bool {
    let d = (across(center, plane) - across(start, plane)).size();
    &&& d.at_most((center.x - start.x).size())
    &&& d.at_most((center.y - start.y).size())
    &&& d.at_most((center.z - start.z).size())
}

/// How far the ends of an arc may be from lying on one circle, in millimeters: they
/// are given in decimals, and rounded.
pub open spec fn slack() -> Double {
    Double::of(1) / Double::of(1000)
}

/// The better one of two planes: the first, unless the ends of the arc do not lie on one
/// circle in it, and the other is level and they more nearly do so there.
pub open spec fn better(
    start: Position,
    target: Position,
    center: Position,
    plane: Plane,
    other: Plane,
) -> Plane {
    let here = misfit(start, target, center, plane);
    if slack().below(here) && level(start, center, other) && misfit(
        start,
        target,
        center,
        other,
    ).below(here) {
        other
    } else {
        plane
    }
}

/// The plane of an arc: the axis on which the center is closest to the start is the
/// one that is perpendicular to it. Where the start does not tell two axes apart, the
/// target does, if it lies on the circle for one of them only; else Z comes before Y,
/// and Y before X.
pub open spec fn plane_of(start: Position, target: Position, center: Position) -> Plane {
    let dx = (center.x - start.x).size();
    let dy = (center.y - start.y).size();
    let plane = if level(start, center, Plane::Xy) {
        Plane::Xy
    } else if dy.at_most(dx) {
        Plane::Zx
    } else {
        Plane::Yz
    };
    let plane = better(start, target, center, plane, Plane::Zx);
    better(start, target, center, plane, Plane::Yz)
}

fn distance_to_center(p: Position, center: Position, plane: Plane) -> (distance: Double)
    ensures
        distance == reach(p, center, plane),
{
    let (u, v) = in_plane(p, plane);
    let (cu, cv) = in_plane(center, plane);
    let (du, dv) = (u - cu, v - cv);
    (du * du + dv * dv).sqrt()
}

fn is_level(start: Position, center: Position, plane: Plane) -> (r: bool)
    ensures
        r == level(start, center, plane),
{
    let d = (linear_coord(center, plane) - linear_coord(start, plane)).abs();
    d.is_at_most((center.x - start.x).abs()) && d.is_at_most((center.y - start.y).abs())
        && d.is_at_most((center.z - start.z).abs())
}

fn better_plane(
    start: Position,
    target: Position,
    center: Position,
    plane: Plane,
    other: Plane,
) -> (r: Plane)
    ensures
        r == better(start, target, center, plane, other),
{
    let here = (distance_to_center(start, center, plane) - distance_to_center(
        target,
        center,
        plane,
    )).abs();
    let slack = Double::from_integer(1) / Double::from_integer(1000);
    if slack.is_below(here) && is_level(start, center, other) {
        let there = (distance_to_center(start, center, other) - distance_to_center(
            target,
            center,
            other,
        )).abs();
        if there.is_below(here) {
            return other;
        }
    }
    plane
}

fn detect_plane(start: Position, target: Position, center: Position) -> (plane: Plane)
    ensures
        plane == plane_of(start, target, center),
{
    let dx = (center.x - start.x).abs();
    let dy = (center.y - start.y).abs();
    let plane = if is_level(start, center, Plane::Xy) {
        Plane::Xy
    } else if dy.is_at_most(dx) {
        Plane::Zx
    } else {
        Plane::Yz
    };
    let plane = better_plane(start, target, center, plane, Plane::Zx);
    better_plane(start, target, center, plane, Plane::Yz)
}

/// An arc as a function of the way along it.
#[derive(Debug, Clone, Copy)]
pub struct ArcParams {
    pub plane: Plane,
    pub center_uv: (Double, Double),
    pub radius: Double,
    /// The angle at the start.
    pub angle0: Double,
    /// The angle from the start to the end, negative for clockwise.
    pub sweep: Double,
    /// The coordinate off the plane at the start and at the end.
    pub linear0: Double,
    pub linear1: Double,
}

/// What counts as no length.
pub open spec fn speck() -> Double {
    Double::of(1) / Double::of(1_000_000_000)
}

/// Two positions so close that an arc between them is a full circle.
pub open spec fn coincide(a: Position, b: Position) -> bool {
    &&& (a.x - b.x).size().below(speck())
    &&& (a.y - b.y).size().below(speck())
    &&& (a.z - b.z).size().below(speck())
}

/// An angle difference, brought above zero by a full turn.
pub open spec fn onward(d: Double) -> Double {
    if d.at_most(Double::nought()) {
        d + Double::full_turn()
    } else {
        d
    }
}

/// The angle from the start to the end of an arc.
pub open spec fn sweep_between(
    angle0: Double,
    angle1: Double,
    full_circle: bool,
    clockwise: bool,
) -> Double {
    if full_circle {
        if clockwise {
            Double::full_turn().opposite()
        } else {
            Double::full_turn()
        }
    } else if clockwise {
        onward(angle0 - angle1).opposite()
    } else {
        onward(angle1 - angle0)
    }
}

impl ArcParams {
    /// The arc whose ends lie at these angles.
    pub open spec fn between(
        start: Position,
        target: Position,
        center: Position,
        clockwise: bool,
        angle0: Double,
        angle1: Double,
    ) -> ArcParams {
        let plane = plane_of(start, target, center);
        ArcParams {
            plane,
            center_uv: within(center, plane),
            radius: reach(start, center, plane),
            angle0,
            sweep: sweep_between(angle0, angle1, coincide(start, target), clockwise),
            linear0: across(start, plane),
            linear1: across(target, plane),
        }
    }

    /// The arc, by the host's arc tangent.
    pub open spec fn of_arc<A, C, S>(
        start: Position,
        target: Position,
        center: Position,
        clockwise: bool,
        trigonometry: Trigonometry<A, C, S>,
    ) -> ArcParams where
        A: Fn(Double, Double) -> Double,
        C: Fn(Double) -> Double,
        S: Fn(Double) -> Double,
     {
        let plane = plane_of(start, target, center);
        let from = spoke(start, center, plane);
        let to = spoke(target, center, plane);
        ArcParams::between(
            start,
            target,
            center,
            clockwise,
            trigonometry.angle_of(from.1, from.0),
            trigonometry.angle_of(to.1, to.0),
        )
    }

    /// The arc whose ends lie at the given angles, as seen from the center in its
    /// plane. An arc that ends where it starts is a full circle.
    pub fn from_angles(
        start: Position,
        target: Position,
        center: Position,
        clockwise: bool,
        angle0: Double,
        angle1: Double,
    ) -> (params: ArcParams)
        ensures
            params == ArcParams::between(start, target, center, clockwise, angle0, angle1),
    {
        let plane = detect_plane(start, target, center);
        let (cu, cv) = in_plane(center, plane);
        let radius = distance_to_center(start, center, plane);
        let small = Double::from_integer(1) / Double::from_integer(1_000_000_000);
        let full_circle = (start.x - target.x).abs().is_below(small) && (start.y
            - target.y).abs().is_below(small) && (start.z - target.z).abs().is_below(small);
        let turn = Double::tau();
        let zero = Double::zeroed();
        let sweep = if full_circle {
            if clockwise {
                turn.negated()
            } else {
                turn
            }
        } else if clockwise {
            let mut d = angle0 - angle1;
            if d.is_at_most(zero) {
                d = d + turn;
            }
            d.negated()
        } else {
            let mut d = angle1 - angle0;
            if d.is_at_most(zero) {
                d = d + turn;
            }
            d
        };
        ArcParams {
            plane,
            center_uv: (cu, cv),
            radius,
            angle0,
            sweep,
            linear0: linear_coord(start, plane),
            linear1: linear_coord(target, plane),
        }
    }

    /// The arc from `start` to `target` around `center`. An arc that ends where it
    /// starts is a full circle.
    pub fn new<A, C, S>(
        start: Position,
        target: Position,
        center: Position,
        clockwise: bool,
        trigonometry: &Trigonometry<A, C, S>,
    ) -> (params: ArcParams) where
        A: Fn(Double, Double) -> Double,
        C: Fn(Double) -> Double,
        S: Fn(Double) -> Double,

        requires
            trigonometry.functional(),
        ensures
            params == ArcParams::of_arc(start, target, center, clockwise, *trigonometry),
    {
        let plane = detect_plane(start, target, center);
        let (cu, cv) = in_plane(center, plane);
        let (u0, v0) = in_plane(start, plane);
        let (u1, v1) = in_plane(target, plane);
        let angle0 = trigonometry.angle(v0 - cv, u0 - cu);
        let angle1 = trigonometry.angle(v1 - cv, u1 - cu);
        ArcParams::from_angles(start, target, center, clockwise, angle0, angle1)
    }

    /// The angle at fraction `t` of the way.
    pub open spec fn angle_at(self, t: Double) -> Double {
        self.angle0 + self.sweep * t
    }

    /// The point at fraction `t` of the way, from the cosine and sine of the angle
    /// there.
    pub open spec fn point(self, t: Double, cos: Double, sin: Double) -> Position {
        placed(
            self.center_uv.0 + self.radius * cos,
            self.center_uv.1 + self.radius * sin,
            self.linear0 + (self.linear1 - self.linear0) * t,
            self.plane,
        )
    }

    /// The point at fraction `t` of the way, by the host's functions.
    pub open spec fn point_along<A, C, S>(
        self,
        t: Double,
        trigonometry: Trigonometry<A, C, S>,
    ) -> Position where
        A: Fn(Double, Double) -> Double,
        C: Fn(Double) -> Double,
        S: Fn(Double) -> Double,
     {
        let angle = self.angle_at(t);
        self.point(t, trigonometry.cosine(angle), trigonometry.sine(angle))
    }

    /// The point at fraction `t` of the way, from the cosine and sine of the angle
    /// there.
    pub fn point_from(&self, t: Double, cos: Double, sin: Double) -> (p: Position)
        ensures
            p == self.point(t, cos, sin),
    {
        let u = self.center_uv.0 + self.radius * cos;
        let v = self.center_uv.1 + self.radius * sin;
        let linear = self.linear0 + (self.linear1 - self.linear0) * t;
        from_plane(u, v, linear, self.plane)
    }

    /// The point at fraction `t` of the way: 0 at the start, 1 at the end.
    pub fn point_at<A, C, S>(&self, t: Double, trigonometry: &Trigonometry<A, C, S>) -> (p:
        Position) where
        A: Fn(Double, Double) -> Double,
        C: Fn(Double) -> Double,
        S: Fn(Double) -> Double,

        requires
            trigonometry.functional(),
        ensures
            p == self.point_along(t, *trigonometry),
            p == self.point(
                t,
                trigonometry.cosine(self.angle0 + self.sweep * t),
                trigonometry.sine(self.angle0 + self.sweep * t),
            ),
    {
        let angle = self.angle0 + self.sweep * t;
        let cos = trigonometry.cosine_at(angle);
        let sin = trigonometry.sine_at(angle);
        self.point_from(t, cos, sin)
    }

    /// The length of the arc in its plane.
    pub open spec fn arc_length(self) -> Double {
        self.radius * self.sweep.size()
    }

    /// The length of the arc in millimeters. What the axis off the plane adds to
    /// it is left out.
    pub fn length(&self) -> (length: Double)
        ensures
            length == self.arc_length(),
    {
        self.radius * self.sweep.abs()
    }

    pub fn radius(&self) -> (radius: Double)
        ensures
            radius == self.radius,
    {
        self.radius
    }

    pub fn sweep(&self) -> (sweep: Double)
        ensures
            sweep == self.sweep,
    {
        self.sweep
    }
}

/// The longest chord that leaves its arc by no more than `tolerance`. Where the
/// tolerance is not positive, or not less than the diameter, the radius; where
/// the radius is not positive, any length.
pub open spec fn chord(radius: Double, tolerance: Double) -> Double {
    let two = Double::of(2);
    let zero = Double::nought();
    let arg = tolerance * (two * radius - tolerance);
    if radius.at_most(zero) {
        Double::unbounded()
    } else if tolerance.at_most(zero) || arg.at_most(zero) {
        radius
    } else {
        two * arg.root()
    }
}

fn chord_length(radius: Double, tolerance: Double) -> (length: Double)
    ensures
        length == chord(radius, tolerance),
{
    let two = Double::from_integer(2);
    let zero = Double::zeroed();
    if radius.is_at_most(zero) {
        return Double::infinity();
    }
    let arg = tolerance * (two * radius - tolerance);
    if tolerance.is_at_most(zero) || arg.is_at_most(zero) {
        return radius;
    }
    two * arg.sqrt()
}

/// The longest chord that an arc is cut into.
pub open spec fn longest_chord(params: ArcParams, tolerance: Double) -> Double {
    chord(params.radius, tolerance).greater(speck())
}

/// How many of the longest chords go into an arc.
pub open spec fn chords_in(params: ArcParams, tolerance: Double) -> Double {
    params.arc_length() / longest_chord(params, tolerance)
}

/// How many segments an arc is cut into: as many as it takes for none to be longer than
/// the longest chord, and at least two.
pub open spec fn pieces(params: ArcParams, tolerance: Double) -> usize {
    if params.arc_length().at_most(speck()) || chords_in(params, tolerance).count() < 2 {
        2
    } else {
        chords_in(params, tolerance).count()
    }
}

/// How many segments an arc is cut into so that none leaves it by more than
/// `tolerance`; always at least two.
pub fn segment_count(params: &ArcParams, tolerance: Double) -> (count: usize)
    ensures
        count == pieces(*params, tolerance),
        count >= 2,
{
    let small = Double::from_integer(1) / Double::from_integer(1_000_000_000);
    let arc_length = params.length();
    if arc_length.is_at_most(small) {
        return 2;
    }
    let chord = chord_length(params.radius(), tolerance);
    let count = (arc_length / chord.max(small)).ceil_to_count();
    if count < 2 {
        2
    } else {
        count
    }
}

/// The segments of an arc, one after the other.
pub struct ArcSegments {
    params: ArcParams,
    segments: usize,
    /// How many segments have been handed out.
    done: usize,
    prev: Position,
}

/// The end of the `i`-th of `count` segments; the start of the arc for `i = 0`.
pub open spec fn joint<A, C, S>(
    params: ArcParams,
    start: Position,
    count: nat,
    i: nat,
    trigonometry: Trigonometry<A, C, S>,
) -> Position where
    A: Fn(Double, Double) -> Double,
    C: Fn(Double) -> Double,
    S: Fn(Double) -> Double,
 {
    if i == 0 {
        start
    } else {
        params.point_along(Double::of(i) / Double::of(count), trigonometry)
    }
}

impl ArcSegments {
    /// The arc.
    pub closed spec fn arc(&self) -> ArcParams {
        self.params
    }

    /// How many segments there are in all.
    pub closed spec fn total(&self) -> nat {
        self.segments as nat
    }

    /// How many segments have been handed out.
    pub closed spec fn handed_out(&self) -> nat {
        self.done as nat
    }

    /// Where the next segment starts.
    pub closed spec fn at(&self) -> Position {
        self.prev
    }

    /// No more segments have been handed out than there are.
    pub open spec fn well_formed(&self) -> bool {
        self.handed_out() <= self.total()
    }

    /// The arc from `start` to `target` around `center`, cut so that no segment
    /// leaves it by more than `tolerance`.
    pub fn new<A, C, S>(
        start: Position,
        target: Position,
        center: Position,
        clockwise: bool,
        tolerance: Double,
        trigonometry: &Trigonometry<A, C, S>,
    ) -> (segments: ArcSegments) where
        A: Fn(Double, Double) -> Double,
        C: Fn(Double) -> Double,
        S: Fn(Double) -> Double,

        requires
            trigonometry.functional(),
        ensures
            segments.well_formed(),
            segments.arc() == ArcParams::of_arc(start, target, center, clockwise, *trigonometry),
            segments.total() == pieces(segments.arc(), tolerance),
            segments.handed_out() == 0,
            segments.at() == start,
    {
        let params = ArcParams::new(start, target, center, clockwise, trigonometry);
        let segments = segment_count(&params, tolerance);
        ArcSegments { params, segments, done: 0, prev: start }
    }

    /// The ends of the next segment, if there is one.
    pub fn next<A, C, S>(&mut self, trigonometry: &Trigonometry<A, C, S>) -> (segment: Option<
        (Position, Position),
    >) where
        A: Fn(Double, Double) -> Double,
        C: Fn(Double) -> Double,
        S: Fn(Double) -> Double,

        requires
            old(self).well_formed(),
            trigonometry.functional(),
        ensures
            final(self).well_formed(),
            final(self).arc() == old(self).arc(),
            final(self).total() == old(self).total(),
            segment is None <==> old(self).handed_out() == old(self).total(),
            segment is None ==> {
                &&& final(self).handed_out() == old(self).handed_out()
                &&& final(self).at() == old(self).at()
            },
            segment matches Some((from, to)) ==> {
                &&& final(self).handed_out() == old(self).handed_out() + 1
                &&& from == old(self).at()
                &&& to == final(self).at()
                &&& to == old(self).arc().point_along(
                    Double::of(final(self).handed_out()) / Double::of(old(self).total()),
                    *trigonometry,
                )
            },
    {
        if self.done == self.segments {
            return None;
        }
        self.done = self.done + 1;
        let t = Double::from_integer(self.done as u64) / Double::from_integer(
            self.segments as u64,
        );
        let point = self.params.point_at(t, trigonometry);
        let segment = (self.prev, point);
        self.prev = point;
        Some(segment)
    }
}

} // verus!
