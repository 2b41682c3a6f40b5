//! What holds of every arc that a line asks for.
use vstd::prelude::*;
use vstd::arithmetic::power2::pow2;
use crate::double::Double;
use crate::order::law_product_commutes;
use crate::order::law_product_of_opposites;
use crate::order::law_sum_commutes;
use crate::rounding::magnitude_units;
use super::motion::ArcError;
use super::motion::arc_center;
use super::motion::center_side;
use super::motion::in_plane;
use super::motion::off_plane;
use super::state::Plane;
use super::state::Position;

verus! {

/// The center of an arc has the coordinate of the start on the axis off the plane.
pub proof fn law_center_lies_in_the_plane_of_the_start(
    plane: Plane,
    start: Position,
    end: Position,
    ijk: Option<(Double, Double, Double)>,
    r: Option<Double>,
    clockwise: bool,
)
    ensures
        arc_center(plane, start, end, ijk, r, clockwise) matches Ok(center) ==> off_plane(
            plane,
            center,
        ) == off_plane(plane, start),
{
    reveal(arc_center);
}

/// Where a center offset is given, neither the radius, the end nor the direction
/// has a say in the center, and there is always an arc.
pub proof fn law_center_offset_wins(
    plane: Plane,
    start: Position,
    end: Position,
    ijk: (Double, Double, Double),
    r: Option<Double>,
    clockwise: bool,
    other_end: Position,
    other_r: Option<Double>,
    other_clockwise: bool,
)
    ensures
        arc_center(plane, start, end, Some(ijk), r, clockwise) is Ok,
        arc_center(plane, start, end, Some(ijk), r, clockwise) == arc_center(
            plane,
            start,
            other_end,
            Some(ijk),
            other_r,
            other_clockwise,
        ),
{
    reveal(arc_center);
}

/// An arc needs a center offset or a radius, and nothing but both missing is
/// reported as missing.
pub proof fn law_missing_geometry_means_that_nothing_is_given(
    plane: Plane,
    start: Position,
    end: Position,
    ijk: Option<(Double, Double, Double)>,
    r: Option<Double>,
    clockwise: bool,
)
    ensures
        arc_center(plane, start, end, ijk, r, clockwise) == Err::<Position, ArcError>(
            ArcError::MissingGeometry,
        ) <==> ijk is None && r is None,
{
    reveal(arc_center);
}

/// A negative radius asks for the other of the two arcs: its center is the one that
/// the positive radius has in the other direction.
pub proof fn law_negative_radius_is_the_other_arc(
    plane: Plane,
    start: Position,
    end: Position,
    r: Double,
    clockwise: bool,
)
    requires
        !r.nan(),
        !r.zero(),
    ensures
        arc_center(plane, start, end, None, Some(r.opposite()), !clockwise) == arc_center(
            plane,
            start,
            end,
            None,
            Some(r),
            clockwise,
        ),
{
    reveal(arc_center);
    let one = Double::of(1);
    law_product_of_opposites(r, r);
    law_product_of_opposites(one, one);
    law_product_commutes(one, one.opposite());
    assert(center_side(r.opposite(), !clockwise) == center_side(r, clockwise));
}

// ---- the same arc backwards ----

/// The same value, or none on both sides.
pub open spec fn alike(a: Double, b: Double) -> bool {
    a.same(b) || (a.nan() && b.nan())
}

/// One is minus the other; zeros and what is not a number count as such whatever their
/// signs are.
spec fn mirrored(a: Double, b: Double) -> bool {
    a == b.opposite() || (a.zero() && b.zero()) || (a.nan() && b.nan())
}

proof fn lemma_difference_mirrored(a: Double, b: Double)
    ensures
        mirrored(a - b, b - a),
{
    reveal(crate::double::sum);
}

proof fn lemma_square_of_mirrored(a: Double, b: Double)
    requires
        mirrored(a, b),
    ensures
        a * a == b * b,
{
    if a == b.opposite() {
        law_product_of_opposites(b, b);
    } else {
        reveal(crate::double::product);
    }
}

proof fn lemma_quotient_mirrored(a: Double, b: Double, d: Double)
    requires
        mirrored(a, b),
    ensures
        mirrored(a / d, b / d),
{
    reveal(crate::double::ratio);
    crate::double::lemma_units_zero(0);
    if a.zero() && b.zero() && d.finite() && !d.zero() {
        crate::double::lemma_units_zero(d.magnitude());
        let n = magnitude_units(d.magnitude());
        assert(0 * pow2(1074) == 0);
        crate::double::lemma_round_zero(n);
    }
}

proof fn lemma_product_mirrored(a: Double, b: Double, c: Double)
    requires
        mirrored(a, b),
    ensures
        mirrored(a * c, b * c),
{
    reveal(crate::double::product);
    if a.zero() && b.zero() && c.finite() {
        crate::order::law_zero_times_anything(a, c);
        crate::order::law_zero_times_anything(b, c);
    }
}

/// Two mirrored factors give one product.
proof fn lemma_mirrored_product(a: Double, b: Double, c: Double, d: Double)
    requires
        mirrored(a, b),
        mirrored(c, d),
    ensures
        a * c == b * d || ((a * c).zero() && (b * d).zero()) || ((a * c).nan() && (b * d).nan()),
{
    if a == b.opposite() && c == d.opposite() {
        law_product_of_opposites(b, d);
    } else {
        lemma_product_mirrored(a, b, c);
        law_product_commutes(b, c);
        law_product_commutes(b, d);
        lemma_product_mirrored(c, d, b);
        reveal(crate::double::product);
        if a.zero() && b.zero() {
            if c.finite() && d.finite() {
                crate::order::law_zero_times_anything(a, c);
                crate::order::law_zero_times_anything(b, d);
            }
        } else if c.zero() && d.zero() {
            if a.finite() && b.finite() {
                crate::order::law_zero_times_anything(c, a);
                crate::order::law_zero_times_anything(d, b);
                law_product_commutes(a, c);
                law_product_commutes(b, d);
            }
        }
    }
}

proof fn lemma_sum_alike(m: Double, a: Double, b: Double)
    requires
        a == b || (a.zero() && b.zero()) || (a.nan() && b.nan()),
    ensures
        alike(m + a, m + b),
{
    reveal(crate::double::sum);
    crate::double::lemma_units_zero(0);
}

/// On the way back the center lies on the other side.
proof fn lemma_side_of_the_way_back(r: Double, clockwise: bool)
    ensures
        center_side(r, !clockwise) == center_side(r, clockwise).opposite(),
{
    reveal(crate::double::product);
    crate::order::law_one_is_one();
}

/// To walk an arc backwards, from its end to its start and in the other direction, keeps
/// its center in the plane.
pub proof fn law_way_back_has_the_same_center(
    plane: Plane,
    start: Position,
    end: Position,
    r: Double,
    clockwise: bool,
)
    ensures
        match (
            arc_center(plane, start, end, None, Some(r), clockwise),
            arc_center(plane, end, start, None, Some(r), !clockwise),
        ) {
            (Ok(center), Ok(back)) => {
                &&& alike(in_plane(plane, back).0, in_plane(plane, center).0)
                &&& alike(in_plane(plane, back).1, in_plane(plane, center).1)
            },
            (Err(a), Err(b)) => a == b,
            _ => false,
        },
{
    reveal(arc_center);
    let a = in_plane(plane, start);
    let b = in_plane(plane, end);
    let (dx, dy) = (b.0 - a.0, b.1 - a.1);
    let (ex, ey) = (a.0 - b.0, a.1 - b.1);
    lemma_difference_mirrored(b.0, a.0);
    lemma_difference_mirrored(b.1, a.1);
    lemma_square_of_mirrored(dx, ex);
    lemma_square_of_mirrored(dy, ey);
    law_sum_commutes(a.0, b.0);
    law_sum_commutes(a.1, b.1);
    let d2 = dx * dx + dy * dy;
    let d = d2.root();
    let h = (r * r - d2 / Double::of(4)).root();
    let side = center_side(r, clockwise);
    lemma_side_of_the_way_back(r, clockwise);
    let k = side * h;
    let l = center_side(r, !clockwise) * h;
    assert(mirrored(center_side(r, !clockwise), side));
    lemma_product_mirrored(center_side(r, !clockwise), side, h);
    assert(mirrored(ey.opposite(), dy.opposite()));
    lemma_quotient_mirrored(ey.opposite(), dy.opposite(), d);
    lemma_quotient_mirrored(ex, dx, d);
    lemma_mirrored_product(l, k, ey.opposite() / d, dy.opposite() / d);
    lemma_mirrored_product(l, k, ex / d, dx / d);
    let two = Double::of(2);
    lemma_sum_alike((a.0 + b.0) / two, l * (ey.opposite() / d), k * (dy.opposite() / d));
    lemma_sum_alike((a.1 + b.1) / two, l * (ex / d), k * (dx / d));
}

} // verus!
