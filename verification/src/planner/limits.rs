//! `MachineLimits`: what the machine can do, as the host knows it.
use vstd::prelude::*;
use crate::double::Double;

verus! {

/// What one axis can do.
#[derive(Debug, Clone, Copy, PartialEq)]
pub struct AxisLimits {
    /// In millimeters per minute, as feed rates are given.
    pub max_velocity: Double,
    /// In millimeters per second squared.
    pub max_acceleration: Double,
}

/// What the machine can do.
#[derive(Debug, Clone, Copy)]
pub struct MachineLimits<const N: usize> {
    pub axes: [AxisLimits; N],
    /// How far the tool may leave an exact corner, in millimeters. Zero takes
    /// every corner as a full stop.
    pub junction_deviation: Double,
    /// How far a chord may leave its arc, in millimeters.
    pub arc_tolerance: Double,
}

/// The least share of a direction that counts.
pub open spec fn least_share() -> Double {
    Double::of(1) / Double::of(1_000_000_000_000)
}

/// The limits of the first axes for a move in a direction: each axis allows its
/// own limit divided by its share of the direction, and the tightest one counts.
/// An axis that has no share in the direction does not count.
pub open spec fn limits_along(
    axes: Seq<AxisLimits>,
    direction: Seq<Double>,
) -> (Double, Double)
    decreases axes.len(),
{
    if axes.len() == 0 {
        (Double::unbounded(), Double::unbounded())
    } else {
        let (velocity, acceleration) = limits_along(axes.drop_last(), direction);
        let share = direction[axes.len() - 1].size();
        if least_share().below(share) {
            (
                velocity.lesser(axes.last().max_velocity / share),
                acceleration.lesser(axes.last().max_acceleration / share),
            )
        } else {
            (velocity, acceleration)
        }
    }
}

impl<const N: usize> MachineLimits<N> {
    /// The velocity and acceleration that a move in the direction of a unit vector
    /// can have, in the units of the axes' limits.
    pub fn direction_limits(&self, unit_vector: [Double; N]) -> (limits: (Double, Double))
        ensures
            limits == limits_along(self.axes@, unit_vector@),
    {
        let mut max_velocity = Double::infinity();
        let mut max_acceleration = Double::infinity();
        let least = Double::from_integer(1) / Double::from_integer(1_000_000_000_000);
        let mut i: usize = 0;
        while i < N
            invariant
                i <= N,
                least == least_share(),
                (max_velocity, max_acceleration) == limits_along(
                    self.axes@.take(i as int),
                    unit_vector@,
                ),
            decreases N - i,
        {
            let axis = self.axes[i];
            let share = unit_vector[i].abs();
            if least.is_below(share) {
                max_velocity = max_velocity.min(axis.max_velocity / share);
                max_acceleration = max_acceleration.min(axis.max_acceleration / share);
            }
            proof {
                assert(self.axes@.take(i + 1).drop_last() == self.axes@.take(i as int));
            }
            i = i + 1;
        }
        proof {
            assert(self.axes@.take(i as int) == self.axes@);
        }
        (max_velocity, max_acceleration)
    }
}

} // verus!
