//! `Block`: one straight piece of motion with its speed limits.
use vstd::prelude::*;
use crate::double::Double;
use super::limits::MachineLimits;
use super::limits::least_share;
use super::limits::limits_along;
use super::position::Position;
use super::queue::corner_speed_sqr;
use super::queue::junction_speed_sqr;

verus! {

/// A piece of motion as the queue holds it. The speeds at its ends are settled
/// by the queue's passes; everything else is settled when it is made.
#[derive(Debug, Clone, Copy)]
pub struct Block {
    pub start: Position,
    pub target: Position,
    /// The direction of travel; zero for a move of no length.
    pub unit_vector: [Double; 3],
    /// The length of the move in millimeters.
    pub distance: Double,
    /// The speed that the block is run at where there is room for it, in
    /// millimeters per second. Never exceeded.
    pub nominal_speed: Double,
    /// In millimeters per second squared.
    pub acceleration: Double,
    pub is_rapid: bool,
    /// The square of the speed at the start.
    pub entry_speed_sqr: Double,
    /// What `entry_speed_sqr` may be at most, by the block's own speed and by the
    /// corner at its start.
    pub max_entry_speed_sqr: Double,
    /// The square of the speed at the end.
    pub exit_speed_sqr: Double,
    /// The machine stops at the end, whatever comes behind.
    pub ends_at_rest: bool,
}

/// The distance between two positions.
pub open spec fn distance_between(start: Position, target: Position) -> Double {
    let dx = target.x - start.x;
    let dy = target.y - start.y;
    let dz = target.z - start.z;
    (dx * dx + dy * dy + dz * dz).root()
}

/// The direction from one position to another, zero if they are the same.
pub open spec fn direction_between(start: Position, target: Position) -> [Double; 3] {
    let d = distance_between(start, target);
    if least_share().below(d) {
        [(target.x - start.x) / d, (target.y - start.y) / d, (target.z - start.z) / d]
    } else {
        [Double::nought(), Double::nought(), Double::nought()]
    }
}

impl Block {
    /// The block of a move. Feed rates and the axes' velocity limits are given
    /// per minute and become speeds per second here.
    pub open spec fn of_move(
        start: Position,
        target: Position,
        feed_rate: Double,
        is_rapid: bool,
        limits: MachineLimits<3>,
        prev_unit_vector: Option<[Double; 3]>,
    ) -> Block {
        let unit_vector = direction_between(start, target);
        let (velocity, acceleration) = limits_along(limits.axes@, unit_vector@);
        let minute = Double::of(60);
        let top_speed = velocity / minute;
        let nominal_speed = if is_rapid {
            top_speed
        } else {
            (feed_rate.greater(Double::of(1)) / minute).lesser(top_speed)
        };
        let corner = match prev_unit_vector {
            None => Double::unbounded(),
            Some(prev) => corner_speed_sqr(
                prev@,
                unit_vector@,
                acceleration,
                limits.junction_deviation,
            ),
        };
        Block {
            start,
            target,
            unit_vector,
            distance: distance_between(start, target),
            nominal_speed,
            acceleration,
            is_rapid,
            entry_speed_sqr: Double::nought(),
            max_entry_speed_sqr: (nominal_speed * nominal_speed).lesser(corner),
            exit_speed_sqr: Double::nought(),
            ends_at_rest: false,
        }
    }

    /// The block of a move. `prev_unit_vector` is the direction of the block before
    /// it, `None` where there is none to be continued. A feed rate of less than one
    /// millimeter per minute counts as one.
    pub fn new(
        start: Position,
        target: Position,
        feed_rate: Double,
        is_rapid: bool,
        limits: &MachineLimits<3>,
        prev_unit_vector: Option<[Double; 3]>,
    ) -> (block: Block)
        ensures
            block == Block::of_move(
                start,
                target,
                feed_rate,
                is_rapid,
                *limits,
                prev_unit_vector,
            ),
    {
        let dx = target.x - start.x;
        let dy = target.y - start.y;
        let dz = target.z - start.z;
        let distance = (dx * dx + dy * dy + dz * dz).sqrt();
        let least = Double::from_integer(1) / Double::from_integer(1_000_000_000_000);
        let unit_vector = if least.is_below(distance) {
            [dx / distance, dy / distance, dz / distance]
        } else {
            [Double::zeroed(), Double::zeroed(), Double::zeroed()]
        };
        let (velocity, acceleration) = limits.direction_limits(unit_vector);
        let minute = Double::from_integer(60);
        let top_speed = velocity / minute;
        let nominal_speed = if is_rapid {
            top_speed
        } else {
            (feed_rate.max(Double::from_integer(1)) / minute).min(top_speed)
        };
        let max_junction_speed_sqr = match prev_unit_vector {
            None => Double::infinity(),
            Some(prev) => junction_speed_sqr(
                prev,
                unit_vector,
                acceleration,
                limits.junction_deviation,
            ),
        };
        Block {
            start,
            target,
            unit_vector,
            distance,
            nominal_speed,
            acceleration,
            is_rapid,
            entry_speed_sqr: Double::zeroed(),
            max_entry_speed_sqr: (nominal_speed * nominal_speed).min(max_junction_speed_sqr),
            exit_speed_sqr: Double::zeroed(),
            ends_at_rest: false,
        }
    }

    /// How much the square of the speed can change over the length of the block. Where
    /// that is too short to have a direction, no axis limits the acceleration, and the
    /// speed does not change.
    pub open spec fn speed_change(self) -> Double {
        if self.distance.at_most(least_share()) {
            Double::nought()
        } else {
            (Double::of(2) * self.acceleration) * self.distance
        }
    }

    /// How much the square of the speed can change over the length of the block.
    pub fn speed_change_sqr(&self) -> (change: Double)
        ensures
            change == self.speed_change(),
    {
        let least = Double::from_integer(1) / Double::from_integer(1_000_000_000_000);
        if self.distance.is_at_most(least) {
            Double::zeroed()
        } else {
            Double::from_integer(2) * self.acceleration * self.distance
        }
    }

    pub fn nominal_speed_sqr(&self) -> (square: Double)
        ensures
            square == self.nominal_speed * self.nominal_speed,
    {
        self.nominal_speed * self.nominal_speed
    }
}

} // verus!
