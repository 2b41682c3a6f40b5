//! The planner: moves in, moves with their speeds out.
//!
//! Straight moves become blocks, arcs become many, and a queue of bounded size
//! settles how fast each one is entered and left, looking ahead over all that it
//! holds. Commands of the caller's travel through the queue in their places.
use vstd::prelude::*;
use crate::double::Double;
use crate::planner::arc::ArcParams;
use crate::planner::arc::ArcSegments;
use crate::planner::arc::joint;
use crate::planner::arc::pieces;
pub use crate::planner::block::Block;
pub use crate::planner::limits::AxisLimits;
pub use crate::planner::limits::MachineLimits;
pub use crate::planner::position::Position;
use crate::planner::queue::BlockQueue;
pub use crate::planner::queue::PlannedBlock;
use crate::planner::queue::QueueEntry;
use crate::planner::queue::pushed;
use crate::planner::queue::replanned;
use crate::planner::queue::stopped;
pub use crate::planner::trigonometry::Trigonometry;

pub mod arc;
pub mod arc_laws;
pub mod block;
pub mod corner_laws;
pub mod curve_laws;
pub mod geometry_laws;
pub mod laws;
pub mod limit_laws;
pub mod limits;
pub mod look_ahead_laws;
pub mod path_laws;
pub mod position;
pub mod queue;
pub mod speed_laws;
pub mod trigonometry;

verus! {

/// What a planner holds.
#[verifier::ext_equal]
pub struct Plan<C> {
    /// The queue, the oldest entry first.
    pub entries: Seq<QueueEntry<C>>,
    /// The square of the speed at the end of the block that was taken out last.
    pub carry_over: Double,
    /// The direction of the last block that was added and had one.
    pub last_unit_vector: Option<[Double; 3]>,
}

impl<C> Plan<C> {
    /// Of a machine at rest.
    pub open spec fn empty() -> Plan<C> {
        Plan { entries: Seq::empty(), carry_over: Double::nought(), last_unit_vector: None }
    }

    /// After a straight move, and whether there was room for it.
    pub open spec fn with_move(
        self,
        capacity: usize,
        limits: MachineLimits<3>,
        start: Position,
        target: Position,
        feed_rate: Double,
        is_rapid: bool,
    ) -> (Plan<C>, bool) {
        let block = Block::of_move(
            start,
            target,
            feed_rate,
            is_rapid,
            limits,
            self.last_unit_vector,
        );
        let room = self.entries.len() < capacity;
        (
            Plan {
                entries: if room {
                    pushed(self.entries, self.carry_over, QueueEntry::Block(block))
                } else {
                    self.entries
                },
                carry_over: self.carry_over,
                last_unit_vector: if room && Double::nought().below(block.distance) {
                    Some(block.unit_vector)
                } else {
                    self.last_unit_vector
                },
            },
            room,
        )
    }

    /// After straight moves from point to point, up to the first that finds no
    /// room, and whether there was room for all.
    pub open spec fn with_path(
        self,
        capacity: usize,
        limits: MachineLimits<3>,
        points: Seq<Position>,
        feed_rate: Double,
        is_rapid: bool,
    ) -> (Plan<C>, bool)
        decreases points.len(),
    {
        if points.len() <= 1 {
            (self, true)
        } else {
            let (plan, room) = self.with_path(
                capacity,
                limits,
                points.drop_last(),
                feed_rate,
                is_rapid,
            );
            if room {
                plan.with_move(
                    capacity,
                    limits,
                    points[points.len() - 2],
                    points.last(),
                    feed_rate,
                    is_rapid,
                )
            } else {
                (plan, false)
            }
        }
    }

    /// After a command, and whether there was room for it.
    pub open spec fn with_command(self, capacity: usize, command: C) -> (Plan<C>, bool) {
        let room = self.entries.len() < capacity;
        if room {
            (Plan { entries: self.entries.push(QueueEntry::Command(command)), ..self }, true)
        } else {
            (self, false)
        }
    }

    /// With the newest block made to end at rest.
    pub open spec fn flushed(self) -> Plan<C> {
        Plan { entries: replanned(stopped(self.entries), self.carry_over), ..self }
    }

    /// Without its oldest entry.
    pub open spec fn popped(self) -> Plan<C> {
        Plan {
            entries: self.entries.drop_first(),
            carry_over: match self.entries.first() {
                QueueEntry::Block(block) => block.exit_speed_sqr,
                QueueEntry::Command(_) => self.carry_over,
            },
            ..self
        }
    }
}

/// The corners of an arc cut into segments, its start among them.
pub open spec fn arc_points<A, C, S>(
    start: Position,
    target: Position,
    center: Position,
    clockwise: bool,
    tolerance: Double,
    trigonometry: Trigonometry<A, C, S>,
) -> Seq<Position> where
    A: Fn(Double, Double) -> Double,
    C: Fn(Double) -> Double,
    S: Fn(Double) -> Double,
 {
    let params = ArcParams::of_arc(start, target, center, clockwise, trigonometry);
    let count = pieces(params, tolerance) as nat;
    Seq::new(count + 1, |i: int| joint(params, start, count, i as nat, trigonometry))
}

/// The planner. `C` is the caller's type of commands.
pub struct Planner<const CAPACITY: usize, C: Copy = ()> {
    queue: BlockQueue<CAPACITY, C>,
    limits: MachineLimits<3>,
    /// The direction of the last block that was added and had one. Commands do not
    /// change it: they do not break the path.
    last_unit_vector: Option<[Double; 3]>,
}

impl<const CAPACITY: usize, C: Copy> View for Planner<CAPACITY, C> {
    type V = Plan<C>;

    closed spec fn view(&self) -> Plan<C> {
        Plan {
            entries: self.queue@,
            carry_over: self.queue.carry_over(),
            last_unit_vector: self.last_unit_vector,
        }
    }
}

impl<const CAPACITY: usize, C: Copy> Planner<CAPACITY, C> {
    pub closed spec fn well_formed(&self) -> bool {
        self.queue.well_formed()
    }

    /// A planner never holds more than it has room for.
    pub proof fn law_never_over_capacity(&self)
        requires
            self.well_formed(),
        ensures
            self@.entries.len() <= CAPACITY,
    {
        self.queue.law_never_over_capacity();
    }

    /// What the machine can do.
    pub closed spec fn machine(&self) -> MachineLimits<3> {
        self.limits
    }

    /// A planner for a machine at rest.
    pub fn new(limits: MachineLimits<3>) -> (planner: Self)
        ensures
            planner.well_formed(),
            planner@ == Plan::<C>::empty(),
            planner.machine() == limits,
    {
        Planner { queue: BlockQueue::new(), limits, last_unit_vector: None }
    }

    /// Adds a straight move. `Err` if the queue is full.
    pub fn push_linear(
        &mut self,
        start: Position,
        target: Position,
        feed_rate: Double,
        is_rapid: bool,
    ) -> (r: Result<(), ()>)
        requires
            old(self).well_formed(),
        ensures
            final(self).well_formed(),
            final(self).machine() == old(self).machine(),
            (final(self)@, r is Ok) == old(self)@.with_move(
                CAPACITY,
                old(self).machine(),
                start,
                target,
                feed_rate,
                is_rapid,
            ),
    {
        let block = Block::new(
            start,
            target,
            feed_rate,
            is_rapid,
            &self.limits,
            self.last_unit_vector,
        );
        let pushed = self.queue.push_block(block);
        if pushed.is_ok() && Double::zeroed().is_below(block.distance) {
            self.last_unit_vector = Some(block.unit_vector);
        }
        pushed
    }

    /// Adds an arc, cut into segments. If the queue fills up on the way, the
    /// segments that found room stay, the others are dropped, and the result is
    /// `Err`.
    pub fn push_arc<A, F, S>(
        &mut self,
        start: Position,
        target: Position,
        center: Position,
        clockwise: bool,
        feed_rate: Double,
        is_rapid: bool,
        trigonometry: &Trigonometry<A, F, S>,
    ) -> (r: Result<(), ()>) where
        A: Fn(Double, Double) -> Double,
        F: Fn(Double) -> Double,
        S: Fn(Double) -> Double,

        requires
            old(self).well_formed(),
            trigonometry.functional(),
        ensures
            final(self).well_formed(),
            final(self).machine() == old(self).machine(),
            (final(self)@, r is Ok) == old(self)@.with_path(
                CAPACITY,
                old(self).machine(),
                arc_points(
                    start,
                    target,
                    center,
                    clockwise,
                    old(self).machine().arc_tolerance,
                    *trigonometry,
                ),
                feed_rate,
                is_rapid,
            ),
    {
        let ghost before = self@;
        let ghost machine = self.machine();
        let ghost points = arc_points(
            start,
            target,
            center,
            clockwise,
            machine.arc_tolerance,
            *trigonometry,
        );
        let mut segments = ArcSegments::new(
            start,
            target,
            center,
            clockwise,
            self.limits.arc_tolerance,
            trigonometry,
        );
        loop
            invariant
                before == old(self)@,
                machine == old(self).machine(),
                points == arc_points(
                    start,
                    target,
                    center,
                    clockwise,
                    machine.arc_tolerance,
                    *trigonometry,
                ),
                self.well_formed(),
                self.machine() == machine,
                trigonometry.functional(),
                segments.well_formed(),
                segments.arc() == ArcParams::of_arc(
                    start,
                    target,
                    center,
                    clockwise,
                    *trigonometry,
                ),
                segments.total() == pieces(segments.arc(), machine.arc_tolerance),
                segments.handed_out() <= segments.total(),
                segments.at() == points[segments.handed_out() as int],
                (self@, true) == before.with_path(
                    CAPACITY,
                    machine,
                    points.take(segments.handed_out() as int + 1),
                    feed_rate,
                    is_rapid,
                ),
            decreases segments.total() - segments.handed_out(),
        {
            let ghost k = segments.handed_out() as int;
            match segments.next(trigonometry) {
                None => {
                    proof {
                        assert(points.take(k + 1) == points);
                    }
                    return Ok(());
                },
                Some((from, to)) => {
                    proof {
                        let longer = points.take(k + 2);
                        assert(longer.drop_last() == points.take(k + 1));
                        assert(longer[longer.len() - 2] == from);
                        assert(longer.last() == to);
                    }
                    let pushed = self.push_linear(from, to, feed_rate, is_rapid);
                    if pushed.is_err() {
                        proof {
                            lemma_path_stops(
                                before,
                                CAPACITY,
                                machine,
                                points,
                                feed_rate,
                                is_rapid,
                                k + 2,
                            );
                        }
                        return pushed;
                    }
                },
            }
        }
    }

    /// Adds a command, to come out in its place. `Err` if the queue is full.
    pub fn push_command(&mut self, command: C) -> (r: Result<(), ()>)
        requires
            old(self).well_formed(),
        ensures
            final(self).well_formed(),
            final(self).machine() == old(self).machine(),
            (final(self)@, r is Ok) == old(self)@.with_command(CAPACITY, command),
    {
        self.queue.push_command(command)
    }

    /// Makes the newest block end at rest, also when more motion comes behind it.
    pub fn flush(&mut self)
        requires
            old(self).well_formed(),
        ensures
            final(self).well_formed(),
            final(self).machine() == old(self).machine(),
            final(self)@ == old(self)@.flushed(),
    {
        self.queue.flush();
    }

    /// Takes out the oldest entry, if there is one.
    pub fn pop_ready(&mut self) -> (entry: Option<PlannedBlock<C>>)
        requires
            old(self).well_formed(),
        ensures
            final(self).well_formed(),
            final(self).machine() == old(self).machine(),
            old(self)@.entries.len() == 0 ==> entry is None && final(self)@ == old(self)@,
            old(self)@.entries.len() > 0 ==> {
                &&& final(self)@ == old(self)@.popped()
                &&& entry == Some(old(self)@.entries.first().planned())
            },
    {
        self.queue.pop_ready()
    }

    pub fn is_full(&self) -> (full: bool)
        requires
            self.well_formed(),
        ensures
            full == (self@.entries.len() == CAPACITY),
    {
        self.queue.is_full()
    }

    pub fn len(&self) -> (len: usize)
        ensures
            len == self@.entries.len(),
    {
        self.queue.len()
    }

    pub fn is_empty(&self) -> (empty: bool)
        ensures
            empty == (self@.entries.len() == 0),
    {
        self.queue.is_empty()
    }
}

/// A path that has run out of room stays as it is.
proof fn lemma_path_stops<C>(
    plan: Plan<C>,
    capacity: usize,
    limits: MachineLimits<3>,
    points: Seq<Position>,
    feed_rate: Double,
    is_rapid: bool,
    k: int,
)
    requires
        0 <= k <= points.len(),
        !plan.with_path(capacity, limits, points.take(k), feed_rate, is_rapid).1,
    ensures
        plan.with_path(capacity, limits, points, feed_rate, is_rapid) == plan.with_path(
            capacity,
            limits,
            points.take(k),
            feed_rate,
            is_rapid,
        ),
    decreases points.len() - k,
{
    if k < points.len() {
        assert(points.take(k + 1).drop_last() == points.take(k));
        lemma_path_stops(plan, capacity, limits, points, feed_rate, is_rapid, k + 1);
    } else {
        assert(points.take(k) == points);
    }
}

} // verus!
