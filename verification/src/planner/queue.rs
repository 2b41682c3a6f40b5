//! `BlockQueue`: the blocks that are still to be run, with the look-ahead that
//! settles their speeds.
//!
//! # Corners
//!
//! At a corner, let `theta` be the angle between the way back along the previous
//! block and the way forward along the current one: half a turn when the path
//! goes straight on, zero when it reverses. Then `cos(theta)` is minus the dot
//! product of the two directions, `sin(theta / 2)` is `sqrt((1 - cos(theta)) / 2)`,
//! and the square of the speed at the corner is
//! `acceleration * deviation * sin(theta / 2) / (1 - sin(theta / 2))`: without
//! bound when the path goes straight on, zero when it reverses.
//!
//! # Passes
//!
//! Whenever a block is added, a pass from the newest block to the oldest finds
//! how fast each one may be entered if the machine is to be able to stop at the
//! end of the newest. A pass from the oldest to the newest then finds how fast
//! each one can be entered and left, accelerating from the speed of what was
//! taken out last. Where a block was made to end at rest both passes keep it so, as
//! long as it is in the queue.
use vstd::prelude::*;
use crate::double::Double;
use super::block::Block;
use super::position::Position;

verus! {

/// A value that is close enough to one.
pub open spec fn nearly_one() -> Double {
    Double::of(999_999) / Double::of(1_000_000)
}

/// The square of the speed at the corner between two directions.
pub open spec fn corner_speed_sqr(
    prev_unit: Seq<Double>,
    curr_unit: Seq<Double>,
    accel: Double,
    junction_deviation: Double,
) -> Double {
    let one = Double::of(1);
    let dot = prev_unit[0] * curr_unit[0] + prev_unit[1] * curr_unit[1] + prev_unit[2]
        * curr_unit[2];
    let cos_theta = dot.opposite();
    let half = Double::of(1) / Double::of(2);
    let sin_half = (half * (one - cos_theta)).greater(Double::nought()).root();
    if cos_theta.below(nearly_one().opposite()) {
        Double::unbounded()
    } else {
        ((accel * junction_deviation) * sin_half) / (one - sin_half)
    }
}

/// The square of the speed at the corner between two blocks, by the acceleration
/// of the block that begins there.
pub fn junction_speed_sqr(
    prev_unit: [Double; 3],
    curr_unit: [Double; 3],
    accel: Double,
    junction_deviation: Double,
) -> (square: Double)
    ensures
        square == corner_speed_sqr(prev_unit@, curr_unit@, accel, junction_deviation),
{
    let one = Double::from_integer(1);
    let nearly = Double::from_integer(999_999) / Double::from_integer(1_000_000);
    let dot = prev_unit[0] * curr_unit[0] + prev_unit[1] * curr_unit[1] + prev_unit[2]
        * curr_unit[2];
    let cos_theta = dot.negated();
    // straight on: the divisor below would be close to zero
    if cos_theta.is_below(nearly.negated()) {
        return Double::infinity();
    }
    let half = Double::from_integer(1) / Double::from_integer(2);
    let sin_half = (half * (one - cos_theta)).max(Double::zeroed()).sqrt();
    accel * junction_deviation * sin_half / (one - sin_half)
}

/// What the queue holds: a block, or a command of the caller's that is carried
/// through in its place.
#[derive(Debug, Clone, Copy)]
pub enum QueueEntry<C> {
    Block(Block),
    Command(C),
}

/// What comes out of the queue, its speeds settled.
#[derive(Debug, Clone, Copy)]
pub enum PlannedBlock<C> {
    Motion {
        start: Position,
        target: Position,
        distance: Double,
        /// Millimeters per second.
        entry_speed: Double,
        /// Millimeters per second.
        nominal_speed: Double,
        /// Millimeters per second.
        exit_speed: Double,
        /// Millimeters per second squared.
        acceleration: Double,
        is_rapid: bool,
    },
    Command(C),
}

impl Block {
    /// The block as it comes out of the queue.
    pub open spec fn planned<C>(self) -> PlannedBlock<C> {
        PlannedBlock::Motion {
            start: self.start,
            target: self.target,
            distance: self.distance,
            entry_speed: self.entry_speed_sqr.root(),
            nominal_speed: self.nominal_speed,
            exit_speed: self.exit_speed_sqr.root(),
            acceleration: self.acceleration,
            is_rapid: self.is_rapid,
        }
    }
}

impl<C> QueueEntry<C> {
    /// The entry as it comes out of the queue.
    pub open spec fn planned(self) -> PlannedBlock<C> {
        match self {
            QueueEntry::Block(block) => block.planned(),
            QueueEntry::Command(command) => PlannedBlock::Command(command),
        }
    }
}

/// Some entry is a block.
pub open spec fn has_block<C>(entries: Seq<QueueEntry<C>>) -> bool {
    exists|i: int| 0 <= i < entries.len() && #[trigger] entries[i] is Block
}

/// How fast, squared, the first block of these may be entered if the machine is
/// to be able to stop at the end of the last one, and wherever a block ends at rest;
/// zero if there is no block.
pub open spec fn entry_ceiling<C>(entries: Seq<QueueEntry<C>>) -> Double
    decreases entries.len(),
{
    if entries.len() == 0 {
        Double::nought()
    } else {
        match entries.first() {
            QueueEntry::Block(block) => {
                let exit = if block.ends_at_rest {
                    Double::nought()
                } else {
                    entry_ceiling(entries.drop_first())
                };
                block.max_entry_speed_sqr.lesser(exit + block.speed_change())
            },
            QueueEntry::Command(_) => entry_ceiling(entries.drop_first()),
        }
    }
}

/// How fast, squared, the first of these entries, a block, may be left.
pub open spec fn exit_ceiling<C>(entries: Seq<QueueEntry<C>>, block: Block) -> Double {
    if block.ends_at_rest {
        Double::nought()
    } else {
        entry_ceiling(entries.drop_first())
    }
}

/// The first of these entries, a block, with its speeds settled. It is entered
/// no faster than `incoming`, and left no faster than its length, its own speed
/// and the next block allow; or at rest, if that is how it is to end.
pub open spec fn settled<C>(
    entries: Seq<QueueEntry<C>>,
    block: Block,
    incoming: Double,
) -> Block {
    let rest = entries.drop_first();
    let entry = entry_ceiling(entries).lesser(incoming);
    let reached = (entry + block.speed_change()).lesser(block.nominal_speed * block.nominal_speed);
    let exit = if block.ends_at_rest {
        Double::nought()
    } else if has_block(rest) {
        reached.lesser(entry_ceiling(rest))
    } else {
        reached
    };
    Block { entry_speed_sqr: entry, exit_speed_sqr: exit, ..block }
}

/// The entries with their speeds settled.
pub open spec fn replanned<C>(entries: Seq<QueueEntry<C>>, incoming: Double) -> Seq<QueueEntry<C>>
    decreases entries.len(),
{
    if entries.len() == 0 {
        entries
    } else {
        let rest = entries.drop_first();
        match entries.first() {
            QueueEntry::Block(block) => {
                let done = settled(entries, block, incoming);
                seq![QueueEntry::Block(done)] + replanned(rest, done.exit_speed_sqr)
            },
            QueueEntry::Command(_) => seq![entries.first()] + replanned(rest, incoming),
        }
    }
}

/// The entries with the newest block made to end at rest.
pub open spec fn stopped<C>(entries: Seq<QueueEntry<C>>) -> Seq<QueueEntry<C>>
    decreases entries.len(),
{
    if entries.len() == 0 {
        entries
    } else {
        match entries.last() {
            QueueEntry::Block(block) => entries.drop_last().push(
                QueueEntry::Block(Block { ends_at_rest: true, ..block }),
            ),
            QueueEntry::Command(_) => stopped(entries.drop_last()).push(entries.last()),
        }
    }
}

/// A list of at most `CAPACITY` indices.
pub struct Indices<const CAPACITY: usize> {
    buf: [usize; CAPACITY],
    len: usize,
}

impl<const CAPACITY: usize> View for Indices<CAPACITY> {
    type V = Seq<usize>;

    closed spec fn view(&self) -> Seq<usize> {
        self.buf@.take(self.len as int)
    }
}

impl<const CAPACITY: usize> Indices<CAPACITY> {
    /// The list fits its buffer.
    pub closed spec fn well_formed(&self) -> bool {
        self.len <= CAPACITY
    }

    fn new() -> (indices: Self)
        ensures
            indices.well_formed(),
            indices@ == Seq::<usize>::empty(),
    {
        Indices { buf: [0usize; CAPACITY], len: 0 }
    }

    fn push(&mut self, index: usize)
        requires
            old(self).well_formed(),
            old(self)@.len() < CAPACITY,
        ensures
            final(self).well_formed(),
            final(self)@ == old(self)@.push(index),
    {
        self.buf[self.len] = index;
        self.len = self.len + 1;
    }

    pub fn as_slice(&self) -> (slice: &[usize])
        requires
            self.well_formed(),
        ensures
            slice@ == self@,
    {
        vstd::slice::slice_subrange(&self.buf, 0, self.len)
    }
}

/// A queue of at most `CAPACITY` entries. `C` is the caller's type of commands.
pub struct BlockQueue<const CAPACITY: usize, C: Copy = ()> {
    entries: [Option<QueueEntry<C>>; CAPACITY],
    /// The slot of the oldest entry.
    tail: usize,
    /// How many slots are taken.
    count: usize,
    /// The square of the speed at the end of the block that was taken out last.
    carry_over_exit_speed_sqr: Double,
}

/// The slot of the `logical`-th entry of a ring.
pub open spec fn slot(tail: int, logical: int, capacity: int) -> int {
    if tail + logical < capacity {
        tail + logical
    } else {
        tail + logical - capacity
    }
}

impl<const CAPACITY: usize, C: Copy> View for BlockQueue<CAPACITY, C> {
    type V = Seq<QueueEntry<C>>;

    /// The entries, the oldest first.
    closed spec fn view(&self) -> Seq<QueueEntry<C>> {
        Seq::new(
            self.count as nat,
            |i: int| self.entries@[slot(self.tail as int, i, CAPACITY as int)]->0,
        )
    }
}

impl<const CAPACITY: usize, C: Copy> BlockQueue<CAPACITY, C> {
    /// The taken slots, and no others, follow the oldest one.
    pub closed spec fn well_formed(&self) -> bool {
        &&& self.count <= CAPACITY
        &&& self.tail < CAPACITY || self.tail == 0
        &&& forall|i: int|
            #![trigger slot(self.tail as int, i, CAPACITY as int)]
            0 <= i < self.count ==> self.entries@[slot(
                self.tail as int,
                i,
                CAPACITY as int,
            )] is Some
    }

    /// A queue never holds more than it has room for.
    pub proof fn law_never_over_capacity(&self)
        requires
            self.well_formed(),
        ensures
            self@.len() <= CAPACITY,
    {
    }

    /// The square of the speed that the oldest block is entered at, at most.
    pub closed spec fn carry_over(&self) -> Double {
        self.carry_over_exit_speed_sqr
    }

    /// An empty queue of a machine at rest.
    pub fn new() -> (queue: Self)
        ensures
            queue.well_formed(),
            queue@ == Seq::<QueueEntry<C>>::empty(),
            queue.carry_over() == Double::nought(),
    {
        BlockQueue {
            entries: [None; CAPACITY],
            tail: 0,
            count: 0,
            carry_over_exit_speed_sqr: Double::zeroed(),
        }
    }

    pub fn is_full(&self) -> (full: bool)
        requires
            self.well_formed(),
        ensures
            full == (self@.len() == CAPACITY),
    {
        self.count == CAPACITY
    }

    pub fn len(&self) -> (len: usize)
        ensures
            len == self@.len(),
    {
        self.count
    }

    pub fn is_empty(&self) -> (empty: bool)
        ensures
            empty == (self@.len() == 0),
    {
        self.count == 0
    }

    fn physical_index(&self, logical: usize) -> (index: usize)
        requires
            self.well_formed(),
            logical < CAPACITY,
        ensures
            index == slot(self.tail as int, logical as int, CAPACITY as int),
            index < CAPACITY,
    {
        if logical < CAPACITY - self.tail {
            self.tail + logical
        } else {
            logical - (CAPACITY - self.tail)
        }
    }

    fn entry_at(&self, logical: usize) -> (entry: QueueEntry<C>)
        requires
            self.well_formed(),
            logical < self@.len(),
        ensures
            entry == self@[logical as int],
    {
        let index = self.physical_index(logical);
        assert(self.entries@[index as int] is Some);
        self.entries[index].unwrap()
    }

    fn set_entry(&mut self, logical: usize, entry: QueueEntry<C>)
        requires
            old(self).well_formed(),
            logical < old(self)@.len(),
        ensures
            final(self).well_formed(),
            final(self)@ == old(self)@.update(logical as int, entry),
            final(self).carry_over() == old(self).carry_over(),
    {
        let index = self.physical_index(logical);
        self.entries[index] = Some(entry);
    }
}

impl<const CAPACITY: usize, C: Copy> Default for BlockQueue<CAPACITY, C> {
    fn default() -> (queue: Self)
        ensures
            queue.well_formed(),
            queue@ == Seq::<QueueEntry<C>>::empty(),
            queue.carry_over() == Double::nought(),
    {
        BlockQueue::new()
    }
}

// ---- the passes, entry by entry ----

/// No entry from `p` up to `q` is a block.
spec fn only_commands<C>(entries: Seq<QueueEntry<C>>, p: int, q: int) -> bool {
    forall|i: int| p <= i < q ==> #[trigger] entries[i] is Command
}

/// An entry after the pass from the newest to the oldest.
spec fn capped<C>(entries: Seq<QueueEntry<C>>, i: int) -> QueueEntry<C> {
    match entries[i] {
        QueueEntry::Block(block) => QueueEntry::Block(
            Block { entry_speed_sqr: entry_ceiling(entries.skip(i)), ..block },
        ),
        QueueEntry::Command(_) => entries[i],
    }
}

/// The square of the speed at which the `i`-th entry is come to.
spec fn incoming_at<C>(
    entries: Seq<QueueEntry<C>>,
    incoming: Double,
    i: int,
) -> Double
    decreases i,
{
    if i <= 0 {
        incoming
    } else {
        let before = incoming_at(entries, incoming, i - 1);
        match entries[i - 1] {
            QueueEntry::Block(block) => settled(entries.skip(i - 1), block, before).exit_speed_sqr,
            QueueEntry::Command(_) => before,
        }
    }
}

/// An entry after both passes.
spec fn planned_entry<C>(
    entries: Seq<QueueEntry<C>>,
    incoming: Double,
    i: int,
) -> QueueEntry<C> {
    match entries[i] {
        QueueEntry::Block(block) => QueueEntry::Block(
            settled(entries.skip(i), block, incoming_at(entries, incoming, i)),
        ),
        QueueEntry::Command(_) => entries[i],
    }
}

proof fn lemma_incoming_rest<C>(
    entries: Seq<QueueEntry<C>>,
    incoming: Double,
    i: int,
)
    requires
        0 <= i < entries.len(),
    ensures
        incoming_at(entries, incoming, i + 1) == incoming_at(
            entries.drop_first(),
            incoming_at(entries, incoming, 1),
            i,
        ),
    decreases i,
{
    if i > 0 {
        lemma_incoming_rest(entries, incoming, i - 1);
        assert(entries.drop_first().skip(i - 1) == entries.skip(i));
        assert(entries.drop_first()[i - 1] == entries[i]);
    }
}

proof fn lemma_replanned<C>(
    entries: Seq<QueueEntry<C>>,
    incoming: Double,
)
    ensures
        replanned(entries, incoming).len() == entries.len(),
        forall|i: int|
            0 <= i < entries.len() ==> #[trigger] replanned(entries, incoming)[i]
                == planned_entry(entries, incoming, i),
    decreases entries.len(),
{
    if entries.len() > 0 {
        let rest = entries.drop_first();
        let after = incoming_at(entries, incoming, 1);
        assert(entries.skip(0) == entries);
        assert(incoming_at(entries, incoming, 0) == incoming);
        lemma_replanned(rest, after);
        let whole = replanned(entries, incoming);
        assert(whole == seq![planned_entry(entries, incoming, 0)] + replanned(rest, after));
        assert forall|i: int| 0 <= i < entries.len() implies #[trigger] whole[i] == planned_entry(
            entries,
            incoming,
            i,
        ) by {
            if i > 0 {
                lemma_incoming_rest(entries, incoming, i - 1);
                assert(rest.skip(i - 1) == entries.skip(i));
                assert(rest[i - 1] == entries[i]);
                assert(whole[i] == replanned(rest, after)[i - 1]);
            }
        }
    }
}

/// Commands do not take part in the passes.
proof fn lemma_gap<C>(
    entries: Seq<QueueEntry<C>>,
    incoming: Double,
    p: int,
    q: int,
)
    requires
        0 <= p <= q <= entries.len(),
        only_commands(entries, p, q),
    ensures
        entry_ceiling(entries.skip(p)) == entry_ceiling(entries.skip(q)),
        has_block(entries.skip(p)) == has_block(entries.skip(q)),
        incoming_at(entries, incoming, p) == incoming_at(entries, incoming, q),
    decreases q - p,
{
    if p < q {
        lemma_gap(entries, incoming, p + 1, q);
        let here = entries.skip(p);
        assert(here.drop_first() == entries.skip(p + 1));
        assert(here.first() == entries[p]);
        assert(entries[p] is Command);
        if has_block(here) {
            let i = choose|i: int| 0 <= i < here.len() && #[trigger] here[i] is Block;
            assert(entries.skip(p + 1)[i - 1] == here[i]);
        }
        if has_block(entries.skip(p + 1)) {
            let i = choose|i: int|
                0 <= i < entries.skip(p + 1).len() && #[trigger] entries.skip(p + 1)[i] is Block;
            assert(here[i + 1] == entries.skip(p + 1)[i]);
        }
    }
}

/// The places of the blocks, in order and complete.
spec fn block_places<C>(entries: Seq<QueueEntry<C>>, places: Seq<usize>) -> bool {
    &&& forall|k: int|
        0 <= k < places.len() ==> (#[trigger] places[k] as int) < entries.len()
            && entries[places[k] as int] is Block
    &&& forall|a: int, b: int| 0 <= a < b < places.len() ==> places[a] < places[b]
    &&& forall|i: int|
        0 <= i < entries.len() && #[trigger] entries[i] is Block ==> places.contains(i as usize)
}

/// The place of the `k`-th block, or the end.
spec fn frontier<C>(entries: Seq<QueueEntry<C>>, places: Seq<usize>, k: int) -> int {
    if k < places.len() {
        places[k] as int
    } else {
        entries.len() as int
    }
}

/// Between two blocks in a row, before the first and after the last, there are
/// commands only.
proof fn lemma_between<C>(entries: Seq<QueueEntry<C>>, places: Seq<usize>, k: int)
    requires
        block_places(entries, places),
        -1 <= k < places.len(),
        entries.len() <= usize::MAX,
    ensures
        only_commands(
            entries,
            if k < 0 {
                0
            } else {
                places[k] + 1
            },
            frontier(entries, places, k + 1),
        ),
{
    let p: int = if k < 0 {
        0
    } else {
        places[k] + 1
    };
    let q = frontier(entries, places, k + 1);
    assert forall|i: int| p <= i < q implies #[trigger] entries[i] is Command by {
        if entries[i] is Block {
            assert(places.contains(i as usize));
            let j = choose|j: int| 0 <= j < places.len() && places[j] == i as usize;
            if j <= k {
                assert(places[j] <= places[k]);
            } else if j > k + 1 {
                assert(places[k + 1] < places[j]);
            }
        }
    }
}

/// The newest block is the one at the last of the places.
proof fn lemma_stopped<C>(entries: Seq<QueueEntry<C>>, places: Seq<usize>)
    requires
        block_places(entries, places),
        entries.len() <= usize::MAX,
    ensures
        places.len() == 0 ==> stopped(entries) == entries,
        places.len() > 0 ==> stopped(entries) == entries.update(
            places.last() as int,
            QueueEntry::Block(
                Block { ends_at_rest: true, ..entries[places.last() as int]->Block_0 },
            ),
        ),
        block_places(stopped(entries), places),
    decreases entries.len(),
{
    if places.len() == 0 {
        lemma_between(entries, places, -1);
        lemma_stopped_commands(entries);
    } else {
        let i = places.last() as int;
        lemma_between(entries, places, places.len() - 1);
        lemma_stopped_at(entries, i);
        let after = stopped(entries);
        assert forall|k: int| 0 <= k < places.len() implies (#[trigger] places[k] as int)
            < after.len() && after[places[k] as int] is Block by {}
        assert forall|k: int| 0 <= k < after.len() && #[trigger] after[k] is Block implies
            places.contains(k as usize) by {
            assert(entries[k] is Block);
        }
    }
}

/// Without a block nothing is made to end at rest.
pub(crate) proof fn lemma_stopped_commands<C>(entries: Seq<QueueEntry<C>>)
    requires
        forall|i: int| 0 <= i < entries.len() ==> #[trigger] entries[i] is Command,
    ensures
        stopped(entries) == entries,
    decreases entries.len(),
{
    if entries.len() > 0 {
        assert(entries[entries.len() - 1] is Command);
        lemma_stopped_commands(entries.drop_last());
        assert(entries.drop_last().push(entries.last()) == entries);
    }
}

/// Only the newest block is made to end at rest.
pub(crate) proof fn lemma_stopped_at<C>(entries: Seq<QueueEntry<C>>, i: int)
    requires
        0 <= i < entries.len(),
        entries[i] is Block,
        forall|k: int| i < k < entries.len() ==> #[trigger] entries[k] is Command,
    ensures
        stopped(entries) == entries.update(
            i,
            QueueEntry::Block(Block { ends_at_rest: true, ..entries[i]->Block_0 }),
        ),
    decreases entries.len(),
{
    let marked = entries.update(
        i,
        QueueEntry::Block(Block { ends_at_rest: true, ..entries[i]->Block_0 }),
    );
    if i == entries.len() - 1 {
        assert(stopped(entries) == marked);
    } else {
        assert(entries[entries.len() - 1] is Command);
        lemma_stopped_at(entries.drop_last(), i);
        assert(stopped(entries) == marked);
    }
}

impl<const CAPACITY: usize, C: Copy> BlockQueue<CAPACITY, C> {
    /// The places of the blocks in the queue, the oldest first.
    fn block_indices(&self) -> (indices: Indices<CAPACITY>)
        requires
            self.well_formed(),
        ensures
            indices.well_formed(),
            block_places(self@, indices@),
    {
        let mut indices: Indices<CAPACITY> = Indices::new();
        let mut i: usize = 0;
        while i < self.count
            invariant
                self.well_formed(),
                i <= self.count,
                self@.len() == self.count,
                indices.well_formed(),
                indices@.len() <= i,
                block_places(self@.take(i as int), indices@),
            decreases self.count - i,
        {
            let ghost before = indices@;
            let ghost seen = self@.take(i as int);
            if let QueueEntry::Block(_) = self.entry_at(i) {
                indices.push(i);
            }
            proof {
                let now = self@.take(i + 1);
                assert(forall|k: int| 0 <= k < i ==> now[k] == seen[k]);
                assert(now[i as int] == self@[i as int]);
                assert forall|k: int| 0 <= k < indices@.len() implies (#[trigger] indices@[k] as int)
                    < now.len() && now[indices@[k] as int] is Block by {
                    if k < before.len() {
                        assert(indices@[k] == before[k]);
                        assert(seen[before[k] as int] is Block);
                    }
                }
                assert forall|k: int| 0 <= k < now.len() && #[trigger] now[k] is Block implies
                    indices@.contains(k as usize) by {
                    if k < i {
                        assert(seen[k] is Block);
                        assert(before.contains(k as usize));
                        let j = choose|j: int| 0 <= j < before.len() && before[j] == k as usize;
                        assert(indices@[j] == k as usize);
                    } else {
                        assert(indices@[indices@.len() - 1] == k as usize);
                    }
                }
            }
            i = i + 1;
        }
        proof {
            assert(self@.take(i as int) == self@);
        }
        indices
    }

    /// Makes the newest block end at rest, given the places of the blocks.
    fn stop_newest(&mut self, places: &[usize])
        requires
            old(self).well_formed(),
            block_places(old(self)@, places@),
        ensures
            final(self).well_formed(),
            final(self)@ == stopped(old(self)@),
            final(self).carry_over() == old(self).carry_over(),
            block_places(final(self)@, places@),
    {
        proof {
            lemma_stopped(self@, places@);
        }
        if places.len() > 0 {
            let i = places[places.len() - 1];
            if let QueueEntry::Block(mut block) = self.entry_at(i) {
                block.ends_at_rest = true;
                self.set_entry(i, QueueEntry::Block(block));
            }
        }
    }

    /// Runs both passes over the whole queue; first makes the newest block end at
    /// rest, if `force_stop_at_end` says so.
    fn recalculate(&mut self, force_stop_at_end: bool)
        requires
            old(self).well_formed(),
        ensures
            final(self).well_formed(),
            final(self)@ == replanned(
                if force_stop_at_end {
                    stopped(old(self)@)
                } else {
                    old(self)@
                },
                old(self).carry_over(),
            ),
            final(self).carry_over() == old(self).carry_over(),
    {
        let ghost carry = self.carry_over();
        let indices = self.block_indices();
        let places = indices.as_slice();
        if force_stop_at_end {
            self.stop_newest(places);
        }
        let ghost all = self@;

        // from the newest block to the oldest: what must still be able to stop
        let mut exit_speed_sqr = Double::zeroed();
        let mut k: usize = places.len();
        proof {
            assert(all.skip(all.len() as int) == Seq::<QueueEntry<C>>::empty());
        }
        while k > 0
            invariant
                self.well_formed(),
                self.carry_over() == carry,
                self@.len() == all.len(),
                all.len() <= usize::MAX,
                k <= places@.len(),
                block_places(all, places@),
                exit_speed_sqr == entry_ceiling(all.skip(frontier(all, places@, k as int))),
                forall|i: int|
                    0 <= i < all.len() ==> #[trigger] self@[i] == if i >= frontier(
                        all,
                        places@,
                        k as int,
                    ) {
                        capped(all, i)
                    } else {
                        all[i]
                    },
            decreases k,
        {
            let ghost above = frontier(all, places@, k as int);
            k = k - 1;
            let i = places[k];
            proof {
                lemma_between(all, places@, k as int);
                lemma_gap(all, carry, i + 1, above);
                assert(all.skip(i as int).drop_first() == all.skip(i + 1));
                assert(all.skip(i as int).first() == all[i as int]);
                if k + 1 < places@.len() {
                    assert(places@[k as int] < places@[k + 1]);
                }
            }
            if let QueueEntry::Block(mut block) = self.entry_at(i) {
                if block.ends_at_rest {
                    exit_speed_sqr = Double::zeroed();
                }
                let achievable = exit_speed_sqr + block.speed_change_sqr();
                block.entry_speed_sqr = block.max_entry_speed_sqr.min(achievable);
                exit_speed_sqr = block.entry_speed_sqr;
                self.set_entry(i, QueueEntry::Block(block));
            }
            proof {
                assert forall|j: int| 0 <= j < all.len() implies #[trigger] self@[j] == if j >= i {
                    capped(all, j)
                } else {
                    all[j]
                } by {
                    if i < j < above {
                        assert(all[j] is Command);
                    }
                }
            }
        }

        // from the oldest block to the newest: what can be reached
        let mut incoming_speed_sqr = self.carry_over_exit_speed_sqr;
        proof {
            lemma_between(all, places@, -1);
            lemma_gap(
                all,
                carry,
                0,
                frontier(all, places@, 0),
            );
            assert forall|j: int| 0 <= j < all.len() implies #[trigger] self@[j] == capped(
                all,
                j,
            ) by {
                if j < frontier(all, places@, 0) {
                    assert(all[j] is Command);
                }
            }
        }
        while k < places.len()
            invariant
                self.well_formed(),
                self.carry_over() == carry,
                self@.len() == all.len(),
                all.len() <= usize::MAX,
                k <= places@.len(),
                block_places(all, places@),
                incoming_speed_sqr == incoming_at(
                    all,
                    carry,
                    frontier(all, places@, k as int),
                ),
                forall|i: int|
                    0 <= i < all.len() ==> #[trigger] self@[i] == if i >= frontier(
                        all,
                        places@,
                        k as int,
                    ) {
                        capped(all, i)
                    } else {
                        planned_entry(all, carry, i)
                    },
            decreases places@.len() - k,
        {
            let i = places[k];
            let ghost above = frontier(all, places@, k + 1);
            proof {
                lemma_between(all, places@, k as int);
                if k + 1 < places@.len() {
                    assert(places@[k as int] < places@[k + 1]);
                }
                lemma_gap(all, carry, i + 1, above);
                assert(all.skip(i as int).drop_first() == all.skip(i + 1));
                if k + 1 < places@.len() {
                    assert(all.skip(above)[0] == all[above]);
                    assert(has_block(all.skip(above)));
                } else {
                    assert(!has_block(all.skip(above)));
                }
            }
            if let QueueEntry::Block(mut block) = self.entry_at(i) {
                block.entry_speed_sqr = block.entry_speed_sqr.min(incoming_speed_sqr);
                let achievable = block.entry_speed_sqr + block.speed_change_sqr();
                let mut exit_sqr = achievable.min(block.nominal_speed_sqr());
                if block.ends_at_rest {
                    exit_sqr = Double::zeroed();
                } else if k + 1 < places.len() {
                    // not above what the next block may be entered at
                    if let QueueEntry::Block(next) = self.entry_at(places[k + 1]) {
                        exit_sqr = exit_sqr.min(next.entry_speed_sqr);
                    }
                }
                block.exit_speed_sqr = exit_sqr;
                incoming_speed_sqr = exit_sqr;
                self.set_entry(i, QueueEntry::Block(block));
            }
            proof {
                assert forall|j: int| 0 <= j < all.len() implies #[trigger] self@[j] == if j
                    >= above {
                    capped(all, j)
                } else {
                    planned_entry(all, carry, j)
                } by {
                    if i < j < above {
                        assert(all[j] is Command);
                    }
                }
            }
            k = k + 1;
        }
        proof {
            lemma_replanned(all, carry);
            assert(self@ == replanned(all, carry));
        }
    }
}

/// The entries after one more. A block has the speeds settled again; a command
/// does not.
pub open spec fn pushed<C>(
    entries: Seq<QueueEntry<C>>,
    carry_over: Double,
    entry: QueueEntry<C>,
) -> Seq<QueueEntry<C>> {
    match entry {
        QueueEntry::Block(_) => replanned(entries.push(entry), carry_over),
        QueueEntry::Command(_) => entries.push(entry),
    }
}

impl<const CAPACITY: usize, C: Copy> BlockQueue<CAPACITY, C> {
    /// What pushing an entry makes of the queue: nothing, where it is full.
    pub open spec fn after_push(&self, entry: QueueEntry<C>, after: &Self, ok: bool) -> bool {
        &&& after.well_formed()
        &&& ok == (self@.len() < CAPACITY)
        &&& after.carry_over() == self.carry_over()
        &&& after@ == if ok {
            pushed(self@, self.carry_over(), entry)
        } else {
            self@
        }
    }

    fn push(&mut self, entry: QueueEntry<C>) -> (r: Result<(), ()>)
        requires
            old(self).well_formed(),
        ensures
            old(self).after_push(entry, final(self), r is Ok),
    {
        if self.is_full() {
            return Err(());
        }
        let ghost before = *self;
        let index = self.physical_index(self.count);
        self.entries[index] = Some(entry);
        self.count = self.count + 1;
        proof {
            assert(self@ == before@.push(entry));
        }
        if let QueueEntry::Block(_) = entry {
            self.recalculate(false);
        }
        Ok(())
    }

    /// Adds a block and settles the speeds again. `Err` if the queue is full.
    pub fn push_block(&mut self, block: Block) -> (r: Result<(), ()>)
        requires
            old(self).well_formed(),
        ensures
            old(self).after_push(QueueEntry::Block(block), final(self), r is Ok),
    {
        self.push(QueueEntry::Block(block))
    }

    /// Adds a command, to come out in its place. `Err` if the queue is full.
    pub fn push_command(&mut self, command: C) -> (r: Result<(), ()>)
        requires
            old(self).well_formed(),
        ensures
            old(self).after_push(QueueEntry::Command(command), final(self), r is Ok),
    {
        self.push(QueueEntry::Command(command))
    }

    /// Makes the newest block end at rest, also when more motion comes behind it.
    /// As long as that is not asked for its end is left at the speed that it can reach, so
    /// that a queue that runs empty for a moment does not stop the machine.
    pub fn flush(&mut self)
        requires
            old(self).well_formed(),
        ensures
            final(self).well_formed(),
            final(self)@ == replanned(stopped(old(self)@), old(self).carry_over()),
            final(self).carry_over() == old(self).carry_over(),
    {
        self.recalculate(true);
    }

    /// Takes out the oldest entry, if there is one.
    pub fn pop_ready(&mut self) -> (entry: Option<PlannedBlock<C>>)
        requires
            old(self).well_formed(),
        ensures
            final(self).well_formed(),
            old(self)@.len() == 0 ==> {
                &&& entry is None
                &&& final(self)@ == old(self)@
                &&& final(self).carry_over() == old(self).carry_over()
            },
            old(self)@.len() > 0 ==> {
                &&& entry == Some(old(self)@.first().planned())
                &&& final(self)@ == old(self)@.drop_first()
                &&& final(self).carry_over() == match old(self)@.first() {
                    QueueEntry::Block(block) => block.exit_speed_sqr,
                    QueueEntry::Command(_) => old(self).carry_over(),
                }
            },
    {
        if self.is_empty() {
            return None;
        }
        let ghost before = *self;
        let entry = self.entry_at(0);
        self.entries[self.tail] = None;
        self.tail = if self.tail + 1 < CAPACITY {
            self.tail + 1
        } else {
            0
        };
        self.count = self.count - 1;
        proof {
            assert forall|i: int|
                #![trigger slot(self.tail as int, i, CAPACITY as int)]
                0 <= i < self.count implies slot(self.tail as int, i, CAPACITY as int) == slot(
                before.tail as int,
                i + 1,
                CAPACITY as int,
            ) && slot(self.tail as int, i, CAPACITY as int) != before.tail by {}
            assert(self@ == before@.drop_first());
        }
        Some(
            match entry {
                QueueEntry::Command(command) => PlannedBlock::Command(command),
                QueueEntry::Block(block) => {
                    self.carry_over_exit_speed_sqr = block.exit_speed_sqr;
                    PlannedBlock::Motion {
                        start: block.start,
                        target: block.target,
                        distance: block.distance,
                        entry_speed: block.entry_speed_sqr.sqrt(),
                        nominal_speed: block.nominal_speed,
                        exit_speed: block.exit_speed_sqr.sqrt(),
                        acceleration: block.acceleration,
                        is_rapid: block.is_rapid,
                    }
                },
            },
        )
    }
}

} // verus!
