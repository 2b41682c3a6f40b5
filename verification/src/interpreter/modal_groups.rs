//! Modal groups: which G and M codes exclude each other on one line.
//!
//! The groups are those of the NIST RS274NGC v3 standard, Table 4. Two codes of
//! one group may not share a line; codes of different groups may.
use vstd::prelude::*;

verus! {

/// The modal group that a G or M code belongs to.
#[derive(Debug, Clone, Copy, PartialEq, Eq, Hash, Structural)]
#[non_exhaustive]
pub enum ModalGroup {
    /// G4, G10, G28, G28.1, G30, G30.1, G53, G92, G92.1 to G92.3. One per line
    /// like any group, but nothing in it persists to the next line.
    NonModal,
    /// G0 to G3, G38.2 to G38.5, G80: the motion mode, carried from line to line.
    Motion,
    /// G17, G18, G19: plane selection.
    Plane,
    /// G90, G91: distance mode.
    DistanceMode,
    /// G91.1: distance mode of arc centers.
    ArcDistanceMode,
    /// G93, G94: feed rate mode.
    FeedRateMode,
    /// G20, G21: units.
    Units,
    /// G54 to G59.3: coordinate system selection.
    CoordinateSystem,
    /// G98, G99: where a canned cycle retracts to.
    CannedCycleReturnMode,
    /// M0, M1, M2, M30: program stopping.
    ProgramStopping,
    /// M3, M4, M5: spindle turning.
    SpindleTurning,
    /// M7, M8, M9: coolant control.
    CoolantControl,
    /// M6: tool change.
    ToolChange,
}

impl ModalGroup {
    /// A number of its own for each group.
    pub open spec fn number(self) -> u16 {
        match self {
            ModalGroup::NonModal => 0,
            ModalGroup::Motion => 1,
            ModalGroup::Plane => 2,
            ModalGroup::DistanceMode => 3,
            ModalGroup::ArcDistanceMode => 4,
            ModalGroup::FeedRateMode => 5,
            ModalGroup::Units => 6,
            ModalGroup::CoordinateSystem => 7,
            ModalGroup::CannedCycleReturnMode => 8,
            ModalGroup::ProgramStopping => 9,
            ModalGroup::SpindleTurning => 10,
            ModalGroup::CoolantControl => 11,
            ModalGroup::ToolChange => 12,
        }
    }
}

/// The modal groups seen so far on the current line, as a bit mask.
#[derive(Debug, Clone, Copy, PartialEq, Eq, Structural)]
pub struct ModalGroupSet {
    mask: u16,
}

impl View for ModalGroupSet {
    type V = Set<ModalGroup>;

    closed spec fn view(&self) -> Set<ModalGroup> {
        Set::new(|group: ModalGroup| self.mask & (1u16 << group.number()) != 0)
    }
}

impl Default for ModalGroupSet {
    fn default() -> (set: ModalGroupSet)
        ensures
            set == ModalGroupSet::none(),
            set@ == Set::<ModalGroup>::empty(),
    {
        ModalGroupSet::new()
    }
}

impl ModalGroupSet {
    /// The empty set.
    pub closed spec fn none() -> ModalGroupSet {
        ModalGroupSet { mask: 0 }
    }

    /// The set with one more group.
    pub closed spec fn with(self, group: ModalGroup) -> ModalGroupSet {
        ModalGroupSet { mask: self.mask | (1u16 << group.number()) }
    }

    /// No group seen.
    pub fn new() -> (set: ModalGroupSet)
        ensures
            set == ModalGroupSet::none(),
            set@ == Set::<ModalGroup>::empty(),
    {
        proof {
            ModalGroupSet::lemma_none();
        }
        ModalGroupSet { mask: 0 }
    }

    /// What the empty set holds.
    pub proof fn lemma_none()
        ensures
            ModalGroupSet::none()@ == Set::<ModalGroup>::empty(),
    {
        assert forall|group: ModalGroup| !ModalGroupSet::none()@.contains(group) by {
            let n = group.number();
            assert(0u16 & (1u16 << n) == 0) by (bit_vector);
        }
    }

    /// The bit that stands for `group`.
    fn bit(group: ModalGroup) -> (bit: u16)
        ensures
            bit == 1u16 << group.number(),
    {
        let number: u16 = match group {
            ModalGroup::NonModal => 0,
            ModalGroup::Motion => 1,
            ModalGroup::Plane => 2,
            ModalGroup::DistanceMode => 3,
            ModalGroup::ArcDistanceMode => 4,
            ModalGroup::FeedRateMode => 5,
            ModalGroup::Units => 6,
            ModalGroup::CoordinateSystem => 7,
            ModalGroup::CannedCycleReturnMode => 8,
            ModalGroup::ProgramStopping => 9,
            ModalGroup::SpindleTurning => 10,
            ModalGroup::CoolantControl => 11,
            ModalGroup::ToolChange => 12,
        };
        1u16 << number
    }

    /// Whether `group` was already seen on the current line, so that adding it
    /// again would be a conflict.
    pub fn contains(&self, group: ModalGroup) -> (found: bool)
        ensures
            found == self@.contains(group),
    {
        self.mask & Self::bit(group) != 0
    }

    /// Marks `group` as seen on the current line.
    pub fn insert(&mut self, group: ModalGroup)
        ensures
            *final(self) == old(self).with(group),
            final(self)@ == old(self)@.insert(group),
    {
        proof {
            self.lemma_with(group);
        }
        self.mask = self.mask | Self::bit(group);
    }

    /// What a set with one more group holds.
    pub proof fn lemma_with(self, group: ModalGroup)
        ensures
            self.with(group)@ == self@.insert(group),
    {
        let n = group.number();
        let mask = self.mask;
        assert forall|other: ModalGroup| #[trigger]
            self.with(group)@.contains(other) == self@.insert(group).contains(other) by {
            let k = other.number();
            assert((mask | (1u16 << n)) & (1u16 << k) != 0 <==> (mask & (1u16 << k) != 0 || n
                == k)) by (bit_vector)
                requires
                    n < 13,
                    k < 13,
            ;
            assert(n == k <==> group == other);
        }
    }

    /// A set does not tell in which order, or how often, its groups were added.
    pub proof fn law_order_and_repeats_do_not_matter(self, a: ModalGroup, b: ModalGroup)
        ensures
            self.with(a).with(b) == self.with(b).with(a),
            self.with(a).with(a) == self.with(a),
    {
        let mask = self.mask;
        let (m, n) = (1u16 << a.number(), 1u16 << b.number());
        assert((mask | m) | n == (mask | n) | m) by (bit_vector);
        assert((mask | m) | m == mask | m) by (bit_vector);
    }

    /// Forgets every group: for the start of a line.
    pub fn clear(&mut self)
        ensures
            *final(self) == ModalGroupSet::none(),
            final(self)@ == Set::<ModalGroup>::empty(),
    {
        *self = ModalGroupSet::new();
    }
}

/// The decimal suffix of a code is one of `low` to `high`.
pub open spec fn suffix_within(minor: Option<u32>, low: u32, high: u32) -> bool {
    minor matches Some(n) && low <= n <= high
}

/// The modal group of a G code, where it has one here.
pub open spec fn general_group(major: u32, minor: Option<u32>) -> Option<ModalGroup> {
    let plain = minor is None;
    if major == 10 || (plain && (major == 4 || major == 28 || major == 30 || major == 53 || major
        == 92)) || ((major == 28 || major == 30) && minor == Some(1u32)) || (major == 92
        && suffix_within(minor, 1, 3)) {
        Some(ModalGroup::NonModal)
    } else if (plain && (major <= 3 || major == 80)) || (major == 38 && suffix_within(
        minor,
        2,
        5,
    )) {
        Some(ModalGroup::Motion)
    } else if plain && 17 <= major <= 19 {
        Some(ModalGroup::Plane)
    } else if plain && 90 <= major <= 91 {
        Some(ModalGroup::DistanceMode)
    } else if major == 91 && minor == Some(1u32) {
        Some(ModalGroup::ArcDistanceMode)
    } else if plain && 93 <= major <= 94 {
        Some(ModalGroup::FeedRateMode)
    } else if plain && 20 <= major <= 21 {
        Some(ModalGroup::Units)
    } else if (plain && 54 <= major <= 59) || (major == 59 && suffix_within(minor, 1, 3)) {
        Some(ModalGroup::CoordinateSystem)
    } else if plain && 98 <= major <= 99 {
        Some(ModalGroup::CannedCycleReturnMode)
    } else {
        None
    }
}

/// The modal group of an M code, where it has one here.
pub open spec fn miscellaneous_group(major: u32, minor: Option<u32>) -> Option<ModalGroup> {
    if minor is Some {
        None
    } else if major <= 2 || major == 30 {
        Some(ModalGroup::ProgramStopping)
    } else if 3 <= major <= 5 {
        Some(ModalGroup::SpindleTurning)
    } else if major == 6 {
        Some(ModalGroup::ToolChange)
    } else if 7 <= major <= 9 {
        Some(ModalGroup::CoolantControl)
    } else {
        None
    }
}

/// Classifies a G code. `None` says that the number is a valid G word whose
/// meaning is not covered here; `minor` is the decimal suffix, the 1 of G92.1.
pub fn classify_general_code(major: u32, minor: Option<u32>) -> (group: Option<ModalGroup>)
    ensures
        group == general_group(major, minor),
{
    Some(
        match (major, minor) {
            (4, None) | (10, _) => ModalGroup::NonModal,
            (28, None) | (28, Some(1)) => ModalGroup::NonModal,
            (30, None) | (30, Some(1)) => ModalGroup::NonModal,
            (53, None) | (92, None) => ModalGroup::NonModal,
            (92, Some(1)) | (92, Some(2)) | (92, Some(3)) => ModalGroup::NonModal,
            (0, None) | (1, None) | (2, None) | (3, None) | (80, None) => ModalGroup::Motion,
            (38, Some(2)) | (38, Some(3)) | (38, Some(4)) | (38, Some(5)) => ModalGroup::Motion,
            (17, None) | (18, None) | (19, None) => ModalGroup::Plane,
            (90, None) | (91, None) => ModalGroup::DistanceMode,
            (91, Some(1)) => ModalGroup::ArcDistanceMode,
            (93, None) | (94, None) => ModalGroup::FeedRateMode,
            (20, None) | (21, None) => ModalGroup::Units,
            (54, None) | (55, None) | (56, None) => ModalGroup::CoordinateSystem,
            (57, None) | (58, None) | (59, None) => ModalGroup::CoordinateSystem,
            (59, Some(1)) | (59, Some(2)) | (59, Some(3)) => ModalGroup::CoordinateSystem,
            (98, None) | (99, None) => ModalGroup::CannedCycleReturnMode,
            _ => return None,
        },
    )
}

/// Classifies an M code, with the same meaning of `None`.
pub fn classify_miscellaneous_code(major: u32, minor: Option<u32>) -> (group: Option<ModalGroup>)
    ensures
        group == miscellaneous_group(major, minor),
{
    Some(
        match (major, minor) {
            (0, None) | (1, None) | (2, None) | (30, None) => ModalGroup::ProgramStopping,
            (3, None) | (4, None) | (5, None) => ModalGroup::SpindleTurning,
            (6, None) => ModalGroup::ToolChange,
            (7, None) | (8, None) | (9, None) => ModalGroup::CoolantControl,
            _ => return None,
        },
    )
}

} // verus!
