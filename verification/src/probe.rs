//! Control-group classification for open-addressed collections.
//!
//! A group always has sixteen lanes, lane zero maps to the least-significant
//! mask bit, and mask iteration always visits lower lanes first.

use vstd::prelude::*;
use vstd::std_specs::bits::{u16_trailing_zeros, axiom_u16_trailing_zeros};

verus! {

/// Number of control bytes in one probe group.
pub const CONTROL_GROUP_WIDTH: usize = 16;

/// Control byte denoting a bucket that has never held an entry.
pub const EMPTY_CONTROL: u8 = 0x80;

/// Control byte denoting a removed entry whose probe chain remains live.
pub const DELETED_CONTROL: u8 = 0xfe;

/// Whether bit `lane` of `bits` is set.
pub open spec fn lane_bit(bits: u16, lane: int) -> bool {
    0 <= lane && lane < 16 && (bits >> (lane as u16)) & 1u16 == 1u16
}

/// The fingerprint a full hash stores in an occupied lane: its seven bits
/// starting at bit 57.
pub open spec fn tag_of_hash(hash: u64) -> u8 {
    ((hash >> 57u64) & 0x7fu64) as u8
}

/// Seven-bit fingerprint stored in an occupied control lane.
#[derive(Clone, Copy, Debug, Eq, Hash, Ord, PartialEq, PartialOrd, Structural)]
pub struct ControlTag(u8);

impl ControlTag {
    /// The encoded control byte.
    pub closed spec fn spec_value(self) -> u8 {
        self.0
    }

    /// Every tag lies below the reserved control-byte space.
    pub closed spec fn wf(self) -> bool {
        self.0 < EMPTY_CONTROL
    }

    /// Creates an occupied tag, rejecting the reserved control-byte space.
    pub fn new(value: u8) -> (tag: Option<Self>)
        ensures
            tag is Some <==> value < EMPTY_CONTROL,
            tag matches Some(t) ==> t.spec_value() == value && t.wf(),
    {
        if value < EMPTY_CONTROL {
            Some(ControlTag(value))
        } else {
            None
        }
    }

    /// Derives the seven-bit fingerprint from a full hash.
    pub fn from_hash(hash: u64) -> (tag: Self)
        ensures
            tag.spec_value() == tag_of_hash(hash),
            tag.wf(),
            tag_of_hash(hash) < EMPTY_CONTROL,
    {
        let value = ((hash >> 57u64) & 0x7fu64) as u8;
        assert(((hash >> 57u64) & 0x7fu64) < 128) by (bit_vector);
        ControlTag(value)
    }

    /// The encoded occupied control byte.
    pub fn get(self) -> (value: u8)
        ensures
            value == self.spec_value(),
    {
        self.0
    }
}

/// One control group in logical probe-lane order.
#[derive(Clone, Copy, Debug, Eq, PartialEq)]
pub struct ControlGroup {
    lanes: [u8; 16],
}

impl ControlGroup {
    /// The lanes in logical order.
    pub closed spec fn spec_lanes(self) -> Seq<u8> {
        self.lanes@
    }

    /// Creates a group from bytes already arranged in logical lane order.
    pub fn new(lanes: [u8; 16]) -> (group: Self)
        ensures
            group.spec_lanes() == lanes@,
    {
        ControlGroup { lanes }
    }

    /// Gathers sixteen wrapping lanes from a power-of-two control array.
    ///
    /// `None` rejects malformed storage: fewer than sixteen bytes, a length
    /// that is not a power of two, or a start outside the array.
    pub fn gather_wrapping(controls: &[u8], start: usize) -> (group: Option<Self>)
        ensures
            group is Some <==> (controls@.len() >= 16 && is_pow2(controls@.len() as nat) && start
                < controls@.len()),
            group matches Some(g) ==> g.spec_lanes().len() == 16 && forall|lane: int|
                0 <= lane < 16 ==> #[trigger] g.spec_lanes()[lane] == controls@[(start + lane)
                    % (controls@.len() as int)],
    {
        let len = controls.len();
        if len < CONTROL_GROUP_WIDTH || !is_power_of_two(len) || start >= len {
            return None;
        }
        let mut lanes = [0u8; 16];
        let mut lane: usize = 0;
        while lane < CONTROL_GROUP_WIDTH
            invariant
                lane <= 16,
                len == controls@.len(),
                len >= 16,
                start < len,
                lanes@.len() == 16,
                forall|j: int| 0 <= j < lane ==> #[trigger] lanes@[j] == controls@[(start + j) % (len as int)],
            decreases 16 - lane,
        {
            let offset = len - start;
            let index = if lane < offset { start + lane } else { lane - offset };
            assert(index == (start + lane) % (len as int)) by {
                if lane < offset {
                    vstd::arithmetic::div_mod::lemma_small_mod((start + lane) as nat, len as nat);
                } else {
                    vstd::arithmetic::div_mod::lemma_mod_sub_multiples_vanish((start + lane) as int, len as int);
                    vstd::arithmetic::div_mod::lemma_small_mod((lane - offset) as nat, len as nat);
                }
            }
            lanes[lane] = controls[index];
            lane = lane + 1;
        }
        Some(ControlGroup { lanes })
    }

    /// The bytes in logical lane order.
    pub fn lanes(&self) -> (lanes: &[u8; 16])
        ensures
            lanes@ == self.spec_lanes(),
    {
        &self.lanes
    }
}

/// Whether `n` is a power of two.
pub open spec fn is_pow2(n: nat) -> bool
    decreases n,
{
    if n == 0 {
        false
    } else if n == 1 {
        true
    } else {
        n % 2 == 0 && is_pow2(n / 2)
    }
}

/// Decides whether `n` is a power of two.
pub fn is_power_of_two(n: usize) -> (pow2: bool)
    ensures
        pow2 == is_pow2(n as nat),
{
    if n == 0 {
        return false;
    }
    let mut value = n;
    while value > 1
        invariant
            1 <= value <= n,
            is_pow2(n as nat) == is_pow2(value as nat),
        decreases value,
    {
        if value % 2 != 0 {
            return false;
        }
        value = value / 2;
    }
    true
}

/// Bitset over the sixteen logical lanes; bit `n` is lane `n`.
#[derive(Clone, Copy, Default, Eq, Hash, Ord, PartialEq, PartialOrd, Debug, Structural)]
pub struct LaneMask(u16);

/// Every lane below `lane` is clear in `bits`.
pub open spec fn clear_below(bits: u16, lane: int) -> bool {
    forall|j: int| 0 <= j < lane ==> !lane_bit(bits, j)
}

proof fn lemma_trailing_zeros_is_first_lane(bits: u16)
    requires
        bits != 0,
    ensures
        u16_trailing_zeros(bits) < 16,
        lane_bit(bits, u16_trailing_zeros(bits) as int),
        clear_below(bits, u16_trailing_zeros(bits) as int),
{
    axiom_u16_trailing_zeros(bits);
    let tz = u16_trailing_zeros(bits);
    assert forall|j: int| 0 <= j < tz implies !lane_bit(bits, j) by {
        let jj = j as u16;
        assert((bits >> jj) & 1u16 == 0u16);
    }
}

proof fn lemma_clear_lowest_bit(bits: u16, tz: u16, j: u16)
    by (bit_vector)
    requires
        tz < 16,
        j < 16,
        (bits >> tz) & 1u16 == 1u16,
        bits << ((16 - tz) as u16) == 0,
    ensures
        ((bits & ((bits - 1) as u16)) >> j) & 1u16 == 1u16 <==> ((bits >> j) & 1u16 == 1u16 && j != tz),
{
}

proof fn lemma_clear_lowest(bits: u16, tz: u16)
    requires
        tz < 16,
        (bits >> tz) & 1u16 == 1u16,
        bits << ((16 - tz) as u16) == 0,
    ensures
        forall|j: int| 0 <= j && j < 16 ==> (#[trigger] lane_bit(bits & ((bits - 1) as u16), j) <==> (lane_bit(bits, j) && j
            != tz)),
{
    assert forall|j: int| 0 <= j && j < 16 implies (#[trigger] lane_bit(bits & ((bits - 1) as u16), j) <==> (lane_bit(bits, j) && j
        != tz)) by {
        lemma_clear_lowest_bit(bits, tz, j as u16);
        assert((j as u16) != tz <==> j != tz);
    }
}

impl LaneMask {
    /// The canonical sixteen bits.
    pub closed spec fn spec_bits(self) -> u16 {
        self.0
    }

    /// The empty lane mask.
    pub fn none() -> (mask: Self)
        ensures
            mask.spec_bits() == 0,
    {
        LaneMask(0)
    }

    /// Creates a lane mask from its canonical sixteen bits.
    pub fn from_bits(bits: u16) -> (mask: Self)
        ensures
            mask.spec_bits() == bits,
    {
        LaneMask(bits)
    }

    /// The canonical mask bits.
    pub fn bits(self) -> (bits: u16)
        ensures
            bits == self.spec_bits(),
    {
        self.0
    }

    /// Whether no lane is selected.
    pub fn is_empty(self) -> (empty: bool)
        ensures
            empty == (self.spec_bits() == 0),
    {
        self.0 == 0
    }

    /// Whether `lane` is selected.
    pub fn contains(self, lane: usize) -> (selected: bool)
        ensures
            selected == lane_bit(self.spec_bits(), lane as int),
    {
        if lane >= CONTROL_GROUP_WIDTH {
            return false;
        }
        let shifted = (self.0 >> (lane as u16)) & 1u16;
        shifted == 1u16
    }

    /// Lowest selected lane, which is the first lane in probe order.
    pub fn first(self) -> (lane: Option<usize>)
        ensures
            lane is None <==> self.spec_bits() == 0,
            lane matches Some(l) ==> l < 16 && lane_bit(self.spec_bits(), l as int) && clear_below(
                self.spec_bits(),
                l as int,
            ),
    {
        if self.0 == 0 {
            None
        } else {
            proof {
                lemma_trailing_zeros_is_first_lane(self.0);
            }
            Some(self.0.trailing_zeros() as usize)
        }
    }

    /// Iterates selected lanes from lowest to highest.
    pub fn iter(self) -> (iter: LaneMaskIter)
        ensures
            iter.spec_remaining() == self.spec_bits(),
    {
        LaneMaskIter { remaining: self.0 }
    }
}

/// Ascending iterator over selected lane indexes.
#[derive(Clone, Copy, Debug)]
pub struct LaneMaskIter {
    remaining: u16,
}

impl LaneMaskIter {
    /// Lanes not yet yielded.
    pub closed spec fn spec_remaining(self) -> u16 {
        self.remaining
    }

    /// Yields the lowest remaining lane and removes it.
    pub fn next(&mut self) -> (lane: Option<usize>)
        ensures
            lane is None <==> old(self).spec_remaining() == 0,
            lane is None ==> final(self).spec_remaining() == 0,
            lane matches Some(l) ==> {
                &&& l < 16
                &&& lane_bit(old(self).spec_remaining(), l as int)
                &&& clear_below(old(self).spec_remaining(), l as int)
                &&& forall|j: int| 0 <= j && j < 16 ==> (lane_bit(final(self).spec_remaining(), j) <==> (
                    lane_bit(old(self).spec_remaining(), j) && j != l))
            },
    {
        if self.remaining == 0 {
            return None;
        }
        let bits = self.remaining;
        proof {
            lemma_trailing_zeros_is_first_lane(bits);
            axiom_u16_trailing_zeros(bits);
            lemma_clear_lowest(bits, u16_trailing_zeros(bits) as u16);
        }
        let lane = bits.trailing_zeros() as usize;
        self.remaining = bits & (bits - 1);
        Some(lane)
    }

    /// Number of lanes not yet yielded.
    pub fn len(&self) -> (count: usize)
        ensures
            count == popcount16(self.spec_remaining()),
            count <= 16,
    {
        let mut count: usize = 0;
        let mut lane: u16 = 0;
        while lane < 16
            invariant
                lane <= 16,
                count == popcount16_below(self.remaining, lane as int),
                count <= lane,
            decreases 16 - lane,
        {
            if (self.remaining >> lane) & 1u16 == 1u16 {
                count = count + 1;
            }
            lane = lane + 1;
        }
        count
    }
}

/// Number of set bits among the lanes below `lane`.
pub open spec fn popcount16_below(bits: u16, lane: int) -> nat
    decreases lane,
{
    if lane <= 0 {
        0
    } else {
        popcount16_below(bits, lane - 1) + if lane_bit(bits, lane - 1) { 1nat } else { 0nat }
    }
}

/// Number of set bits.
pub open spec fn popcount16(bits: u16) -> nat {
    popcount16_below(bits, 16)
}

/// Classification masks for one control group.
#[derive(Clone, Copy, Debug, Default, Eq, PartialEq, Structural)]
pub struct ControlGroupMasks {
    /// Occupied lanes whose fingerprint equals the requested tag.
    pub matching: LaneMask,
    /// Never-occupied lanes.
    pub empty: LaneMask,
    /// Removed lanes that retain a probe chain.
    pub deleted: LaneMask,
}

impl ControlGroupMasks {
    /// Occupied lanes, including both matching and non-matching fingerprints.
    pub fn occupied(self) -> (mask: LaneMask)
        ensures
            forall|lane: int| 0 <= lane < 16 ==> (lane_bit(mask.spec_bits(), lane) <==> !lane_bit(
                self.empty.spec_bits(),
                lane,
            ) && !lane_bit(self.deleted.spec_bits(), lane)),
    {
        let empty = self.empty.bits();
        let deleted = self.deleted.bits();
        let bits = !(empty | deleted);
        proof {
            assert forall|lane: int| 0 <= lane < 16 implies (lane_bit(bits, lane) <==> !lane_bit(empty, lane)
                && !lane_bit(deleted, lane)) by {
                let l = lane as u16;
                assert(((!(empty | deleted)) >> l) & 1u16 == 1u16 <==> ((empty >> l) & 1u16 != 1u16 && (deleted
                    >> l) & 1u16 != 1u16)) by (bit_vector)
                    requires
                        l < 16,
                ;
            }
        }
        LaneMask::from_bits(bits)
    }
}

/// The masks classify `group` against `tag`: lane `n` of each mask is set
/// exactly when control byte `n` equals the tag, the empty marker, or the
/// deleted marker respectively.
pub open spec fn classifies(group: ControlGroup, tag: ControlTag, masks: ControlGroupMasks) -> bool {
    forall|lane: int|
        0 <= lane < 16 ==> {
            &&& (lane_bit(masks.matching.spec_bits(), lane) <==> group.spec_lanes()[lane] == tag.spec_value())
            &&& (lane_bit(masks.empty.spec_bits(), lane) <==> group.spec_lanes()[lane] == EMPTY_CONTROL)
            &&& (lane_bit(masks.deleted.spec_bits(), lane) <==> group.spec_lanes()[lane] == DELETED_CONTROL)
        }
}

/// Semantic interface of a control-group classifier: every implementation
/// computes exactly the masks of [`scalar_classify`].
pub trait ControlGroupClassifier {
    /// Classifies `group` for `tag`.
    fn classify(&self, group: &ControlGroup, tag: ControlTag) -> (masks: ControlGroupMasks)
        ensures
            classifies(*group, tag, masks),
    ;
}

/// Portable safe reference classifier.
#[derive(Clone, Copy, Debug, Default)]
pub struct ScalarControlGroupClassifier;

impl ControlGroupClassifier for ScalarControlGroupClassifier {
    fn classify(&self, group: &ControlGroup, tag: ControlTag) -> (masks: ControlGroupMasks) {
        scalar_classify(group, tag)
    }
}

proof fn lemma_set_lane_bit(bits: u16, lane: u16, j: u16)
    by (bit_vector)
    requires
        lane < 16,
        j < 16,
    ensures
        ((bits | (1u16 << lane)) >> j) & 1u16 == 1u16 <==> (j == lane || (bits >> j) & 1u16 == 1u16),
{
}

proof fn lemma_set_lane_one(bits: u16, lane: u16, j: int)
    requires
        lane < 16,
        0 <= j && j < 16,
    ensures
        lane_bit(bits | (1u16 << lane), j) <==> (j == lane || lane_bit(bits, j)),
{
    lemma_set_lane_bit(bits, lane, j as u16);
    let jj = j as u16;
    assert(jj == j);
}

proof fn lemma_set_lane(bits: u16, lane: u16)
    requires
        lane < 16,
    ensures
        forall|j: int| 0 <= j && j < 16 ==> (#[trigger] lane_bit(bits | (1u16 << lane), j) <==> (j == lane || lane_bit(bits, j))),
{
    assert forall|j: int| 0 <= j && j < 16 implies (#[trigger] lane_bit(bits | (1u16 << lane), j) <==> (j == lane || lane_bit(
        bits,
        j,
    ))) by {
        lemma_set_lane_one(bits, lane, j);
    }
}

proof fn lemma_zero_has_no_lanes()
    ensures
        forall|j: int| 0 <= j && j < 16 ==> !lane_bit(0u16, j),
{
    assert forall|j: int| 0 <= j && j < 16 implies !lane_bit(0u16, j) by {
        let jj = j as u16;
        assert((0u16 >> jj) & 1u16 == 0u16) by (bit_vector);
    }
}

/// Classifies a group with the safe scalar reference algorithm.
pub fn scalar_classify(group: &ControlGroup, tag: ControlTag) -> (masks: ControlGroupMasks)
    ensures
        classifies(*group, tag, masks),
{
    let lanes = group.lanes();
    let tag_value = tag.get();
    let mut matching: u16 = 0;
    let mut empty: u16 = 0;
    let mut deleted: u16 = 0;
    let mut lane: u16 = 0;
    proof {
        lemma_zero_has_no_lanes();
    }
    while lane < 16
        invariant
            lane <= 16,
            lanes@ == group.spec_lanes(),
            lanes@.len() == 16,
            tag_value == tag.spec_value(),
            forall|j: int| 0 <= j < lane ==> (lane_bit(matching, j) <==> lanes@[j] == tag_value),
            forall|j: int| 0 <= j < lane ==> (lane_bit(empty, j) <==> lanes@[j] == EMPTY_CONTROL),
            forall|j: int| 0 <= j < lane ==> (lane_bit(deleted, j) <==> lanes@[j] == DELETED_CONTROL),
            forall|j: int| lane <= j < 16 ==> !lane_bit(matching, j),
            forall|j: int| lane <= j < 16 ==> !lane_bit(empty, j),
            forall|j: int| lane <= j < 16 ==> !lane_bit(deleted, j),
        decreases 16 - lane,
    {
        let control = lanes[lane as usize];
        proof {
            lemma_set_lane(matching, lane);
            lemma_set_lane(empty, lane);
            lemma_set_lane(deleted, lane);
        }
        let bit = 1u16 << lane;
        if control == tag_value {
            matching = matching | bit;
        }
        if control == EMPTY_CONTROL {
            empty = empty | bit;
        }
        if control == DELETED_CONTROL {
            deleted = deleted | bit;
        }
        lane = lane + 1;
    }
    ControlGroupMasks {
        matching: LaneMask::from_bits(matching),
        empty: LaneMask::from_bits(empty),
        deleted: LaneMask::from_bits(deleted),
    }
}

/// Classification backends a dispatch can select.
#[derive(Clone, Copy, Debug, PartialEq, Eq, Structural)]
pub enum ControlGroupBackend {
    /// The portable scalar reference.
    Scalar,
}

/// Copyable classification dispatch selected outside the table's probe loop.
#[derive(Clone, Copy, Debug)]
pub struct ControlGroupDispatch {
    backend: ControlGroupBackend,
}

impl ControlGroupDispatch {
    /// Constructs a dispatch for one backend.
    pub fn new(backend: ControlGroupBackend) -> (dispatch: Self)
        ensures
            dispatch.spec_backend() == backend,
    {
        ControlGroupDispatch { backend }
    }

    /// The selected backend.
    pub closed spec fn spec_backend(self) -> ControlGroupBackend {
        self.backend
    }

    /// Classifies one group through this dispatch.
    pub fn classify(self, group: &ControlGroup, tag: ControlTag) -> (masks: ControlGroupMasks)
        ensures
            classifies(*group, tag, masks),
    {
        match self.backend {
            ControlGroupBackend::Scalar => scalar_classify(group, tag),
        }
    }
}

/// Dispatch for the safe scalar reference backend.
pub fn scalar_control_group_dispatch() -> (dispatch: ControlGroupDispatch)
    ensures
        dispatch.spec_backend() == ControlGroupBackend::Scalar,
{
    ControlGroupDispatch::new(ControlGroupBackend::Scalar)
}

} // verus!
