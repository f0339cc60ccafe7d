//! Bounded byte-level Levenshtein automata.
//!
//! A state is one row of the edit-distance table: entry `j` is the distance
//! between the first `j` pattern bytes and the candidate bytes consumed so
//! far, capped at `max_edits + 1`, the value every larger distance is
//! equivalent to for pruning. Automata accept edit bounds up to two and fold
//! no Unicode: callers supply bytes from their pinned text profile.

use vstd::prelude::*;
use crate::vec_alloc::try_reserve_exact;
use crate::text::{decimal, push_decimal, push_text};

verus! {

/// Largest edit distance an automaton accepts.
pub const MAX_EDIT_DISTANCE: u8 = 2;

/// Allocation named by a construction failure.
#[derive(Clone, Copy, Debug, Eq, PartialEq, Structural)]
pub enum LevenshteinAllocation {
    /// Owned pattern bytes.
    Pattern,
    /// One state row.
    State,
}

/// Checked automaton failure.
#[derive(Clone, Copy, Debug, Eq, PartialEq, Structural)]
pub enum LevenshteinError {
    /// The requested edit bound lies outside `0..=2`.
    UnsupportedDistance { requested: u8, maximum: u8 },
    /// Pattern bytes exceed the caller's ceiling.
    PatternLimitExceeded { actual: usize, limit: usize },
    /// The state-row length cannot be represented.
    StateLengthOverflow,
    /// Reserving bounded owned storage failed.
    AllocationFailed { target: LevenshteinAllocation, requested: usize },
    /// A state created by another automaton was supplied.
    StateOwnerMismatch,
    /// The supplied state has a row of the wrong width.
    StateWidthMismatch { expected: usize, actual: usize },
}

/// The smaller of two integers.
pub open spec fn min_int(a: int, b: int) -> int {
    if a <= b {
        a
    } else {
        b
    }
}

/// Edit distance between two byte strings: the fewest single-byte
/// insertions, deletions and substitutions turning one into the other.
pub open spec fn edit_distance(pattern: Seq<u8>, candidate: Seq<u8>) -> nat
    decreases pattern.len() + candidate.len(),
{
    if pattern.len() == 0 {
        candidate.len()
    } else if candidate.len() == 0 {
        pattern.len()
    } else {
        let substitution: int = if pattern.last() == candidate.last() {
            0
        } else {
            1
        };
        min_int(
            min_int(
                edit_distance(pattern.drop_last(), candidate) as int + 1,
                edit_distance(pattern, candidate.drop_last()) as int + 1,
            ),
            edit_distance(pattern.drop_last(), candidate.drop_last()) as int + substitution,
        ) as nat
    }
}

/// The state row for a candidate: entry `j` is the edit distance between
/// the first `j` pattern bytes and the candidate, capped at `dead`.
pub open spec fn distance_row(pattern: Seq<u8>, candidate: Seq<u8>, dead: u16) -> Seq<u16> {
    Seq::new(
        pattern.len() + 1,
        |j: int| min_int(edit_distance(pattern.take(j), candidate) as int, dead as int) as u16,
    )
}

/// Entry `j` of a row after one more candidate byte: the cheapest of a
/// deletion, an insertion and a (possibly free) substitution, capped.
pub open spec fn advanced_cell(
    pattern: Seq<u8>,
    row: Seq<u16>,
    candidate: u8,
    dead: u16,
    j: int,
) -> int
    decreases j,
{
    if j <= 0 {
        min_int(row[0] + 1, dead as int)
    } else {
        let substitution: int = if pattern[j - 1] == candidate {
            0
        } else {
            1
        };
        min_int(
            min_int(
                min_int(advanced_cell(pattern, row, candidate, dead, j - 1) + 1, row[j] + 1),
                row[j - 1] + substitution,
            ),
            dead as int,
        )
    }
}

/// A row after one more candidate byte.
pub open spec fn advanced_row(pattern: Seq<u8>, row: Seq<u16>, candidate: u8, dead: u16) -> Seq<
    u16,
> {
    Seq::new(row.len(), |j: int| advanced_cell(pattern, row, candidate, dead, j) as u16)
}

/// A row after the candidate bytes `bytes`, in order.
pub open spec fn advanced_through(pattern: Seq<u8>, row: Seq<u16>, bytes: Seq<u8>, dead: u16) -> Seq<
    u16,
>
    decreases bytes.len(),
{
    if bytes.len() == 0 {
        row
    } else {
        advanced_row(
            pattern,
            advanced_through(pattern, row, bytes.drop_last(), dead),
            bytes.last(),
            dead,
        )
    }
}

/// Whether some entry of a row is below `dead`.
pub open spec fn row_alive(row: Seq<u16>, dead: u16) -> bool {
    exists|j: int| 0 <= j < row.len() && row[j] < dead
}

/// Immutable byte-pattern automaton.
#[derive(Debug, Eq, PartialEq)]
pub struct LevenshteinAutomaton {
    pattern: Vec<u8>,
    max_edits: u8,
}

impl Clone for LevenshteinAutomaton {
    fn clone(&self) -> (copy: Self)
        ensures
            copy.spec_pattern() == self.spec_pattern(),
            copy.spec_max_edits() == self.spec_max_edits(),
    {
        proof {
            use_type_invariant(self);
        }
        let mut pattern: Vec<u8> = Vec::new();
        let mut index: usize = 0;
        while index < self.pattern.len()
            invariant
                index <= self.pattern@.len(),
                pattern@ == self.pattern@.take(index as int),
            decreases self.pattern@.len() - index,
        {
            pattern.push(self.pattern[index]);
            index = index + 1;
            proof {
                assert(pattern@ =~= self.pattern@.take(index as int));
            }
        }
        proof {
            assert(self.pattern@.take(self.pattern@.len() as int) =~= self.pattern@);
        }
        LevenshteinAutomaton { pattern, max_edits: self.max_edits }
    }
}

impl LevenshteinAutomaton {
    #[verifier::type_invariant]
    closed spec fn supported(self) -> bool {
        self.max_edits <= MAX_EDIT_DISTANCE
    }

    /// The pattern bytes.
    pub closed spec fn spec_pattern(self) -> Seq<u8> {
        self.pattern@
    }

    /// The accepted edit distance.
    pub closed spec fn spec_max_edits(self) -> u8 {
        self.max_edits
    }

    /// The cap of every state row: one more than the accepted distance.
    pub open spec fn dead(self) -> u16 {
        (self.spec_max_edits() + 1) as u16
    }

    /// Copies a bounded byte pattern and fixes its accepted edit distance.
    /// Whether the copy's storage can be reserved is the allocator's call.
    pub fn try_new(pattern: &[u8], max_edits: u8, max_pattern_bytes: usize) -> (result: Result<
        Self,
        LevenshteinError,
    >)
        ensures
            max_edits > MAX_EDIT_DISTANCE ==> result == Err::<Self, LevenshteinError>(
                LevenshteinError::UnsupportedDistance {
                    requested: max_edits,
                    maximum: MAX_EDIT_DISTANCE,
                },
            ),
            max_edits <= MAX_EDIT_DISTANCE && pattern.len() > max_pattern_bytes ==> result == Err::<
                Self,
                LevenshteinError,
            >(
                LevenshteinError::PatternLimitExceeded {
                    actual: pattern.len(),
                    limit: max_pattern_bytes,
                },
            ),
            max_edits <= MAX_EDIT_DISTANCE && pattern.len() <= max_pattern_bytes ==> match result {
                Ok(automaton) => automaton.spec_pattern() == pattern@ && automaton.spec_max_edits()
                    == max_edits,
                Err(error) => error == (LevenshteinError::AllocationFailed {
                    target: LevenshteinAllocation::Pattern,
                    requested: pattern.len(),
                }),
            },
    {
        if max_edits > MAX_EDIT_DISTANCE {
            return Err(
                LevenshteinError::UnsupportedDistance {
                    requested: max_edits,
                    maximum: MAX_EDIT_DISTANCE,
                },
            );
        }
        if pattern.len() > max_pattern_bytes {
            return Err(
                LevenshteinError::PatternLimitExceeded {
                    actual: pattern.len(),
                    limit: max_pattern_bytes,
                },
            );
        }
        let mut owned: Vec<u8> = Vec::new();
        if !try_reserve_exact(&mut owned, pattern.len()) {
            return Err(
                LevenshteinError::AllocationFailed {
                    target: LevenshteinAllocation::Pattern,
                    requested: pattern.len(),
                },
            );
        }
        let mut index: usize = 0;
        while index < pattern.len()
            invariant
                index <= pattern.len(),
                owned@ == pattern@.take(index as int),
            decreases pattern.len() - index,
        {
            owned.push(pattern[index]);
            index = index + 1;
            proof {
                assert(owned@ =~= pattern@.take(index as int));
            }
        }
        proof {
            assert(pattern@.take(pattern.len() as int) =~= pattern@);
        }
        Ok(LevenshteinAutomaton { pattern: owned, max_edits })
    }

    /// The exact byte pattern.
    pub fn pattern(&self) -> (pattern: &[u8])
        ensures
            pattern@ == self.spec_pattern(),
    {
        self.pattern.as_slice()
    }

    /// The fixed edit-distance ceiling.
    pub fn max_edits(&self) -> (max_edits: u8)
        ensures
            max_edits == self.spec_max_edits(),
            max_edits <= MAX_EDIT_DISTANCE,
    {
        proof {
            use_type_invariant(self);
        }
        self.max_edits
    }

    /// The state before any candidate byte is consumed.
    pub fn initial_state(&self) -> (result: Result<LevenshteinState<'_>, LevenshteinError>)
        ensures
            match result {
                Ok(state) => {
                    &&& state.owner() == *self
                    &&& state.row() == distance_row(self.spec_pattern(), Seq::empty(), self.dead())
                    &&& state.limit() == self.dead()
                },
                Err(error) => if self.spec_pattern().len() + 1 > usize::MAX {
                    error == LevenshteinError::StateLengthOverflow
                } else {
                    error == (LevenshteinError::AllocationFailed {
                        target: LevenshteinAllocation::State,
                        requested: (self.spec_pattern().len() + 1) as usize,
                    })
                },
            },
            self.spec_pattern().len() + 1 > usize::MAX ==> result == Err::<
                LevenshteinState<'_>,
                LevenshteinError,
            >(LevenshteinError::StateLengthOverflow),
    {
        proof {
            use_type_invariant(self);
        }
        let state_len = match self.pattern.len().checked_add(1) {
            Some(length) => length,
            None => return Err(LevenshteinError::StateLengthOverflow),
        };
        let mut distances = try_state_row(state_len)?;
        let dead: u16 = self.max_edits as u16 + 1;
        let ghost expected = distance_row(self.pattern@, Seq::empty(), dead);
        let mut distance: usize = 0;
        while distance < state_len
            invariant
                distance <= state_len,
                state_len == self.pattern@.len() + 1,
                dead == self.dead(),
                dead <= 3,
                expected == distance_row(self.pattern@, Seq::empty(), dead),
                distances@ == expected.take(distance as int),
            decreases state_len - distance,
        {
            proof {
                assert(edit_distance(self.pattern@.take(distance as int), Seq::empty())
                    == distance);
            }
            let value = if distance < dead as usize {
                distance as u16
            } else {
                dead
            };
            distances.push(value);
            distance = distance + 1;
            proof {
                assert(distances@ =~= expected.take(distance as int));
            }
        }
        proof {
            assert(expected.take(state_len as int) =~= expected);
            assert forall|j: int| 0 <= j < distances@.len() implies distances@[j] <= dead by {
                assert(edit_distance(self.pattern@.take(j), Seq::empty()) == j);
            }
        }
        Ok(LevenshteinState { owner: self, distances, maximum_relevant_distance: dead })
    }

    /// Advances `state` through one candidate byte.
    pub fn try_advance<'automaton>(
        &'automaton self,
        state: &LevenshteinState<'automaton>,
        candidate: u8,
    ) -> (result: Result<LevenshteinState<'automaton>, LevenshteinError>)
        ensures
            match result {
                Ok(next) => {
                    &&& state.owner() == *self
                    &&& next.owner() == *self
                    &&& next.row() == advanced_row(
                        self.spec_pattern(),
                        state.row(),
                        candidate,
                        self.dead(),
                    )
                },
                Err(error) => error == LevenshteinError::StateOwnerMismatch || error == (
                LevenshteinError::AllocationFailed {
                    target: LevenshteinAllocation::State,
                    requested: state.row().len() as usize,
                }),
            },
    {
        let expected = self.validate_state(state)?;
        let dead: u16 = self.max_edits as u16 + 1;
        let mut next = try_state_row(expected)?;
        advance_row(&self.pattern, &state.distances, &mut next, candidate, dead);
        Ok(LevenshteinState { owner: self, distances: next, maximum_relevant_distance: dead })
    }

    /// Advances through a compressed prefix or a complete key.
    pub fn try_advance_bytes<'automaton>(
        &'automaton self,
        state: &LevenshteinState<'automaton>,
        bytes: &[u8],
    ) -> (result: Result<LevenshteinState<'automaton>, LevenshteinError>)
        ensures
            match result {
                Ok(next) => {
                    &&& state.owner() == *self
                    &&& next.owner() == *self
                    &&& next.row() == advanced_through(
                        self.spec_pattern(),
                        state.row(),
                        bytes@,
                        self.dead(),
                    )
                },
                Err(error) => error == LevenshteinError::StateOwnerMismatch || error == (
                LevenshteinError::AllocationFailed {
                    target: LevenshteinAllocation::State,
                    requested: state.row().len() as usize,
                }),
            },
    {
        self.try_advance_parts(state, None, bytes)
    }

    /// Advances through one edge byte followed by a child's compressed
    /// prefix, without concatenating them.
    pub fn try_advance_edge_and_prefix<'automaton>(
        &'automaton self,
        state: &LevenshteinState<'automaton>,
        edge: u8,
        compressed_prefix: &[u8],
    ) -> (result: Result<LevenshteinState<'automaton>, LevenshteinError>)
        ensures
            match result {
                Ok(next) => {
                    &&& state.owner() == *self
                    &&& next.owner() == *self
                    &&& next.row() == advanced_through(
                        self.spec_pattern(),
                        state.row(),
                        seq![edge] + compressed_prefix@,
                        self.dead(),
                    )
                },
                Err(error) => error == LevenshteinError::StateOwnerMismatch || error == (
                LevenshteinError::AllocationFailed {
                    target: LevenshteinAllocation::State,
                    requested: state.row().len() as usize,
                }),
            },
    {
        self.try_advance_parts(state, Some(edge), compressed_prefix)
    }

    fn try_advance_parts<'automaton>(
        &'automaton self,
        state: &LevenshteinState<'automaton>,
        leading_edge: Option<u8>,
        bytes: &[u8],
    ) -> (result: Result<LevenshteinState<'automaton>, LevenshteinError>)
        ensures
            match result {
                Ok(next) => {
                    &&& state.owner() == *self
                    &&& next.owner() == *self
                    &&& next.row() == advanced_through(
                        self.spec_pattern(),
                        state.row(),
                        match leading_edge {
                            Some(edge) => seq![edge] + bytes@,
                            None => bytes@,
                        },
                        self.dead(),
                    )
                },
                Err(error) => error == LevenshteinError::StateOwnerMismatch || error == (
                LevenshteinError::AllocationFailed {
                    target: LevenshteinAllocation::State,
                    requested: state.row().len() as usize,
                }),
            },
    {
        let expected = self.validate_state(state)?;
        let mut current = try_state_row(expected)?;
        let mut index: usize = 0;
        while index < expected
            invariant
                expected == state.distances@.len(),
                index <= expected,
                current@ == state.distances@.take(index as int),
            decreases expected - index,
        {
            current.push(state.distances[index]);
            index = index + 1;
            proof {
                assert(current@ =~= state.distances@.take(index as int));
            }
        }
        proof {
            assert(state.distances@.take(expected as int) =~= state.distances@);
        }
        let mut next = try_state_row(expected)?;
        let dead: u16 = self.max_edits as u16 + 1;
        let ghost pattern = self.pattern@;
        let ghost start = state.distances@;
        let ghost all = match leading_edge {
            Some(edge) => seq![edge] + bytes@,
            None => bytes@,
        };
        let ghost offset: int = if leading_edge is Some {
            1
        } else {
            0
        };
        let mut alive = true;
        if let Some(edge) = leading_edge {
            alive = step_row(&self.pattern, &mut current, &mut next, edge, dead);
            proof {
                assert(all.take(1) =~= seq![edge]);
                assert(seq![edge].drop_last() =~= Seq::<u8>::empty());
                assert(advanced_through(pattern, start, Seq::<u8>::empty(), dead) == start);
            }
        }
        proof {
            if leading_edge is None {
                assert(all.take(0) =~= Seq::<u8>::empty());
            }
        }
        let mut position: usize = 0;
        while alive && position < bytes.len()
            invariant
                position <= bytes.len(),
                pattern == self.pattern@,
                all.len() == bytes@.len() + offset,
                forall|k: int| 0 <= k < bytes@.len() ==> all[k + offset] == bytes@[k],
                0 <= offset <= 1,
                next@.len() == 0,
                dead == self.dead(),
                1 <= dead <= 3,
                current@ == advanced_through(pattern, start, all.take(position + offset), dead),
                current@.len() == pattern.len() + 1,
                forall|j: int| 0 <= j < current@.len() ==> current@[j] <= dead,
                !alive ==> !row_alive(current@, dead),
            decreases bytes.len() - position,
        {
            let byte = bytes[position];
            alive = step_row(&self.pattern, &mut current, &mut next, byte, dead);
            position = position + 1;
            proof {
                let taken = all.take(position + offset);
                assert(taken.drop_last() =~= all.take(position - 1 + offset));
                assert(taken.last() == byte);
            }
        }
        proof {
            if position < bytes.len() {
                lemma_dead_row_through(pattern, current@, all.skip(position + offset), dead);
                lemma_advance_split(pattern, start, all.take(position + offset), all.skip(
                    position + offset,
                ), dead);
                assert(all.take(position + offset) + all.skip(position + offset) =~= all);
            } else {
                assert(all.take(position + offset) =~= all);
            }
        }
        Ok(LevenshteinState { owner: self, distances: current, maximum_relevant_distance: dead })
    }

    /// Whether the candidate consumed so far matches: its distance to the
    /// whole pattern is within the ceiling.
    pub fn is_match(&self, state: &LevenshteinState<'_>) -> (result: Result<bool, LevenshteinError>)
        ensures
            match result {
                Ok(matched) => {
                    &&& state.owner() == *self
                    &&& matched == (state.row().last() <= self.spec_max_edits())
                },
                Err(error) => error == LevenshteinError::StateOwnerMismatch,
            },
    {
        if !same_automaton(self, state.owner) {
            return Err(LevenshteinError::StateOwnerMismatch);
        }
        proof {
            use_type_invariant(state);
        }
        let last = state.distances[state.distances.len() - 1];
        Ok(last <= self.max_edits as u16)
    }

    fn validate_state(&self, state: &LevenshteinState<'_>) -> (result: Result<
        usize,
        LevenshteinError,
    >)
        ensures
            match result {
                Ok(expected) => {
                    &&& state.owner() == *self
                    &&& expected == self.spec_pattern().len() + 1
                    &&& expected == state.row().len()
                    &&& state.limit() == self.dead()
                    &&& self.spec_max_edits() <= MAX_EDIT_DISTANCE
                    &&& forall|j: int| 0 <= j < state.row().len() ==> state.row()[j] <= self.dead()
                },
                Err(error) => error == LevenshteinError::StateOwnerMismatch,
            },
    {
        if !same_automaton(self, state.owner) {
            return Err(LevenshteinError::StateOwnerMismatch);
        }
        proof {
            use_type_invariant(state);
            use_type_invariant(self);
        }
        let actual = state.distances.len();
        let expected = match self.pattern.len().checked_add(1) {
            Some(length) => length,
            None => return Err(LevenshteinError::StateLengthOverflow),
        };
        if state.distances.len() != expected {
            return Err(
                LevenshteinError::StateWidthMismatch {
                    expected,
                    actual,
                },
            );
        }
        Ok(expected)
    }
}

/// `core::ptr::eq`: whether two references point at one automaton. Two
/// references to one place denote one value; different places may still
/// hold equal automata, which this call tells apart.
#[verifier::external_body]
fn same_automaton(first: &LevenshteinAutomaton, second: &LevenshteinAutomaton) -> (same: bool)
    ensures
        same ==> *first == *second,
{
    core::ptr::eq(first, second)
}

/// An empty row with room for `state_len` entries, if the allocator grants
/// it.
fn try_state_row(state_len: usize) -> (result: Result<Vec<u16>, LevenshteinError>)
    ensures
        match result {
            Ok(row) => row@.len() == 0,
            Err(error) => error == (LevenshteinError::AllocationFailed {
                target: LevenshteinAllocation::State,
                requested: state_len,
            }),
        },
{
    let mut row: Vec<u16> = Vec::new();
    if !try_reserve_exact(&mut row, state_len) {
        return Err(
            LevenshteinError::AllocationFailed {
                target: LevenshteinAllocation::State,
                requested: state_len,
            },
        );
    }
    Ok(row)
}

fn smaller(a: u16, b: u16) -> (least: u16)
    ensures
        least == min_int(a as int, b as int),
{
    if a <= b {
        a
    } else {
        b
    }
}

/// Fills `next` with `current` advanced through one candidate byte.
fn advance_row(
    pattern: &Vec<u8>,
    current: &Vec<u16>,
    next: &mut Vec<u16>,
    candidate: u8,
    dead: u16,
)
    requires
        old(next)@.len() == 0,
        current@.len() == pattern@.len() + 1,
        forall|j: int| 0 <= j < current@.len() ==> current@[j] <= dead,
        1 <= dead <= 3,
    ensures
        final(next)@ == advanced_row(pattern@, current@, candidate, dead),
        forall|j: int| 0 <= j < final(next)@.len() ==> final(next)@[j] <= dead,
{
    next.push(smaller(current[0] + 1, dead));
    let mut pattern_index: usize = 0;
    while pattern_index < pattern.len()
        invariant
            pattern_index <= pattern@.len(),
            current@.len() == pattern@.len() + 1,
            forall|j: int| 0 <= j < current@.len() ==> current@[j] <= dead,
            1 <= dead <= 3,
            next@.len() == pattern_index + 1,
            forall|j: int|
                0 <= j <= pattern_index ==> next@[j] == advanced_cell(
                    pattern@,
                    current@,
                    candidate,
                    dead,
                    j,
                ),
            forall|j: int| 0 <= j <= pattern_index ==> next@[j] <= dead,
        decreases pattern@.len() - pattern_index,
    {
        let state_index = pattern_index + 1;
        let deletion = next[state_index - 1] + 1;
        let insertion = current[state_index] + 1;
        let substitution = current[state_index - 1] + if pattern[pattern_index] != candidate {
            1u16
        } else {
            0u16
        };
        next.push(smaller(smaller(smaller(deletion, insertion), substitution), dead));
        pattern_index = state_index;
    }
    proof {
        assert(next@ =~= advanced_row(pattern@, current@, candidate, dead));
    }
}

/// Advances `current` by one byte through the scratch row `next`, leaving
/// `next` empty; returns whether the new row can still reach a match.
fn step_row(
    pattern: &Vec<u8>,
    current: &mut Vec<u16>,
    next: &mut Vec<u16>,
    candidate: u8,
    dead: u16,
) -> (alive: bool)
    requires
        old(next)@.len() == 0,
        old(current)@.len() == pattern@.len() + 1,
        forall|j: int| 0 <= j < old(current)@.len() ==> old(current)@[j] <= dead,
        1 <= dead <= 3,
    ensures
        final(current)@ == advanced_row(pattern@, old(current)@, candidate, dead),
        final(current)@.len() == pattern@.len() + 1,
        forall|j: int| 0 <= j < final(current)@.len() ==> final(current)@[j] <= dead,
        final(next)@.len() == 0,
        alive == row_alive(final(current)@, dead),
{
    advance_row(pattern, current, next, candidate, dead);
    core::mem::swap(current, next);
    next.clear();
    row_can_match_descendant(current, dead)
}

fn row_can_match_descendant(row: &Vec<u16>, dead: u16) -> (alive: bool)
    ensures
        alive == row_alive(row@, dead),
{
    let mut index: usize = 0;
    while index < row.len()
        invariant
            index <= row@.len(),
            forall|j: int| 0 <= j < index ==> row@[j] >= dead,
        decreases row@.len() - index,
    {
        if row[index] < dead {
            return true;
        }
        index = index + 1;
    }
    false
}

/// One immutable automaton state along a path.
#[derive(Debug, Eq, PartialEq)]
pub struct LevenshteinState<'automaton> {
    owner: &'automaton LevenshteinAutomaton,
    distances: Vec<u16>,
    maximum_relevant_distance: u16,
}

impl<'automaton> LevenshteinState<'automaton> {
    #[verifier::type_invariant]
    closed spec fn consistent(self) -> bool {
        &&& self.owner.max_edits <= MAX_EDIT_DISTANCE
        &&& self.maximum_relevant_distance == self.owner.max_edits + 1
        &&& self.distances@.len() == self.owner.pattern@.len() + 1
        &&& forall|j: int|
            0 <= j < self.distances@.len() ==> self.distances@[j] <= self.maximum_relevant_distance
    }

    /// The automaton the state belongs to.
    pub closed spec fn owner(self) -> LevenshteinAutomaton {
        *self.owner
    }

    /// The distance row.
    pub closed spec fn row(self) -> Seq<u16> {
        self.distances@
    }

    /// The cap of the row.
    pub closed spec fn limit(self) -> u16 {
        self.maximum_relevant_distance
    }

    /// Whether extending the current key can still reach a match.
    pub fn can_match_descendant(&self) -> (alive: bool)
        ensures
            alive == row_alive(self.row(), self.limit()),
    {
        row_can_match_descendant(&self.distances, self.maximum_relevant_distance)
    }

    /// The complete-key edit distance, capped at `max_edits + 1`.
    pub fn terminal_distance(&self) -> (distance: Option<u16>)
        ensures
            distance == Some(self.row().last()),
    {
        proof {
            use_type_invariant(self);
        }
        Some(self.distances[self.distances.len() - 1])
    }

    /// Number of cells retained by this state.
    pub fn cell_count(&self) -> (count: usize)
        ensures
            count == self.row().len(),
    {
        self.distances.len()
    }
}

/// Capping at `dead` commutes with the three-way choice of one table
/// entry.
proof fn lemma_cell_step(pattern: Seq<u8>, candidate: Seq<u8>, byte: u8, dead: u16, j: int)
    requires
        1 <= dead,
        0 <= j <= pattern.len(),
    ensures
        advanced_cell(pattern, distance_row(pattern, candidate, dead), byte, dead, j) == min_int(
            edit_distance(pattern.take(j), candidate.push(byte)) as int,
            dead as int,
        ),
    decreases j,
{
    let extended = candidate.push(byte);
    assert(extended.drop_last() =~= candidate);
    assert(extended.last() == byte);
    if j == 0 {
        assert(pattern.take(0) =~= Seq::<u8>::empty());
    } else {
        lemma_cell_step(pattern, candidate, byte, dead, j - 1);
        let prefix = pattern.take(j);
        assert(prefix.drop_last() =~= pattern.take(j - 1));
        assert(prefix.last() == pattern[j - 1]);
    }
}

/// One more candidate byte turns the row of a candidate into the row of the
/// extended candidate.
pub proof fn lemma_advance_tracks_distance(
    pattern: Seq<u8>,
    candidate: Seq<u8>,
    byte: u8,
    dead: u16,
)
    requires
        1 <= dead,
    ensures
        advanced_row(pattern, distance_row(pattern, candidate, dead), byte, dead) == distance_row(
            pattern,
            candidate.push(byte),
            dead,
        ),
{
    let row = distance_row(pattern, candidate, dead);
    assert forall|j: int| 0 <= j < row.len() implies #[trigger] advanced_row(
        pattern,
        row,
        byte,
        dead,
    )[j] == distance_row(pattern, candidate.push(byte), dead)[j] by {
        lemma_cell_step(pattern, candidate, byte, dead, j);
    }
    assert(advanced_row(pattern, row, byte, dead) =~= distance_row(
        pattern,
        candidate.push(byte),
        dead,
    ));
}

/// Advancing through bytes turns the row of a candidate into the row of the
/// candidate followed by those bytes.
pub proof fn lemma_advance_through_tracks_distance(
    pattern: Seq<u8>,
    candidate: Seq<u8>,
    bytes: Seq<u8>,
    dead: u16,
)
    requires
        1 <= dead,
    ensures
        advanced_through(pattern, distance_row(pattern, candidate, dead), bytes, dead)
            == distance_row(pattern, candidate + bytes, dead),
    decreases bytes.len(),
{
    if bytes.len() == 0 {
        assert(candidate + bytes =~= candidate);
    } else {
        lemma_advance_through_tracks_distance(pattern, candidate, bytes.drop_last(), dead);
        lemma_advance_tracks_distance(pattern, candidate + bytes.drop_last(), bytes.last(), dead);
        assert((candidate + bytes.drop_last()).push(bytes.last()) =~= candidate + bytes);
    }
}

/// A key matches exactly when its edit distance to the pattern is within
/// the ceiling: the last entry of the row reached from the initial state
/// through the key is at most `max_edits` just then.
pub proof fn lemma_match_iff_within_distance(pattern: Seq<u8>, key: Seq<u8>, max_edits: u8)
    requires
        max_edits <= MAX_EDIT_DISTANCE,
    ensures
        (advanced_through(
            pattern,
            distance_row(pattern, Seq::empty(), (max_edits + 1) as u16),
            key,
            (max_edits + 1) as u16,
        ).last() <= max_edits) == (edit_distance(pattern, key) <= max_edits),
{
    let dead = (max_edits + 1) as u16;
    lemma_advance_through_tracks_distance(pattern, Seq::empty(), key, dead);
    assert(Seq::<u8>::empty() + key =~= key);
    assert(pattern.take(pattern.len() as int) =~= pattern);
}

/// Advancing through two byte strings in turn is advancing through their
/// concatenation.
pub proof fn lemma_advance_split(
    pattern: Seq<u8>,
    row: Seq<u16>,
    first: Seq<u8>,
    second: Seq<u8>,
    dead: u16,
)
    ensures
        advanced_through(pattern, advanced_through(pattern, row, first, dead), second, dead)
            == advanced_through(pattern, row, first + second, dead),
    decreases second.len(),
{
    if second.len() == 0 {
        assert(first + second =~= first);
    } else {
        lemma_advance_split(pattern, row, first, second.drop_last(), dead);
        assert((first + second).drop_last() =~= first + second.drop_last());
        assert((first + second).last() == second.last());
    }
}

proof fn lemma_cell_nonnegative(pattern: Seq<u8>, row: Seq<u16>, candidate: u8, dead: u16, j: int)
    ensures
        0 <= advanced_cell(pattern, row, candidate, dead, j) <= dead,
    decreases j,
{
    if j > 0 {
        lemma_cell_nonnegative(pattern, row, candidate, dead, j - 1);
    }
}

/// Following the pattern from entry `j` keeps the diagonal entry no larger
/// than it was: after the next `t` pattern bytes, entry `j + t` is at most
/// entry `j` of the starting row.
proof fn lemma_diagonal(pattern: Seq<u8>, row: Seq<u16>, dead: u16, j: int, t: int)
    requires
        row.len() == pattern.len() + 1,
        0 <= j,
        0 <= t,
        j + t <= pattern.len(),
    ensures
        advanced_through(pattern, row, pattern.subrange(j, j + t), dead).len() == row.len(),
        advanced_through(pattern, row, pattern.subrange(j, j + t), dead)[j + t] <= row[j],
    decreases t,
{
    let bytes = pattern.subrange(j, j + t);
    if t > 0 {
        lemma_diagonal(pattern, row, dead, j, t - 1);
        assert(bytes.drop_last() =~= pattern.subrange(j, j + t - 1));
        assert(bytes.last() == pattern[j + t - 1]);
        let previous = advanced_through(pattern, row, pattern.subrange(j, j + t - 1), dead);
        lemma_cell_nonnegative(pattern, previous, pattern[j + t - 1], dead, j + t);
        assert(advanced_cell(pattern, previous, pattern[j + t - 1], dead, j + t) <= previous[j + t - 1]);
    } else {
        assert(bytes =~= Seq::<u8>::empty());
    }
}

/// Completeness of pruning: a row with an entry below the cap can still
/// reach a match, by reading the rest of the pattern from that entry on.
pub proof fn lemma_alive_row_reaches_match(pattern: Seq<u8>, row: Seq<u16>, dead: u16)
    requires
        row.len() == pattern.len() + 1,
        row_alive(row, dead),
    ensures
        exists|bytes: Seq<u8>|
            #![trigger advanced_through(pattern, row, bytes, dead)]
            advanced_through(pattern, row, bytes, dead).len() == row.len()
                && advanced_through(pattern, row, bytes, dead).last() < dead,
{
    let j = choose|j: int| 0 <= j < row.len() && row[j] < dead;
    let t = pattern.len() - j;
    lemma_diagonal(pattern, row, dead, j, t);
    let bytes = pattern.subrange(j, j + t);
    assert(advanced_through(pattern, row, bytes, dead).last() < dead);
}

/// A row with no entry below the cap stays the same through any bytes: a
/// dead state prunes every descendant.
pub proof fn lemma_dead_row_through(pattern: Seq<u8>, row: Seq<u16>, bytes: Seq<u8>, dead: u16)
    requires
        row.len() == pattern.len() + 1,
        forall|j: int| 0 <= j < row.len() ==> row[j] <= dead,
        !row_alive(row, dead),
    ensures
        advanced_through(pattern, row, bytes, dead) == row,
    decreases bytes.len(),
{
    if bytes.len() > 0 {
        lemma_dead_row_through(pattern, row, bytes.drop_last(), dead);
        lemma_dead_row_step(pattern, row, bytes.last(), dead);
    }
}

proof fn lemma_dead_row_step(pattern: Seq<u8>, row: Seq<u16>, byte: u8, dead: u16)
    requires
        row.len() == pattern.len() + 1,
        forall|j: int| 0 <= j < row.len() ==> row[j] <= dead,
        !row_alive(row, dead),
    ensures
        advanced_row(pattern, row, byte, dead) == row,
{
    assert forall|j: int| 0 <= j < row.len() implies advanced_cell(pattern, row, byte, dead, j)
        == dead by {
        lemma_dead_cell(pattern, row, byte, dead, j);
    }
    assert(advanced_row(pattern, row, byte, dead) =~= row);
}

proof fn lemma_dead_cell(pattern: Seq<u8>, row: Seq<u16>, byte: u8, dead: u16, j: int)
    requires
        row.len() == pattern.len() + 1,
        0 <= j < row.len(),
        forall|k: int| 0 <= k < row.len() ==> row[k] <= dead,
        !row_alive(row, dead),
    ensures
        advanced_cell(pattern, row, byte, dead, j) == dead,
    decreases j,
{
    assert(row[j] >= dead);
    if j > 0 {
        lemma_dead_cell(pattern, row, byte, dead, j - 1);
        assert(row[j - 1] >= dead);
    }
}

/// The `Debug` name of an allocation target.
pub open spec fn allocation_name(target: LevenshteinAllocation) -> Seq<char> {
    match target {
        LevenshteinAllocation::Pattern => "Pattern"@,
        LevenshteinAllocation::State => "State"@,
    }
}

/// Diagnostic text of an automaton failure.
pub open spec fn levenshtein_error_text(error: LevenshteinError) -> Seq<char> {
    match error {
        LevenshteinError::UnsupportedDistance { requested, maximum } => "Levenshtein distance "@
            + decimal(requested as nat) + " exceeds supported maximum "@ + decimal(maximum as nat),
        LevenshteinError::PatternLimitExceeded { actual, limit } => "Levenshtein pattern has "@
            + decimal(actual as nat) + " bytes, limit is "@ + decimal(limit as nat),
        LevenshteinError::StateLengthOverflow => "Levenshtein state-row length overflows usize"@,
        LevenshteinError::AllocationFailed { target, requested } => "could not reserve "@ + decimal(
            requested as nat,
        ) + " entries for Levenshtein "@ + allocation_name(target),
        LevenshteinError::StateOwnerMismatch => "Levenshtein state belongs to another automaton"@,
        LevenshteinError::StateWidthMismatch { expected, actual } => "Levenshtein state has "@
            + decimal(actual as nat) + " entries, expected "@ + decimal(expected as nat),
    }
}

impl LevenshteinError {
    /// Human-readable diagnostic.
    pub fn message(&self) -> (text: String)
        ensures
            text@ == levenshtein_error_text(*self),
    {
        match *self {
            LevenshteinError::UnsupportedDistance { requested, maximum } => {
                let mut out = "Levenshtein distance ".to_owned();
                push_decimal(&mut out, requested as u64);
                push_text(&mut out, " exceeds supported maximum ");
                push_decimal(&mut out, maximum as u64);
                out
            },
            LevenshteinError::PatternLimitExceeded { actual, limit } => {
                let mut out = "Levenshtein pattern has ".to_owned();
                push_decimal(&mut out, actual as u64);
                push_text(&mut out, " bytes, limit is ");
                push_decimal(&mut out, limit as u64);
                out
            },
            LevenshteinError::StateLengthOverflow => "Levenshtein state-row length overflows usize".to_owned(),
            LevenshteinError::AllocationFailed { target, requested } => {
                let mut out = "could not reserve ".to_owned();
                push_decimal(&mut out, requested as u64);
                push_text(&mut out, " entries for Levenshtein ");
                match target {
                    LevenshteinAllocation::Pattern => push_text(&mut out, "Pattern"),
                    LevenshteinAllocation::State => push_text(&mut out, "State"),
                }
                out
            },
            LevenshteinError::StateOwnerMismatch => "Levenshtein state belongs to another automaton".to_owned(),
            LevenshteinError::StateWidthMismatch { expected, actual } => {
                let mut out = "Levenshtein state has ".to_owned();
                push_decimal(&mut out, actual as u64);
                push_text(&mut out, " entries, expected ");
                push_decimal(&mut out, expected as u64);
                out
            },
        }
    }
}

} // verus!
