//! Canonical bounded byte zone maps.
//!
//! A zone map retains only the lexicographic extrema and observation count of
//! a byte-valued zone. It is an advisory pruning summary, not an exact set:
//! [`ByteZoneMap::may_contain`] can rule values out but cannot prove that an
//! interior value exists.

use vstd::prelude::*;
use crate::text::{decimal, push_decimal, push_text};
use crate::codec::{bytes_equal, extend_bytes};
use crate::lex::{lex_lt, lex_le, lex_less, lemma_lex_asymmetric, lemma_lex_total, lemma_lex_transitive};

verus! {

/// Complete resource and merge profile for a byte zone map.
#[derive(Clone, Copy, Debug, Eq, Hash, PartialEq, Structural)]
pub struct ZoneMapProfile {
    /// Maximum bytes accepted in one observed value.
    pub max_value_bytes: usize,
    /// Maximum number of observations represented by one map.
    pub max_observations: u64,
}

/// Endpoint whose exact post-delete replacement is unknowable.
#[derive(Clone, Copy, Debug, Eq, PartialEq, Structural)]
pub enum ZoneMapEndpoint {
    Minimum,
    Maximum,
}

/// Endpoint allocation named by a fallible copy.
#[derive(Clone, Copy, Debug, Eq, PartialEq, Structural)]
pub enum ZoneMapAllocation {
    Minimum,
    Maximum,
}

/// Typed construction or state-transition failure.
#[derive(Clone, Copy, Debug, Eq, PartialEq, Structural)]
pub enum ZoneMapError {
    /// An observed value exceeds the profile's byte ceiling.
    ValueLimitExceeded { actual: usize, limit: usize },
    /// An observation or merge exceeds the profile's count ceiling.
    ObservationLimitExceeded { maximum: u64 },
    /// Adding observation counts overflowed `u64`.
    CountOverflow,
    /// The allocator rejected a checked endpoint reservation.
    AllocationFailed { endpoint: ZoneMapAllocation, requested_bytes: usize },
    /// Merge operands use different complete profiles.
    ProfileMismatch { left: ZoneMapProfile, right: ZoneMapProfile },
    /// No represented observation can equal the requested value.
    MissingObservation,
    /// Deleting an extremum would require information the summary does not
    /// retain. The map remains unchanged and must be rebuilt from source data.
    RebuildRequired { endpoint: ZoneMapEndpoint, count: u64 },
    /// Private count/extrema state was internally inconsistent.
    InvariantViolation,
}

/// Borrowed canonical logical state.
#[derive(Clone, Copy, Debug, Eq, PartialEq)]
pub struct ZoneMapState<'map> {
    pub profile: ZoneMapProfile,
    pub count: u64,
    pub minimum: Option<&'map [u8]>,
    pub maximum: Option<&'map [u8]>,
}

/// The lesser of two optional endpoints; an absent endpoint yields to a
/// present one.
pub open spec fn lower_of(a: Option<Seq<u8>>, b: Option<Seq<u8>>) -> Option<Seq<u8>> {
    match (a, b) {
        (None, _) => b,
        (_, None) => a,
        (Some(x), Some(y)) => if lex_lt(y, x) {
            Some(y)
        } else {
            Some(x)
        },
    }
}

/// The greater of two optional endpoints; an absent endpoint yields to a
/// present one.
pub open spec fn upper_of(a: Option<Seq<u8>>, b: Option<Seq<u8>>) -> Option<Seq<u8>> {
    match (a, b) {
        (None, _) => b,
        (_, None) => a,
        (Some(x), Some(y)) => if lex_lt(x, y) {
            Some(y)
        } else {
            Some(x)
        },
    }
}

/// `value` lies within the inclusive interval of two present endpoints.
pub open spec fn within(minimum: Option<Seq<u8>>, maximum: Option<Seq<u8>>, value: Seq<u8>) -> bool {
    match (minimum, maximum) {
        (Some(lo), Some(hi)) => lex_le(lo, value) && lex_le(value, hi),
        _ => false,
    }
}

/// Least value of a sequence of observations.
pub open spec fn fold_lower(values: Seq<Seq<u8>>) -> Option<Seq<u8>>
    decreases values.len(),
{
    if values.len() == 0 {
        None
    } else {
        lower_of(fold_lower(values.drop_last()), Some(values.last()))
    }
}

/// Greatest value of a sequence of observations.
pub open spec fn fold_upper(values: Seq<Seq<u8>>) -> Option<Seq<u8>>
    decreases values.len(),
{
    if values.len() == 0 {
        None
    } else {
        upper_of(fold_upper(values.drop_last()), Some(values.last()))
    }
}

/// Combining lower endpoints is commutative.
pub proof fn law_lower_commutes(a: Option<Seq<u8>>, b: Option<Seq<u8>>)
    ensures
        lower_of(a, b) == lower_of(b, a),
{
    if let (Some(x), Some(y)) = (a, b) {
        lemma_lex_asymmetric(x, y);
        lemma_lex_total(x, y);
    }
}

/// Combining upper endpoints is commutative.
pub proof fn law_upper_commutes(a: Option<Seq<u8>>, b: Option<Seq<u8>>)
    ensures
        upper_of(a, b) == upper_of(b, a),
{
    if let (Some(x), Some(y)) = (a, b) {
        lemma_lex_asymmetric(x, y);
        lemma_lex_total(x, y);
    }
}

/// Combining lower endpoints is associative.
pub proof fn law_lower_associates(a: Option<Seq<u8>>, b: Option<Seq<u8>>, c: Option<Seq<u8>>)
    ensures
        lower_of(lower_of(a, b), c) == lower_of(a, lower_of(b, c)),
{
    if let (Some(x), Some(y), Some(z)) = (a, b, c) {
        lemma_lex_asymmetric(x, y);
        lemma_lex_asymmetric(y, z);
        lemma_lex_asymmetric(x, z);
        lemma_lex_total(x, y);
        lemma_lex_total(y, z);
        lemma_lex_total(x, z);
        if lex_lt(z, y) && lex_lt(y, x) {
            lemma_lex_transitive(z, y, x);
        }
        if lex_lt(y, z) && lex_lt(z, x) {
            lemma_lex_transitive(y, z, x);
        }
        if lex_lt(x, y) && lex_lt(y, z) {
            lemma_lex_transitive(x, y, z);
        }
        if lex_lt(x, z) && lex_lt(z, y) {
            lemma_lex_transitive(x, z, y);
        }
        if lex_lt(y, x) && lex_lt(x, z) {
            lemma_lex_transitive(y, x, z);
        }
        if lex_lt(z, x) && lex_lt(x, y) {
            lemma_lex_transitive(z, x, y);
        }
    }
}

/// Combining upper endpoints is associative.
pub proof fn law_upper_associates(a: Option<Seq<u8>>, b: Option<Seq<u8>>, c: Option<Seq<u8>>)
    ensures
        upper_of(upper_of(a, b), c) == upper_of(a, upper_of(b, c)),
{
    if let (Some(x), Some(y), Some(z)) = (a, b, c) {
        lemma_lex_asymmetric(x, y);
        lemma_lex_asymmetric(y, z);
        lemma_lex_asymmetric(x, z);
        lemma_lex_total(x, y);
        lemma_lex_total(y, z);
        lemma_lex_total(x, z);
        if lex_lt(z, y) && lex_lt(y, x) {
            lemma_lex_transitive(z, y, x);
        }
        if lex_lt(y, z) && lex_lt(z, x) {
            lemma_lex_transitive(y, z, x);
        }
        if lex_lt(x, y) && lex_lt(y, z) {
            lemma_lex_transitive(x, y, z);
        }
        if lex_lt(x, z) && lex_lt(z, y) {
            lemma_lex_transitive(x, z, y);
        }
        if lex_lt(y, x) && lex_lt(x, z) {
            lemma_lex_transitive(y, x, z);
        }
        if lex_lt(z, x) && lex_lt(x, y) {
            lemma_lex_transitive(z, x, y);
        }
    }
}

/// Pruning is sound: the extrema of any sequence of observations enclose
/// every observed value, so a value outside them was never observed.
pub proof fn law_observations_within_extrema(values: Seq<Seq<u8>>)
    ensures
        forall|i: int| 0 <= i < values.len() ==> within(fold_lower(values), fold_upper(values), #[trigger] values[i]),
    decreases values.len(),
{
    if values.len() > 0 {
        let prefix = values.drop_last();
        let v = values.last();
        law_observations_within_extrema(prefix);
        lemma_lex_asymmetric(v, v);
        assert forall|i: int| 0 <= i < values.len() implies within(
            fold_lower(values),
            fold_upper(values),
            #[trigger] values[i],
        ) by {
            let lo = fold_lower(values)->0;
            let hi = fold_upper(values)->0;
            if i < values.len() - 1 {
                assert(values[i] == prefix[i]);
                let plo = fold_lower(prefix)->0;
                let phi = fold_upper(prefix)->0;
                assert(within(fold_lower(prefix), fold_upper(prefix), prefix[i]));
                lemma_lex_asymmetric(v, plo);
                lemma_lex_asymmetric(phi, v);
                if lex_lt(values[i], lo) {
                    if lex_lt(v, plo) {
                        lemma_lex_transitive(values[i], v, plo);
                    }
                }
                if lex_lt(hi, values[i]) {
                    if lex_lt(phi, v) {
                        lemma_lex_transitive(phi, v, values[i]);
                    }
                }
            } else {
                if fold_lower(prefix) is Some {
                    let plo = fold_lower(prefix)->0;
                    let phi = fold_upper(prefix)->0;
                    lemma_lex_asymmetric(v, plo);
                    lemma_lex_asymmetric(phi, v);
                    lemma_lex_total(v, plo);
                    lemma_lex_total(phi, v);
                }
            }
        }
    }
}

proof fn lemma_folds_present(values: Seq<Seq<u8>>)
    ensures
        (fold_lower(values) is Some) == (values.len() > 0),
        (fold_upper(values) is Some) == (values.len() > 0),
    decreases values.len(),
{
    if values.len() > 0 {
        lemma_folds_present(values.drop_last());
    }
}

fn try_copy_endpoint(value: &[u8], endpoint: ZoneMapAllocation) -> (result: Result<Vec<u8>, ZoneMapError>)
    ensures
        match result {
            Ok(copy) => copy@ == value@,
            Err(e) => e == ZoneMapError::AllocationFailed { endpoint, requested_bytes: value@.len() as usize },
        },
{
    let mut owned: Vec<u8> = Vec::new();
    match owned.try_reserve(value.len()) {
        Ok(()) => {},
        Err(_) => {
            return Err(ZoneMapError::AllocationFailed { endpoint, requested_bytes: value.len() });
        },
    }
    extend_bytes(&mut owned, value);
    Ok(owned)
}

/// View of an optional owned endpoint.
pub open spec fn endpoint_view(endpoint: Option<Vec<u8>>) -> Option<Seq<u8>> {
    match endpoint {
        Some(v) => Some(v@),
        None => None,
    }
}

/// Mergeable lexicographic extrema over bounded owned byte values.
#[derive(Debug, Eq, PartialEq)]
pub struct ByteZoneMap {
    profile: ZoneMapProfile,
    count: u64,
    minimum: Option<Vec<u8>>,
    maximum: Option<Vec<u8>>,
}

impl Clone for ByteZoneMap {
    fn clone(&self) -> (copy: Self)
        ensures
            copy.spec_profile() == self.spec_profile(),
            copy.spec_count() == self.spec_count(),
            copy.spec_minimum() == self.spec_minimum(),
            copy.spec_maximum() == self.spec_maximum(),
    {
        proof {
            use_type_invariant(self);
        }
        let minimum = match &self.minimum {
            Some(v) => Some(copy_vec(v)),
            None => None,
        };
        let maximum = match &self.maximum {
            Some(v) => Some(copy_vec(v)),
            None => None,
        };
        ByteZoneMap { profile: self.profile, count: self.count, minimum, maximum }
    }
}

fn copy_vec(v: &Vec<u8>) -> (copy: Vec<u8>)
    ensures
        copy@ == v@,
{
    let mut copy: Vec<u8> = Vec::new();
    extend_bytes(&mut copy, v.as_slice());
    copy
}

impl ByteZoneMap {
    #[verifier::type_invariant]
    spec fn well_formed(self) -> bool {
        &&& (self.count == 0) == (self.minimum is None)
        &&& (self.minimum is None) == (self.maximum is None)
        &&& self.count <= self.profile.max_observations
        &&& (self.count > 0 ==> lex_le(self.minimum->0@, self.maximum->0@))
    }

    /// The complete merge and resource profile.
    pub closed spec fn spec_profile(self) -> ZoneMapProfile {
        self.profile
    }

    /// The represented observation count.
    pub closed spec fn spec_count(self) -> u64 {
        self.count
    }

    /// The least observed bytes, if any.
    pub closed spec fn spec_minimum(self) -> Option<Seq<u8>> {
        endpoint_view(self.minimum)
    }

    /// The greatest observed bytes, if any.
    pub closed spec fn spec_maximum(self) -> Option<Seq<u8>> {
        endpoint_view(self.maximum)
    }

    /// A map is empty exactly when it has no extrema, never exceeds its
    /// ceiling, and its minimum never sorts after its maximum.
    pub fn lemma_consistent(&self)
        ensures
            (self.spec_count() == 0) == (self.spec_minimum() is None),
            (self.spec_minimum() is None) == (self.spec_maximum() is None),
            self.spec_count() <= self.spec_profile().max_observations,
            self.spec_count() > 0 ==> lex_le(self.spec_minimum()->0, self.spec_maximum()->0),
    {
        proof {
            use_type_invariant(self);
        }
    }

    /// Creates an empty map without allocating.
    pub fn new(profile: ZoneMapProfile) -> (map: Self)
        ensures
            map.spec_profile() == profile,
            map.spec_count() == 0,
            map.spec_minimum() is None,
            map.spec_maximum() is None,
    {
        ByteZoneMap { profile, count: 0, minimum: None, maximum: None }
    }

    /// Returns the complete merge and resource profile.
    pub fn profile(&self) -> (profile: ZoneMapProfile)
        ensures
            profile == self.spec_profile(),
    {
        self.profile
    }

    /// Returns the represented observation count.
    pub fn len(&self) -> (count: u64)
        ensures
            count == self.spec_count(),
    {
        self.count
    }

    /// Returns whether no observations are represented.
    pub fn is_empty(&self) -> (empty: bool)
        ensures
            empty == (self.spec_count() == 0),
    {
        self.count == 0
    }

    /// Returns the lexicographically least observed bytes.
    pub fn minimum(&self) -> (minimum: Option<&[u8]>)
        ensures
            match minimum {
                Some(m) => self.spec_minimum() == Some(m@),
                None => self.spec_minimum() is None,
            },
    {
        match &self.minimum {
            Some(v) => Some(v.as_slice()),
            None => None,
        }
    }

    /// Returns the lexicographically greatest observed bytes.
    pub fn maximum(&self) -> (maximum: Option<&[u8]>)
        ensures
            match maximum {
                Some(m) => self.spec_maximum() == Some(m@),
                None => self.spec_maximum() is None,
            },
    {
        match &self.maximum {
            Some(v) => Some(v.as_slice()),
            None => None,
        }
    }

    /// Returns the canonical logical state.
    pub fn canonical_state(&self) -> (state: ZoneMapState<'_>)
        ensures
            state.profile == self.spec_profile(),
            state.count == self.spec_count(),
            match state.minimum {
                Some(m) => self.spec_minimum() == Some(m@),
                None => self.spec_minimum() is None,
            },
            match state.maximum {
                Some(m) => self.spec_maximum() == Some(m@),
                None => self.spec_maximum() is None,
            },
    {
        ZoneMapState { profile: self.profile, count: self.count, minimum: self.minimum(), maximum: self.maximum() }
    }

    /// Adds one observation after preflighting every allocation and count
    /// transition. Failure leaves the map unchanged.
    ///
    /// An endpoint copy can be refused by the allocator; when the value
    /// replaces no endpoint, nothing is copied and the observation succeeds.
    pub fn try_observe(&mut self, value: &[u8]) -> (result: Result<(), ZoneMapError>)
        ensures
            value@.len() > old(self).spec_profile().max_value_bytes ==> result == Err::<(), ZoneMapError>(
                ZoneMapError::ValueLimitExceeded {
                    actual: value@.len() as usize,
                    limit: old(self).spec_profile().max_value_bytes,
                },
            ),
            value@.len() <= old(self).spec_profile().max_value_bytes && old(self).spec_count() == u64::MAX ==> result
                == Err::<(), ZoneMapError>(ZoneMapError::CountOverflow),
            value@.len() <= old(self).spec_profile().max_value_bytes && old(self).spec_count() < u64::MAX && old(self).spec_count() + 1 > old(self).spec_profile().max_observations ==> result == Err::<(), ZoneMapError>(
                ZoneMapError::ObservationLimitExceeded { maximum: old(self).spec_profile().max_observations },
            ),
            value@.len() <= old(self).spec_profile().max_value_bytes && old(self).spec_count() + 1 <= old(self).spec_profile().max_observations ==> {
                &&& (lower_of(old(self).spec_minimum(), Some(value@)) == old(self).spec_minimum() && upper_of(
                    old(self).spec_maximum(),
                    Some(value@),
                ) == old(self).spec_maximum()) ==> result is Ok
                &&& match result {
                    Ok(()) => {
                        &&& final(self).spec_profile() == old(self).spec_profile()
                        &&& final(self).spec_count() == old(self).spec_count() + 1
                        &&& final(self).spec_minimum() == lower_of(old(self).spec_minimum(), Some(value@))
                        &&& final(self).spec_maximum() == upper_of(old(self).spec_maximum(), Some(value@))
                    },
                    Err(e) => e is AllocationFailed,
                }
            },
            result is Err ==> *final(self) == *old(self),
    {
        proof {
            use_type_invariant(&*self);
        }
        if value.len() > self.profile.max_value_bytes {
            return Err(
                ZoneMapError::ValueLimitExceeded { actual: value.len(), limit: self.profile.max_value_bytes },
            );
        }
        let next_count = match self.checked_combined_count(1) {
            Ok(c) => c,
            Err(e) => {
                return Err(e);
            },
        };
        if self.count == 0 {
            let minimum = match try_copy_endpoint(value, ZoneMapAllocation::Minimum) {
                Ok(v) => v,
                Err(e) => {
                    return Err(e);
                },
            };
            let maximum = match try_copy_endpoint(value, ZoneMapAllocation::Maximum) {
                Ok(v) => v,
                Err(e) => {
                    return Err(e);
                },
            };
            proof {
                lemma_lex_asymmetric(value@, value@);
            }
            *self = ByteZoneMap {
                profile: self.profile,
                count: next_count,
                minimum: Some(minimum),
                maximum: Some(maximum),
            };
            return Ok(());
        }
        let (current_minimum, current_maximum) = match (&self.minimum, &self.maximum) {
            (Some(lo), Some(hi)) => (lo, hi),
            _ => {
                return Err(ZoneMapError::InvariantViolation);
            },
        };
        let below = lex_less(value, current_minimum.as_slice());
        let above = lex_less(current_maximum.as_slice(), value);
        proof {
            lemma_lex_asymmetric(value@, value@);
            lemma_lex_asymmetric(current_minimum@, current_minimum@);
            lemma_lex_asymmetric(current_maximum@, current_maximum@);
        }
        let next_minimum = if below {
            match try_copy_endpoint(value, ZoneMapAllocation::Minimum) {
                Ok(v) => v,
                Err(e) => {
                    return Err(e);
                },
            }
        } else {
            copy_vec(current_minimum)
        };
        let next_maximum = if above {
            match try_copy_endpoint(value, ZoneMapAllocation::Maximum) {
                Ok(v) => v,
                Err(e) => {
                    return Err(e);
                },
            }
        } else {
            copy_vec(current_maximum)
        };
        proof {
            lemma_lex_asymmetric(value@, value@);
        }
        *self = ByteZoneMap {
            profile: self.profile,
            count: next_count,
            minimum: Some(next_minimum),
            maximum: Some(next_maximum),
        };
        Ok(())
    }

    /// Merges another map with the identical complete profile.
    ///
    /// Both replacement extrema and the resulting count are prepared before
    /// mutation, making profile, limit, and allocation failures atomic.
    pub fn try_merge(&mut self, other: &Self) -> (result: Result<(), ZoneMapError>)
        ensures
            old(self).spec_profile() != other.spec_profile() ==> result == Err::<(), ZoneMapError>(
                ZoneMapError::ProfileMismatch { left: old(self).spec_profile(), right: other.spec_profile() },
            ),
            old(self).spec_profile() == other.spec_profile() && other.spec_count() == 0 ==> result is Ok,
            old(self).spec_profile() == other.spec_profile() && other.spec_count() > 0 && old(self).spec_count()
                + other.spec_count() > u64::MAX ==> result == Err::<(), ZoneMapError>(ZoneMapError::CountOverflow),
            old(self).spec_profile() == other.spec_profile() && other.spec_count() > 0 && old(self).spec_count()
                + other.spec_count() <= u64::MAX && old(self).spec_count() + other.spec_count() > old(self).spec_profile().max_observations ==> result == Err::<(), ZoneMapError>(
                ZoneMapError::ObservationLimitExceeded { maximum: old(self).spec_profile().max_observations },
            ),
            old(self).spec_profile() == other.spec_profile() && old(self).spec_count() + other.spec_count() <= old(self).spec_profile().max_observations ==> {
                &&& (lower_of(old(self).spec_minimum(), other.spec_minimum()) == old(self).spec_minimum() && upper_of(
                    old(self).spec_maximum(),
                    other.spec_maximum(),
                ) == old(self).spec_maximum()) ==> result is Ok
                &&& match result {
                    Ok(()) => {
                        &&& final(self).spec_profile() == old(self).spec_profile()
                        &&& final(self).spec_count() == old(self).spec_count() + other.spec_count()
                        &&& final(self).spec_minimum() == lower_of(old(self).spec_minimum(), other.spec_minimum())
                        &&& final(self).spec_maximum() == upper_of(old(self).spec_maximum(), other.spec_maximum())
                    },
                    Err(e) => e is AllocationFailed,
                }
            },
            result is Err ==> *final(self) == *old(self),
            other.spec_count() == 0 && result is Ok ==> *final(self) == *old(self),
    {
        proof {
            use_type_invariant(&*self);
            use_type_invariant(other);
        }
        if self.profile != other.profile {
            return Err(ZoneMapError::ProfileMismatch { left: self.profile, right: other.profile });
        }
        if other.count == 0 {
            return Ok(());
        }
        let next_count = match self.checked_combined_count(other.count) {
            Ok(c) => c,
            Err(e) => {
                return Err(e);
            },
        };
        let (other_minimum, other_maximum) = match (&other.minimum, &other.maximum) {
            (Some(lo), Some(hi)) => (lo, hi),
            _ => {
                return Err(ZoneMapError::InvariantViolation);
            },
        };
        let replace_minimum = match &self.minimum {
            Some(m) => lex_less(other_minimum.as_slice(), m.as_slice()),
            None => true,
        };
        let replace_maximum = match &self.maximum {
            Some(m) => lex_less(m.as_slice(), other_maximum.as_slice()),
            None => true,
        };
        proof {
            lemma_lex_asymmetric(other_minimum@, other_minimum@);
            lemma_lex_asymmetric(other_maximum@, other_maximum@);
        }
        let next_minimum = if replace_minimum {
            match try_copy_endpoint(other_minimum.as_slice(), ZoneMapAllocation::Minimum) {
                Ok(v) => Some(v),
                Err(e) => {
                    return Err(e);
                },
            }
        } else {
            match &self.minimum {
                Some(m) => Some(copy_vec(m)),
                None => None,
            }
        };
        let next_maximum = if replace_maximum {
            match try_copy_endpoint(other_maximum.as_slice(), ZoneMapAllocation::Maximum) {
                Ok(v) => Some(v),
                Err(e) => {
                    return Err(e);
                },
            }
        } else {
            match &self.maximum {
                Some(m) => Some(copy_vec(m)),
                None => None,
            }
        };
        proof {
            if self.count > 0 {
                let lo = self.minimum->0@;
                let hi = self.maximum->0@;
                let olo = other_minimum@;
                let ohi = other_maximum@;
                if replace_minimum && !replace_maximum && lex_lt(hi, olo) {
                    lemma_lex_transitive(hi, olo, lo);
                }
                if replace_maximum && !replace_minimum && lex_lt(ohi, lo) {
                    lemma_lex_transitive(hi, ohi, lo);
                }
            }
        }
        *self = ByteZoneMap { profile: self.profile, count: next_count, minimum: next_minimum, maximum: next_maximum };
        Ok(())
    }

    /// Removes one source-confirmed observation when its extrema transition is
    /// exactly derivable from the retained state.
    ///
    /// Interior values never change extrema. Equal extrema prove that every
    /// represented value is identical. Two distinct extrema with count two
    /// prove that each endpoint occurs exactly once. Any other endpoint delete
    /// is rejected as [`ZoneMapError::RebuildRequired`] without mutation.
    pub fn try_remove(&mut self, value: &[u8]) -> (result: Result<(), ZoneMapError>)
        ensures
            ({
                let count = old(self).spec_count();
                let lo = old(self).spec_minimum()->0;
                let hi = old(self).spec_maximum()->0;
                if value@.len() > old(self).spec_profile().max_value_bytes {
                    result == Err::<(), ZoneMapError>(
                        ZoneMapError::ValueLimitExceeded {
                            actual: value@.len() as usize,
                            limit: old(self).spec_profile().max_value_bytes,
                        },
                    )
                } else if count == 0 || lex_lt(value@, lo) || lex_lt(hi, value@) {
                    result == Err::<(), ZoneMapError>(ZoneMapError::MissingObservation)
                } else if lo == hi {
                    &&& result is Ok
                    &&& final(self).spec_profile() == old(self).spec_profile()
                    &&& final(self).spec_count() == count - 1
                    &&& count == 1 ==> final(self).spec_minimum() is None && final(self).spec_maximum() is None
                    &&& count > 1 ==> final(self).spec_minimum() == old(self).spec_minimum() && final(self).spec_maximum() == old(self).spec_maximum()
                } else if value@ == lo && count != 2 {
                    result == Err::<(), ZoneMapError>(
                        ZoneMapError::RebuildRequired { endpoint: ZoneMapEndpoint::Minimum, count },
                    )
                } else if value@ == lo {
                    match result {
                        Ok(()) => {
                            &&& final(self).spec_profile() == old(self).spec_profile()
                            &&& final(self).spec_count() == 1
                            &&& final(self).spec_minimum() == Some(hi)
                            &&& final(self).spec_maximum() == Some(hi)
                        },
                        Err(e) => e == ZoneMapError::AllocationFailed {
                            endpoint: ZoneMapAllocation::Minimum,
                            requested_bytes: hi.len() as usize,
                        },
                    }
                } else if value@ == hi && count != 2 {
                    result == Err::<(), ZoneMapError>(
                        ZoneMapError::RebuildRequired { endpoint: ZoneMapEndpoint::Maximum, count },
                    )
                } else if value@ == hi {
                    match result {
                        Ok(()) => {
                            &&& final(self).spec_profile() == old(self).spec_profile()
                            &&& final(self).spec_count() == 1
                            &&& final(self).spec_minimum() == Some(lo)
                            &&& final(self).spec_maximum() == Some(lo)
                        },
                        Err(e) => e == ZoneMapError::AllocationFailed {
                            endpoint: ZoneMapAllocation::Maximum,
                            requested_bytes: lo.len() as usize,
                        },
                    }
                } else if count <= 2 {
                    result == Err::<(), ZoneMapError>(ZoneMapError::MissingObservation)
                } else {
                    &&& result is Ok
                    &&& final(self).spec_profile() == old(self).spec_profile()
                    &&& final(self).spec_count() == count - 1
                    &&& final(self).spec_minimum() == old(self).spec_minimum()
                    &&& final(self).spec_maximum() == old(self).spec_maximum()
                }
            }),
            result is Err ==> *final(self) == *old(self),
    {
        proof {
            use_type_invariant(&*self);
        }
        if value.len() > self.profile.max_value_bytes {
            return Err(
                ZoneMapError::ValueLimitExceeded { actual: value.len(), limit: self.profile.max_value_bytes },
            );
        }
        let (minimum, maximum) = match (&self.minimum, &self.maximum) {
            (Some(lo), Some(hi)) => (lo, hi),
            _ => {
                if self.count == 0 {
                    return Err(ZoneMapError::MissingObservation);
                } else {
                    return Err(ZoneMapError::InvariantViolation);
                }
            },
        };
        if self.count == 0 {
            return Err(ZoneMapError::InvariantViolation);
        }
        if lex_less(value, minimum.as_slice()) || lex_less(maximum.as_slice(), value) {
            return Err(ZoneMapError::MissingObservation);
        }
        let profile = self.profile;
        let count = self.count;
        if bytes_equal(minimum.as_slice(), maximum.as_slice()) {
            if !bytes_equal(value, minimum.as_slice()) {
                proof {
                    lemma_lex_total(value@, minimum@);
                    assert(false);
                }
                return Err(ZoneMapError::MissingObservation);
            }
            if count == 1 {
                *self = ByteZoneMap { profile, count: 0, minimum: None, maximum: None };
            } else {
                let lo = copy_vec(minimum);
                let hi = copy_vec(maximum);
                *self = ByteZoneMap { profile, count: count - 1, minimum: Some(lo), maximum: Some(hi) };
            }
            return Ok(());
        }
        if bytes_equal(value, minimum.as_slice()) {
            if count != 2 {
                return Err(ZoneMapError::RebuildRequired { endpoint: ZoneMapEndpoint::Minimum, count });
            }
            let replacement = match try_copy_endpoint(maximum.as_slice(), ZoneMapAllocation::Minimum) {
                Ok(v) => v,
                Err(e) => {
                    return Err(e);
                },
            };
            let hi = copy_vec(maximum);
            proof {
                lemma_lex_asymmetric(hi@, hi@);
            }
            *self = ByteZoneMap { profile, count: 1, minimum: Some(replacement), maximum: Some(hi) };
            return Ok(());
        }
        if bytes_equal(value, maximum.as_slice()) {
            if count != 2 {
                return Err(ZoneMapError::RebuildRequired { endpoint: ZoneMapEndpoint::Maximum, count });
            }
            let replacement = match try_copy_endpoint(minimum.as_slice(), ZoneMapAllocation::Maximum) {
                Ok(v) => v,
                Err(e) => {
                    return Err(e);
                },
            };
            let lo = copy_vec(minimum);
            proof {
                lemma_lex_asymmetric(lo@, lo@);
            }
            *self = ByteZoneMap { profile, count: 1, minimum: Some(lo), maximum: Some(replacement) };
            return Ok(());
        }
        if count <= 2 {
            return Err(ZoneMapError::MissingObservation);
        }
        let lo = copy_vec(minimum);
        let hi = copy_vec(maximum);
        *self = ByteZoneMap { profile, count: count - 1, minimum: Some(lo), maximum: Some(hi) };
        Ok(())
    }

    /// Returns whether the retained interval permits `value`.
    ///
    /// `false` is definitive; `true` means only that the value lies between
    /// the extrema.
    pub fn may_contain(&self, value: &[u8]) -> (permitted: bool)
        ensures
            permitted == within(self.spec_minimum(), self.spec_maximum(), value@),
    {
        match (&self.minimum, &self.maximum) {
            (Some(lo), Some(hi)) => !lex_less(value, lo.as_slice()) && !lex_less(hi.as_slice(), value),
            _ => false,
        }
    }

    /// Returns whether the retained interval fully covers an ordered,
    /// inclusive query interval.
    pub fn covers_range(&self, lower: &[u8], upper: &[u8]) -> (covered: bool)
        ensures
            covered == (lex_le(lower@, upper@) && match (self.spec_minimum(), self.spec_maximum()) {
                (Some(lo), Some(hi)) => lex_le(lo, lower@) && lex_le(upper@, hi),
                _ => false,
            }),
    {
        if lex_less(upper, lower) {
            return false;
        }
        match (&self.minimum, &self.maximum) {
            (Some(lo), Some(hi)) => !lex_less(lower, lo.as_slice()) && !lex_less(hi.as_slice(), upper),
            _ => false,
        }
    }

    /// Returns whether the retained interval overlaps an ordered, inclusive
    /// query interval.
    pub fn may_overlap_range(&self, lower: &[u8], upper: &[u8]) -> (overlaps: bool)
        ensures
            overlaps == (lex_le(lower@, upper@) && match (self.spec_minimum(), self.spec_maximum()) {
                (Some(lo), Some(hi)) => lex_le(lo, upper@) && lex_le(lower@, hi),
                _ => false,
            }),
    {
        if lex_less(upper, lower) {
            return false;
        }
        match (&self.minimum, &self.maximum) {
            (Some(lo), Some(hi)) => !lex_less(upper, lo.as_slice()) && !lex_less(hi.as_slice(), lower),
            _ => false,
        }
    }

    fn checked_combined_count(&self, additional: u64) -> (result: Result<u64, ZoneMapError>)
        ensures
            self.spec_count() + additional > u64::MAX ==> result == Err::<u64, ZoneMapError>(
                ZoneMapError::CountOverflow,
            ),
            self.spec_count() + additional <= u64::MAX && self.spec_count() + additional
                > self.spec_profile().max_observations ==> result == Err::<u64, ZoneMapError>(
                ZoneMapError::ObservationLimitExceeded { maximum: self.spec_profile().max_observations },
            ),
            self.spec_count() + additional <= self.spec_profile().max_observations ==> result == Ok::<
                u64,
                ZoneMapError,
            >((self.spec_count() + additional) as u64),
    {
        let combined = match self.count.checked_add(additional) {
            Some(c) => c,
            None => {
                return Err(ZoneMapError::CountOverflow);
            },
        };
        if combined > self.profile.max_observations {
            return Err(ZoneMapError::ObservationLimitExceeded { maximum: self.profile.max_observations });
        }
        Ok(combined)
    }
}

/// The `Debug` name of an allocated endpoint.
pub open spec fn allocation_debug_name(value: ZoneMapAllocation) -> Seq<char> {
    match value {
        ZoneMapAllocation::Minimum => "Minimum"@,
        ZoneMapAllocation::Maximum => "Maximum"@,
    }
}

fn push_allocation_name(out: &mut String, value: ZoneMapAllocation)
    ensures
        final(out)@ == old(out)@ + allocation_debug_name(value),
{
    match value {
        ZoneMapAllocation::Minimum => push_text(out, "Minimum"),
        ZoneMapAllocation::Maximum => push_text(out, "Maximum"),
    }
}
/// The `Debug` name of an endpoint.
pub open spec fn endpoint_debug_name(value: ZoneMapEndpoint) -> Seq<char> {
    match value {
        ZoneMapEndpoint::Minimum => "Minimum"@,
        ZoneMapEndpoint::Maximum => "Maximum"@,
    }
}

fn push_endpoint_name(out: &mut String, value: ZoneMapEndpoint)
    ensures
        final(out)@ == old(out)@ + endpoint_debug_name(value),
{
    match value {
        ZoneMapEndpoint::Minimum => push_text(out, "Minimum"),
        ZoneMapEndpoint::Maximum => push_text(out, "Maximum"),
    }
}
/// The `Debug` rendering of a profile.
pub open spec fn profile_debug_text(profile: ZoneMapProfile) -> Seq<char> {
    "ZoneMapProfile { max_value_bytes: "@ + decimal(profile.max_value_bytes as nat)
        + ", max_observations: "@ + decimal(profile.max_observations as nat) + " }"@
}

fn push_profile(out: &mut String, profile: ZoneMapProfile)
    ensures
        final(out)@ == old(out)@ + profile_debug_text(profile),
{
    push_text(out, "ZoneMapProfile { max_value_bytes: ");
    push_decimal(out, profile.max_value_bytes as u64);
    push_text(out, ", max_observations: ");
    push_decimal(out, profile.max_observations);
    push_text(out, " }");
    proof {
        assert(out@ =~= old(out)@ + profile_debug_text(profile));
    }
}

/// Diagnostic text of a zone-map failure.
pub open spec fn zone_map_error_text(error: ZoneMapError) -> Seq<char> {
    match error {
        ZoneMapError::ValueLimitExceeded { actual, limit } => "zone-map value has "@ + decimal(actual as nat) + " bytes, configured limit is "@ + decimal(limit as nat),
        ZoneMapError::ObservationLimitExceeded { maximum } => "zone map reached its "@ + decimal(maximum as nat) + "-observation ceiling"@,
        ZoneMapError::CountOverflow => "zone-map observation count overflow"@,
        ZoneMapError::AllocationFailed { endpoint, requested_bytes } => "could not reserve "@ + decimal(requested_bytes as nat) + " bytes for zone-map "@ + allocation_debug_name(endpoint),
        ZoneMapError::ProfileMismatch { left, right } => "cannot merge zone maps with profiles "@ + profile_debug_text(left) + " and "@ + profile_debug_text(right),
        ZoneMapError::MissingObservation => "zone map cannot contain the observation being deleted"@,
        ZoneMapError::RebuildRequired { endpoint, count } => "deleting zone-map "@ + endpoint_debug_name(endpoint) + " from "@ + decimal(count as nat) + " observations requires a rebuild"@,
        ZoneMapError::InvariantViolation => "zone-map count/extrema invariant is inconsistent"@,
    }
}

impl ZoneMapError {
    /// Human-readable diagnostic.
    pub fn message(&self) -> (text: String)
        ensures
            text@ == zone_map_error_text(*self),
    {
        let mut out = String::new();
        match *self {
            ZoneMapError::ValueLimitExceeded { actual, limit } => {
                push_text(&mut out, "zone-map value has ");
                push_decimal(&mut out, actual as u64);
                push_text(&mut out, " bytes, configured limit is ");
                push_decimal(&mut out, limit as u64);
            },
            ZoneMapError::ObservationLimitExceeded { maximum } => {
                push_text(&mut out, "zone map reached its ");
                push_decimal(&mut out, maximum as u64);
                push_text(&mut out, "-observation ceiling");
            },
            ZoneMapError::CountOverflow => {
                push_text(&mut out, "zone-map observation count overflow");
            },
            ZoneMapError::AllocationFailed { endpoint, requested_bytes } => {
                push_text(&mut out, "could not reserve ");
                push_decimal(&mut out, requested_bytes as u64);
                push_text(&mut out, " bytes for zone-map ");
                push_allocation_name(&mut out, endpoint);
            },
            ZoneMapError::ProfileMismatch { left, right } => {
                push_text(&mut out, "cannot merge zone maps with profiles ");
                push_profile(&mut out, left);
                push_text(&mut out, " and ");
                push_profile(&mut out, right);
            },
            ZoneMapError::MissingObservation => {
                push_text(&mut out, "zone map cannot contain the observation being deleted");
            },
            ZoneMapError::RebuildRequired { endpoint, count } => {
                push_text(&mut out, "deleting zone-map ");
                push_endpoint_name(&mut out, endpoint);
                push_text(&mut out, " from ");
                push_decimal(&mut out, count as u64);
                push_text(&mut out, " observations requires a rebuild");
            },
            ZoneMapError::InvariantViolation => {
                push_text(&mut out, "zone-map count/extrema invariant is inconsistent");
            },
        }
        proof {
            assert(out@ =~= zone_map_error_text(*self));
        }
        out
    }
}

} // verus!
