use fgdb::zone_map::{ByteZoneMap, ZoneMapEndpoint, ZoneMapError, ZoneMapProfile};

fn profile() -> ZoneMapProfile {
    ZoneMapProfile {
        max_value_bytes: 16,
        max_observations: 100,
    }
}

fn map(values: &[&[u8]]) -> ByteZoneMap {
    let mut map = ByteZoneMap::new(profile());
    for &value in values {
        map.try_observe(value).expect("bounded fixture");
    }
    map
}

#[test]
fn byte_order_extrema_and_containment_are_canonical() {
    let mut zone = ByteZoneMap::new(profile());
    for value in [&b"middle"[..], &b""[..], &b"mid"[..], &b"\xff"[..], &b"z"[..]] {
        zone.try_observe(value).expect("bounded fixture");
    }
    assert_eq!(zone.len(), 5);
    assert_eq!(zone.minimum(), Some(&b""[..]));
    assert_eq!(zone.maximum(), Some(&b"\xff"[..]));
    assert!(zone.may_contain(b"alpha"));
    assert!(zone.may_contain(b"\xff"));
    assert!(zone.covers_range(b"mid", b"z"));
    assert!(zone.may_overlap_range(b"z", b"\xff\xff"));
    assert!(!zone.covers_range(b"z", b"a"));
    assert!(!zone.may_overlap_range(b"\xff\x01", b"\xff\xff"));

    let empty = ByteZoneMap::new(profile());
    assert!(!empty.may_contain(b""));
    assert!(!empty.covers_range(b"", b""));
}

#[test]
fn observation_limits_fail_without_mutation() {
    let mut zone = ByteZoneMap::new(ZoneMapProfile {
        max_value_bytes: 2,
        max_observations: 2,
    });
    zone.try_observe(b"b").expect("first value");
    let before = zone.clone();
    assert_eq!(
        zone.try_observe(b"long"),
        Err(ZoneMapError::ValueLimitExceeded {
            actual: 4,
            limit: 2,
        })
    );
    assert_eq!(zone, before);
    zone.try_observe(b"a").expect("second value");
    let before = zone.clone();
    assert_eq!(
        zone.try_observe(b"c"),
        Err(ZoneMapError::ObservationLimitExceeded { maximum: 2 })
    );
    assert_eq!(zone, before);
}

#[test]
fn identical_profile_merge_is_order_independent() {
    let left = map(&[b"m", b"z"]);
    let right = map(&[b"a", b"x", b"y"]);
    let mut left_right = left.clone();
    left_right.try_merge(&right).expect("identical profile");
    let mut right_left = right;
    right_left.try_merge(&left).expect("identical profile");
    assert_eq!(left_right, right_left);
    assert_eq!(left_right.len(), 5);
    assert_eq!(left_right.minimum(), Some(&b"a"[..]));
    assert_eq!(left_right.maximum(), Some(&b"z"[..]));

    let mut identity = ByteZoneMap::new(profile());
    identity.try_merge(&left_right).expect("identical profile");
    assert_eq!(identity, left_right);
}

#[test]
fn merge_profile_and_count_failures_are_atomic() {
    let mut zone = ByteZoneMap::new(ZoneMapProfile {
        max_value_bytes: 8,
        max_observations: 2,
    });
    zone.try_observe(b"m").expect("within limit");
    let different = ByteZoneMap::new(ZoneMapProfile {
        max_value_bytes: 9,
        max_observations: 2,
    });
    let before = zone.clone();
    assert_eq!(
        zone.try_merge(&different),
        Err(ZoneMapError::ProfileMismatch {
            left: ZoneMapProfile {
                max_value_bytes: 8,
                max_observations: 2,
            },
            right: ZoneMapProfile {
                max_value_bytes: 9,
                max_observations: 2,
            },
        })
    );
    assert_eq!(zone, before);

    let other = {
        let mut other = ByteZoneMap::new(zone.profile());
        other.try_observe(b"a").expect("within limit");
        other.try_observe(b"z").expect("within limit");
        other
    };
    assert_eq!(
        zone.try_merge(&other),
        Err(ZoneMapError::ObservationLimitExceeded { maximum: 2 })
    );
    assert_eq!(zone, before);
}

#[test]
fn deletes_are_exact_when_extrema_are_derivable() {
    let mut repeated = map(&[b"k", b"k", b"k"]);
    repeated.try_remove(b"k").expect("same extrema remain");
    assert_eq!(repeated.len(), 2);
    assert_eq!(repeated.minimum(), Some(&b"k"[..]));
    repeated.try_remove(b"k").expect("same extrema remain");
    repeated.try_remove(b"k").expect("last value empties map");
    assert!(repeated.is_empty());
    assert_eq!(repeated.minimum(), None);
    assert_eq!(repeated.maximum(), None);

    let mut distinct = map(&[b"a", b"m", b"z"]);
    distinct.try_remove(b"m").expect("interior removal");
    assert_eq!(distinct.len(), 2);
    distinct.try_remove(b"a").expect("two endpoints are exact");
    assert_eq!(distinct.len(), 1);
    assert_eq!(distinct.minimum(), Some(&b"z"[..]));
    assert_eq!(distinct.maximum(), Some(&b"z"[..]));
}

#[test]
fn ambiguous_endpoint_delete_requires_rebuild_atomically() {
    let mut zone = map(&[b"a", b"m", b"z", b"z"]);
    let before = zone.clone();
    assert_eq!(
        zone.try_remove(b"a"),
        Err(ZoneMapError::RebuildRequired {
            endpoint: ZoneMapEndpoint::Minimum,
            count: 4,
        })
    );
    assert_eq!(zone, before);
    assert_eq!(
        zone.try_remove(b"z"),
        Err(ZoneMapError::RebuildRequired {
            endpoint: ZoneMapEndpoint::Maximum,
            count: 4,
        })
    );
    assert_eq!(zone, before);
}

#[test]
fn impossible_deletes_are_rejected_without_drift() {
    let mut empty = ByteZoneMap::new(profile());
    assert_eq!(empty.try_remove(b"a"), Err(ZoneMapError::MissingObservation));

    let mut zone = map(&[b"a", b"z"]);
    let before = zone.clone();
    assert_eq!(zone.try_remove(b"m"), Err(ZoneMapError::MissingObservation));
    assert_eq!(zone.try_remove(b"\xff"), Err(ZoneMapError::MissingObservation));
    assert_eq!(zone, before);
}

#[test]
fn canonical_state_reports_profile_count_and_extrema() {
    let zone = map(&[b"q", b"b", b"x"]);
    let state = zone.canonical_state();
    assert_eq!(state.profile, profile());
    assert_eq!(state.count, 3);
    assert_eq!(state.minimum, Some(&b"b"[..]));
    assert_eq!(state.maximum, Some(&b"x"[..]));
    assert!(zone.may_contain(b"b"));
    assert!(!zone.may_contain(b"a"));
    assert!(!zone.may_contain(b"y"));
}
