use fgdb::probe::{
    scalar_classify, scalar_control_group_dispatch, ControlGroup, ControlGroupClassifier,
    ControlGroupMasks, ControlTag, LaneMask, ScalarControlGroupClassifier, CONTROL_GROUP_WIDTH,
    DELETED_CONTROL, EMPTY_CONTROL,
};

fn direct_reference(group: &ControlGroup, tag: ControlTag) -> ControlGroupMasks {
    let mut matching = 0_u16;
    let mut empty = 0_u16;
    let mut deleted = 0_u16;
    for lane in 0..CONTROL_GROUP_WIDTH {
        let bit = 1_u16 << lane;
        let control = group.lanes()[lane];
        if control == tag.get() {
            matching |= bit;
        }
        if control == EMPTY_CONTROL {
            empty |= bit;
        }
        if control == DELETED_CONTROL {
            deleted |= bit;
        }
    }
    ControlGroupMasks {
        matching: LaneMask::from_bits(matching),
        empty: LaneMask::from_bits(empty),
        deleted: LaneMask::from_bits(deleted),
    }
}

fn collect_lanes(mask: LaneMask) -> Vec<usize> {
    let mut iter = mask.iter();
    let mut lanes = Vec::new();
    while let Some(lane) = iter.next() {
        lanes.push(lane);
    }
    lanes
}

#[test]
fn lane_bits_are_stable_and_iterate_in_probe_order() {
    let tag = ControlTag::new(0x2a).unwrap();
    for lane in 0..CONTROL_GROUP_WIDTH {
        let mut controls = [0x11; CONTROL_GROUP_WIDTH];
        controls[lane] = tag.get();
        controls[(lane + 3) % CONTROL_GROUP_WIDTH] = EMPTY_CONTROL;
        controls[(lane + 7) % CONTROL_GROUP_WIDTH] = DELETED_CONTROL;
        let masks = scalar_classify(&ControlGroup::new(controls), tag);
        assert_eq!(masks.matching.bits(), 1_u16 << lane);
        assert_eq!(
            masks.empty.bits(),
            1_u16 << ((lane + 3) % CONTROL_GROUP_WIDTH)
        );
        assert_eq!(
            masks.deleted.bits(),
            1_u16 << ((lane + 7) % CONTROL_GROUP_WIDTH)
        );
    }

    let mask = LaneMask::from_bits(0b1010_0100_0010_1001);
    assert_eq!(mask.first(), Some(0));
    assert_eq!(collect_lanes(mask), vec![0, 3, 5, 10, 13, 15]);
    assert_eq!(mask.iter().len(), 6);
}

#[test]
fn wrapping_gather_preserves_logical_lane_order() {
    let controls: Vec<u8> = (0_u8..32).collect();
    for start in 0..controls.len() {
        let expected: [u8; 16] =
            core::array::from_fn(|lane| controls[(start + lane) & (controls.len() - 1)]);
        assert_eq!(
            ControlGroup::gather_wrapping(&controls, start),
            Some(ControlGroup::new(expected))
        );
    }
    assert_eq!(ControlGroup::gather_wrapping(&[], 0), None);
    assert_eq!(ControlGroup::gather_wrapping(&[0; 15], 0), None);
    assert_eq!(ControlGroup::gather_wrapping(&[0; 24], 0), None);
    assert_eq!(ControlGroup::gather_wrapping(&[0; 16], 16), None);
}

#[test]
fn scalar_trait_and_dispatch_are_directly_equivalent() {
    let classifier = ScalarControlGroupClassifier;
    let dispatch = scalar_control_group_dispatch();
    let mut state = 0x243f_6a88_85a3_08d3_u64;
    for _ in 0..4_096 {
        let controls: [u8; 16] = core::array::from_fn(|_| {
            state = state
                .wrapping_mul(6_364_136_223_846_793_005)
                .wrapping_add(1_442_695_040_888_963_407);
            (state >> 32) as u8
        });
        let tag = ControlTag::from_hash(state);
        let group = ControlGroup::new(controls);
        let expected = direct_reference(&group, tag);
        assert_eq!(scalar_classify(&group, tag), expected);
        assert_eq!(classifier.classify(&group, tag), expected);
        assert_eq!(dispatch.classify(&group, tag), expected);
    }
}

#[test]
fn classification_is_exhaustive_for_every_control_byte_and_tag() {
    let dispatch = scalar_control_group_dispatch();
    for control in u8::MIN..=u8::MAX {
        let group = ControlGroup::new([control; CONTROL_GROUP_WIDTH]);
        for tag in u8::MIN..EMPTY_CONTROL {
            let tag = ControlTag::new(tag).unwrap();
            let expected = direct_reference(&group, tag);
            assert_eq!(scalar_classify(&group, tag), expected);
            assert_eq!(dispatch.classify(&group, tag), expected);
        }
    }
}

#[test]
fn tags_reject_reserved_bytes_and_take_the_top_seven_hash_bits() {
    assert!(ControlTag::new(EMPTY_CONTROL).is_none());
    assert!(ControlTag::new(DELETED_CONTROL).is_none());
    assert_eq!(ControlTag::new(0x7f).unwrap().get(), 0x7f);
    assert_eq!(ControlTag::from_hash(u64::MAX).get(), 0x7f);
    assert_eq!(ControlTag::from_hash(0x0200_0000_0000_0000).get(), 1);
    assert_eq!(ControlTag::from_hash(0x01ff_ffff_ffff_ffff).get(), 0);
}

#[test]
fn occupied_lanes_exclude_empty_and_deleted() {
    let mut controls = [0x05_u8; CONTROL_GROUP_WIDTH];
    controls[0] = EMPTY_CONTROL;
    controls[15] = DELETED_CONTROL;
    let masks = scalar_classify(&ControlGroup::new(controls), ControlTag::new(0x05).unwrap());
    assert_eq!(masks.occupied().bits(), 0x7ffe);
    assert_eq!(masks.matching.bits(), 0x7ffe);
    assert!(LaneMask::none().is_empty());
    assert_eq!(LaneMask::none().first(), None);
    assert!(masks.empty.contains(0));
    assert!(!masks.empty.contains(1));
}
