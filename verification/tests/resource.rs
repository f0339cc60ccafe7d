use fgdb::resource::{ResourceAxis, ResourceCeiling, ResourceError, ResourceVector};

fn v(c: u64, m: u64, ib: u64, io: u64, n: u64) -> ResourceVector {
    ResourceVector {
        cpu_micros: c,
        memory_bytes: m,
        io_bytes: ib,
        io_ops: io,
        network_bytes: n,
    }
}

#[test]
fn zero_is_the_additive_identity() {
    let a = v(1, 2, 3, 4, 5);
    assert_eq!(a.checked_add(ResourceVector::zero()).unwrap(), a);
    assert_eq!(a.checked_sub(ResourceVector::zero()).unwrap(), a);
    assert_eq!(a.checked_sub(a).unwrap(), ResourceVector::zero());
}

#[test]
fn overflow_and_underflow_name_the_exact_axis() {
    let near_max = v(u64::MAX, 0, 0, 0, 0);
    let err = near_max.checked_add(v(1, 0, 0, 0, 0)).unwrap_err();
    assert_eq!(
        err,
        ResourceError::Overflow {
            axis: ResourceAxis::CpuMicros,
            lhs: u64::MAX,
            rhs: 1
        }
    );

    let err = v(0, 5, 0, 0, 0).checked_sub(v(0, 6, 0, 0, 0)).unwrap_err();
    assert_eq!(
        err,
        ResourceError::Underflow {
            axis: ResourceAxis::MemoryBytes,
            held: 5,
            released: 6
        }
    );
    assert_eq!(
        err.message(),
        "resource underflow on memory_bytes: held 5, released 6"
    );
}

#[test]
fn ceilings_admit_exactly_the_component_wise_order() {
    let ceiling = ResourceCeiling::new(v(100, 100, 100, 100, 100));
    assert!(ceiling.try_admit(v(100, 100, 100, 100, 100)).is_ok());
    assert!(ceiling.try_admit(ResourceVector::zero()).is_ok());
    let err = ceiling.try_admit(v(200, 300, 0, 0, 0)).unwrap_err();
    assert_eq!(
        err,
        ResourceError::CeilingExceeded {
            axis: ResourceAxis::CpuMicros,
            requested: 200,
            ceiling: 100
        }
    );
    assert!(v(1, 1, 1, 1, 1).fits_within(ceiling.bound()));
    assert!(!v(1, 101, 1, 1, 1).fits_within(ceiling.bound()));
}

#[test]
fn admitted_token_carries_the_admitted_vector() {
    let ceiling = ResourceCeiling::new(v(10, 10, 10, 10, 10));
    let admitted = ceiling.try_admit(v(1, 2, 3, 4, 5)).unwrap();
    assert_eq!(*admitted.vector(), v(1, 2, 3, 4, 5));
}

#[test]
fn accumulation_across_admissions_stays_checked() {
    let ceiling = ResourceCeiling::new(v(10, 1000, 1000, 1000, 1000));
    let mut used = ResourceVector::zero();
    let mut admitted_count = 0;
    for _ in 0..5 {
        let request = v(3, 10, 10, 10, 10);
        let next = used.checked_add(request).unwrap();
        if ceiling.try_admit(next).is_err() {
            break;
        }
        used = next;
        admitted_count += 1;
    }
    assert_eq!(admitted_count, 3);
    assert_eq!(used.cpu_micros, 9);
}

#[test]
fn overflow_and_ceiling_messages_name_both_operands() {
    let err = v(0, 0, 0, 0, u64::MAX).checked_add(v(0, 0, 0, 0, 2)).unwrap_err();
    assert_eq!(
        err.message(),
        format!("resource overflow on network_bytes: {} + 2", u64::MAX)
    );
    let err = ResourceCeiling::new(v(1, 1, 1, 1, 1))
        .try_admit(v(1, 1, 1, 7, 9))
        .unwrap_err();
    assert_eq!(
        err.message(),
        "resource ceiling exceeded on io_ops: requested 7, ceiling 1"
    );
}

#[test]
fn addition_then_subtraction_restores_the_vector() {
    let a = v(7, 8, 9, 10, 11);
    let b = v(1, 2, 3, 4, 5);
    let sum = a.checked_add(b).unwrap();
    assert_eq!(sum, v(8, 10, 12, 14, 16));
    assert_eq!(sum.checked_sub(b).unwrap(), a);
    assert_eq!(a.axis(ResourceAxis::IoBytes), 9);
    assert_eq!(ResourceAxis::IoOps.name(), "io_ops");
}
