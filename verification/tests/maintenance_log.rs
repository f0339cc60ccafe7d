use fgdb::maintenance_log::{
    ObjectId, SketchFamily, SketchInputDigest, SketchMaintenanceCodecError, SketchMaintenanceLog,
    SketchMaintenanceLogDecodeLimits, SketchMaintenanceLogError, SketchMaintenanceOutcome,
    SketchMaintenanceRecord, SketchStateDigest, LOG_HEADER_BYTES, MAX_SKETCH_MAINTENANCE_RECORDS,
    RECORD_BYTES,
};

const PROFILE_OID: ObjectId = ObjectId([0x31; 32]);
const MERGE_OID: ObjectId = ObjectId([0x41; 32]);
const DELETE_OID: ObjectId = ObjectId([0x51; 32]);
const LIMITS: SketchMaintenanceLogDecodeLimits =
    SketchMaintenanceLogDecodeLimits { max_records: 8, max_encoded_bytes: 4_096 };

fn state(fill: u8) -> SketchStateDigest {
    SketchStateDigest::from_hash([fill; 32])
}

fn input(fill: u8) -> SketchInputDigest {
    SketchInputDigest::from_hash([fill; 32])
}

fn merge_record(sequence: u64) -> SketchMaintenanceRecord {
    SketchMaintenanceRecord::merged(
        sequence,
        SketchFamily::CountMin,
        PROFILE_OID,
        MERGE_OID,
        state(0x01),
        input(0x02),
        state(0x03),
    )
}

#[test]
fn merge_log_round_trips_and_replays_byte_identically() {
    let mut log = SketchMaintenanceLog::new(8).expect("valid profile");
    log.append(merge_record(0)).expect("first record");
    log.append(SketchMaintenanceRecord::merged(
        1,
        SketchFamily::BottomK,
        PROFILE_OID,
        MERGE_OID,
        state(0x11),
        input(0x12),
        state(0x13),
    ))
    .expect("second record");

    let encoded = log.to_canonical_bytes().expect("encode");
    let replayed =
        SketchMaintenanceLog::from_canonical_bytes(&encoded, LIMITS, 8).expect("strict read");

    assert_eq!(replayed, log);
    assert_eq!(replayed.to_canonical_bytes().expect("re-encode"), encoded);
}

#[test]
fn rebuild_required_structurally_preserves_state() {
    let record = SketchMaintenanceRecord::rebuild_required(
        0,
        SketchFamily::ZoneMap,
        PROFILE_OID,
        DELETE_OID,
        state(0x21),
        input(0x22),
    );

    assert_eq!(record.outcome, SketchMaintenanceOutcome::RebuildRequired);
    assert_eq!(record.before_digest, record.after_digest);
    assert_eq!(
        SketchMaintenanceRecord::from_canonical_bytes(&record.to_canonical_bytes())
            .expect("strict record read"),
        record
    );
}

#[test]
fn decoder_rejects_rebuild_that_claims_mutation() {
    let record = SketchMaintenanceRecord::rebuild_required(
        0,
        SketchFamily::ZoneMap,
        PROFILE_OID,
        DELETE_OID,
        state(0x21),
        input(0x22),
    );
    let mut encoded = record.to_canonical_bytes();
    encoded[152] ^= 1;

    assert_eq!(
        SketchMaintenanceRecord::from_canonical_bytes(&encoded),
        Err(SketchMaintenanceCodecError::RebuildMutatedState)
    );
}

#[test]
fn log_enforces_gap_free_sequence_and_capacity() {
    let mut log = SketchMaintenanceLog::new(1).expect("valid profile");
    assert_eq!(
        log.append(merge_record(1)),
        Err(SketchMaintenanceLogError::Sequence { expected: 0, actual: 1 })
    );
    log.append(merge_record(0)).expect("in sequence");
    assert_eq!(
        log.append(merge_record(1)),
        Err(SketchMaintenanceLogError::CapacityExceeded { max_records: 1 })
    );
}

#[test]
fn decoder_preflights_profile_count_bytes_and_exact_length() {
    let mut log = SketchMaintenanceLog::new(8).expect("valid profile");
    log.append(merge_record(0)).expect("record");
    let encoded = log.to_canonical_bytes().expect("encode");

    assert_eq!(
        SketchMaintenanceLog::from_canonical_bytes(&encoded, LIMITS, 7),
        Err(SketchMaintenanceCodecError::ProfileMismatch { expected: 7, actual: 8 })
    );
    assert_eq!(
        SketchMaintenanceLog::from_canonical_bytes(
            &encoded,
            SketchMaintenanceLogDecodeLimits::new(7, encoded.len()),
            8,
        ),
        Err(SketchMaintenanceCodecError::ProfileLimit {
            encoded_profile: 8,
            caller_max_records: 7,
            absolute_max_records: 1_048_576,
        })
    );
    assert_eq!(
        SketchMaintenanceLog::from_canonical_bytes(
            &encoded,
            SketchMaintenanceLogDecodeLimits::new(8, encoded.len() - 1),
            8,
        ),
        Err(SketchMaintenanceCodecError::EncodedBytesLimit {
            actual: encoded.len(),
            max_encoded_bytes: encoded.len() - 1,
        })
    );

    let mut oversized_count = encoded.clone();
    oversized_count[16..20].copy_from_slice(&9_u32.to_le_bytes());
    assert_eq!(
        SketchMaintenanceLog::from_canonical_bytes(&oversized_count, LIMITS, 8),
        Err(SketchMaintenanceCodecError::RecordCountLimit {
            record_count: 9,
            encoded_profile: 8,
            caller_max_records: 8,
        })
    );

    let truncated = &encoded[..encoded.len() - 1];
    assert_eq!(
        SketchMaintenanceLog::from_canonical_bytes(truncated, LIMITS, 8),
        Err(SketchMaintenanceCodecError::LogLength {
            expected: LOG_HEADER_BYTES + RECORD_BYTES,
            actual: truncated.len(),
        })
    );
}

#[test]
fn decoder_rejects_noncanonical_tags_reserved_bytes_and_sequence() {
    let record = merge_record(0);

    let mut unknown_family = record.to_canonical_bytes();
    unknown_family[10] = 99;
    assert_eq!(
        SketchMaintenanceRecord::from_canonical_bytes(&unknown_family),
        Err(SketchMaintenanceCodecError::UnknownSketchFamily { tag: 99 })
    );

    let mut reserved = record.to_canonical_bytes();
    reserved[12] = 1;
    assert_eq!(
        SketchMaintenanceRecord::from_canonical_bytes(&reserved),
        Err(SketchMaintenanceCodecError::RecordReserved { reserved: 1 })
    );

    let mut log = SketchMaintenanceLog::new(8).expect("valid profile");
    log.append(record).expect("record");
    let mut encoded = log.to_canonical_bytes().expect("encode");
    encoded[LOG_HEADER_BYTES + 16..LOG_HEADER_BYTES + 24].copy_from_slice(&2_u64.to_le_bytes());
    assert_eq!(
        SketchMaintenanceLog::from_canonical_bytes(&encoded, LIMITS, 8),
        Err(SketchMaintenanceCodecError::Sequence { expected: 0, actual: 2 })
    );
}

#[test]
fn record_layout_is_little_endian_and_fixed_width() {
    let record = SketchMaintenanceRecord::merged(
        0x0102_0304_0506_0708,
        SketchFamily::Distinct,
        PROFILE_OID,
        MERGE_OID,
        state(0xa1),
        input(0xb2),
        state(0xc3),
    );
    let bytes = record.to_canonical_bytes();
    assert_eq!(bytes.len(), RECORD_BYTES);
    assert_eq!(&bytes[..8], b"FGDBSMR1");
    assert_eq!(&bytes[8..10], &[1, 0]);
    assert_eq!(bytes[10], 5);
    assert_eq!(bytes[11], 1);
    assert_eq!(&bytes[12..16], &[0, 0, 0, 0]);
    assert_eq!(&bytes[16..24], &[8, 7, 6, 5, 4, 3, 2, 1]);
    assert_eq!(&bytes[24..56], &[0x31; 32]);
    assert_eq!(&bytes[56..88], &[0x41; 32]);
    assert_eq!(&bytes[88..120], &[0xa1; 32]);
    assert_eq!(&bytes[120..152], &[0xb2; 32]);
    assert_eq!(&bytes[152..184], &[0xc3; 32]);

    let mut bad_magic = bytes;
    bad_magic[0] = b'X';
    assert_eq!(
        SketchMaintenanceRecord::from_canonical_bytes(&bad_magic),
        Err(SketchMaintenanceCodecError::RecordMagic)
    );
    let mut bad_version = bytes;
    bad_version[8] = 2;
    assert_eq!(
        SketchMaintenanceRecord::from_canonical_bytes(&bad_version),
        Err(SketchMaintenanceCodecError::RecordVersion { version: 2 })
    );
    let mut bad_outcome = bytes;
    bad_outcome[11] = 3;
    assert_eq!(
        SketchMaintenanceRecord::from_canonical_bytes(&bad_outcome),
        Err(SketchMaintenanceCodecError::UnknownMaintenanceOutcome { tag: 3 })
    );
    assert_eq!(
        SketchMaintenanceRecord::from_canonical_bytes(&bytes[..183]),
        Err(SketchMaintenanceCodecError::RecordLength { expected: 184, actual: 183 })
    );
}

#[test]
fn log_header_checks_run_in_order() {
    assert_eq!(
        SketchMaintenanceLog::new(0),
        Err(SketchMaintenanceLogError::InvalidProfile { max_records: 0 })
    );
    assert_eq!(
        SketchMaintenanceLog::new(MAX_SKETCH_MAINTENANCE_RECORDS + 1),
        Err(SketchMaintenanceLogError::InvalidProfile {
            max_records: MAX_SKETCH_MAINTENANCE_RECORDS + 1
        })
    );
    let log = SketchMaintenanceLog::new(3).expect("valid profile");
    assert_eq!(log.max_records(), 3);
    assert!(log.records().is_empty());
    let encoded = log.to_canonical_bytes().expect("encode");
    assert_eq!(encoded.len(), LOG_HEADER_BYTES);
    assert_eq!(&encoded[..8], b"FGDBSML1");
    assert_eq!(
        SketchMaintenanceLog::from_canonical_bytes(&encoded, LIMITS, 0),
        Err(SketchMaintenanceCodecError::InvalidProfile { max_records: 0 })
    );
    assert_eq!(
        SketchMaintenanceLog::from_canonical_bytes(&encoded[..19], LIMITS, 3),
        Err(SketchMaintenanceCodecError::LogTruncated { minimum: 20, actual: 19 })
    );
    let mut bad_magic = encoded.clone();
    bad_magic[7] = b'2';
    assert_eq!(
        SketchMaintenanceLog::from_canonical_bytes(&bad_magic, LIMITS, 3),
        Err(SketchMaintenanceCodecError::LogMagic)
    );
    let mut bad_version = encoded.clone();
    bad_version[9] = 1;
    assert_eq!(
        SketchMaintenanceLog::from_canonical_bytes(&bad_version, LIMITS, 3),
        Err(SketchMaintenanceCodecError::LogVersion { version: 257 })
    );
    let mut bad_reserved = encoded.clone();
    bad_reserved[10] = 4;
    assert_eq!(
        SketchMaintenanceLog::from_canonical_bytes(&bad_reserved, LIMITS, 3),
        Err(SketchMaintenanceCodecError::LogReserved { reserved: 4 })
    );
    let replayed = SketchMaintenanceLog::from_canonical_bytes(&encoded, LIMITS, 3).expect("read");
    assert_eq!(replayed, log);
    assert_eq!(replayed.clone(), log);
}

#[test]
fn digest_transcripts_are_domain_separated_and_length_prefixed() {
    let state_transcript = SketchStateDigest::transcript(b"abc");
    let mut expected = b"fgdb:sketch-maintenance:state:v1".to_vec();
    expected.extend_from_slice(&3_u64.to_le_bytes());
    expected.extend_from_slice(b"abc");
    assert_eq!(state_transcript, expected);

    let input_transcript = SketchInputDigest::transcript(b"");
    let mut expected = b"fgdb:sketch-maintenance:input:v1".to_vec();
    expected.extend_from_slice(&0_u64.to_le_bytes());
    assert_eq!(input_transcript, expected);

    assert_eq!(state(7).as_bytes(), &[7; 32]);
    assert_eq!(input(9).as_bytes(), &[9; 32]);
    assert_eq!(SketchFamily::ExactQuantiles.tag(), 1);
    assert_eq!(SketchFamily::ZoneMap.tag(), 6);
    assert_eq!(SketchMaintenanceOutcome::RebuildRequired.tag(), 2);
}

#[test]
fn append_refuses_a_rebuild_that_changes_state() {
    let mut log = SketchMaintenanceLog::new(2).expect("valid profile");
    let forged = SketchMaintenanceRecord {
        sequence: 0,
        family: SketchFamily::DegreeHistogram,
        outcome: SketchMaintenanceOutcome::RebuildRequired,
        sketch_profile_oid: PROFILE_OID,
        operation_oid: DELETE_OID,
        before_digest: state(1),
        input_digest: input(2),
        after_digest: state(3),
    };
    assert_eq!(
        log.append(forged),
        Err(SketchMaintenanceLogError::InvalidRecord(
            SketchMaintenanceCodecError::RebuildMutatedState
        ))
    );
    assert!(log.records().is_empty());
}
