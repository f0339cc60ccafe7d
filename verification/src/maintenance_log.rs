//! Canonical sketch-maintenance history.
//!
//! Sketches are derived state, so this stream never authorizes graph data.
//! It records enough identity-bound evidence to reproduce which canonical
//! sketch state was merged, or deliberately left unchanged pending a
//! rebuild. Records and logs have one fixed little-endian encoding; the
//! decoders accept exactly the canonical encodings.

use vstd::prelude::*;
use crate::text::{decimal, push_decimal, push_text};
use crate::codec::{
    bytes_equal, decode_le_u16, decode_le_u32, decode_le_u64, extend_bytes, le_u16, le_u32,
    le_u64, leading_eight, lemma_le_round_trips, push_le_u16, push_le_u32, push_le_u64,
    read_array_32, read_le_u16_at, read_le_u32_at, read_le_u64_at,
};
use crate::vec_alloc::try_reserve_exact;
pub use crate::identity::ObjectId;

verus! {

/// Canonical record encoding version.
pub const SKETCH_MAINTENANCE_RECORD_VERSION: u16 = 1;

/// Canonical bounded-log encoding version.
pub const SKETCH_MAINTENANCE_LOG_VERSION: u16 = 1;

/// Absolute record-count ceiling for one in-memory maintenance log.
pub const MAX_SKETCH_MAINTENANCE_RECORDS: usize = 1_048_576;

/// Width of one encoded record.
pub const RECORD_BYTES: usize = 184;

/// Width of the encoded log header.
pub const LOG_HEADER_BYTES: usize = 20;

/// Length of both digest-domain tags.
pub const DIGEST_DOMAIN_BYTES: usize = 32;

/// Unkeyed digest of one canonical sketch state: drift-detection evidence,
/// not a content address.
#[derive(Clone, Copy, Debug, Eq, Hash, Ord, PartialEq, PartialOrd)]
pub struct SketchStateDigest([u8; 32]);

/// Unkeyed digest of a canonical maintenance input: the merge operand, or
/// the deletion that could not be applied.
#[derive(Clone, Copy, Debug, Eq, Hash, Ord, PartialEq, PartialOrd)]
pub struct SketchInputDigest([u8; 32]);

/// The domain tag hashed ahead of a canonical state.
pub open spec fn state_digest_domain() -> Seq<u8> {
    "fgdb:sketch-maintenance:state:v1"@.map_values(|c: char| c as u8)
}

/// The domain tag hashed ahead of a canonical input.
pub open spec fn input_digest_domain() -> Seq<u8> {
    "fgdb:sketch-maintenance:input:v1"@.map_values(|c: char| c as u8)
}

/// What a digest hashes: the domain tag, the little-endian byte length of
/// the canonical bytes, then the bytes.
pub open spec fn digest_transcript(domain: Seq<u8>, canonical: Seq<u8>) -> Seq<u8> {
    domain + le_u64(canonical.len() as u64) + canonical
}

fn domain_bytes(state: bool) -> (domain: [u8; DIGEST_DOMAIN_BYTES])
    ensures
        domain@ == if state {
            state_digest_domain()
        } else {
            input_digest_domain()
        },
{
    proof {
        reveal_strlit("fgdb:sketch-maintenance:state:v1");
        reveal_strlit("fgdb:sketch-maintenance:input:v1");
    }
    let tag: u8 = if state {
        0x73
    } else {
        0x69
    };
    let second: u8 = if state {
        0x74
    } else {
        0x6e
    };
    let third: u8 = if state {
        0x61
    } else {
        0x70
    };
    let fourth: u8 = if state {
        0x74
    } else {
        0x75
    };
    let fifth: u8 = if state {
        0x65
    } else {
        0x74
    };
    let domain = [
        0x66u8, 0x67u8, 0x64u8, 0x62u8, 0x3au8, 0x73u8, 0x6bu8, 0x65u8, 0x74u8, 0x63u8, 0x68u8,
        0x2du8, 0x6du8, 0x61u8, 0x69u8, 0x6eu8, 0x74u8, 0x65u8, 0x6eu8, 0x61u8, 0x6eu8, 0x63u8,
        0x65u8, 0x3au8, tag, second, third, fourth, fifth, 0x3au8, 0x76u8, 0x31u8,
    ];
    proof {
        if state {
            assert(domain@ =~= state_digest_domain());
        } else {
            assert(domain@ =~= input_digest_domain());
        }
    }
    domain
}

fn digest_transcript_of(state: bool, canonical: &[u8]) -> (transcript: Vec<u8>)
    ensures
        transcript@ == digest_transcript(
            if state {
                state_digest_domain()
            } else {
                input_digest_domain()
            },
            canonical@,
        ),
{
    let domain = domain_bytes(state);
    let mut transcript: Vec<u8> = Vec::new();
    extend_bytes(&mut transcript, domain.as_slice());
    push_le_u64(&mut transcript, canonical.len() as u64);
    extend_bytes(&mut transcript, canonical);
    transcript
}

impl SketchStateDigest {
    /// The digest bytes.
    pub closed spec fn spec_bytes(self) -> Seq<u8> {
        self.0@
    }

    /// The transcript whose hash digests one complete canonical sketch
    /// state.
    pub fn transcript(canonical_state: &[u8]) -> (transcript: Vec<u8>)
        ensures
            transcript@ == digest_transcript(state_digest_domain(), canonical_state@),
    {
        digest_transcript_of(true, canonical_state)
    }

    /// Wraps the hash of a state transcript.
    pub fn from_hash(hash: [u8; 32]) -> (digest: Self)
        ensures
            digest.spec_bytes() == hash@,
    {
        SketchStateDigest(hash)
    }

    /// Exact digest bytes.
    pub fn as_bytes(&self) -> (bytes: &[u8; 32])
        ensures
            bytes@ == self.spec_bytes(),
    {
        &self.0
    }
}

impl SketchInputDigest {
    /// The digest bytes.
    pub closed spec fn spec_bytes(self) -> Seq<u8> {
        self.0@
    }

    /// The transcript whose hash digests one complete canonical maintenance
    /// input.
    pub fn transcript(canonical_input: &[u8]) -> (transcript: Vec<u8>)
        ensures
            transcript@ == digest_transcript(input_digest_domain(), canonical_input@),
    {
        digest_transcript_of(false, canonical_input)
    }

    /// Wraps the hash of an input transcript.
    pub fn from_hash(hash: [u8; 32]) -> (digest: Self)
        ensures
            digest.spec_bytes() == hash@,
    {
        SketchInputDigest(hash)
    }

    /// Exact digest bytes.
    pub fn as_bytes(&self) -> (bytes: &[u8; 32])
        ensures
            bytes@ == self.spec_bytes(),
    {
        &self.0
    }
}

/// Closed vocabulary of maintained sketch families.
#[derive(Clone, Copy, Debug, Eq, Hash, Ord, PartialEq, PartialOrd, Structural)]
pub enum SketchFamily {
    ExactQuantiles,
    DegreeHistogram,
    CountMin,
    BottomK,
    Distinct,
    ZoneMap,
}

/// The encoded tag of a family.
pub open spec fn family_tag(family: SketchFamily) -> u8 {
    match family {
        SketchFamily::ExactQuantiles => 1,
        SketchFamily::DegreeHistogram => 2,
        SketchFamily::CountMin => 3,
        SketchFamily::BottomK => 4,
        SketchFamily::Distinct => 5,
        SketchFamily::ZoneMap => 6,
    }
}

impl SketchFamily {
    /// The encoded tag.
    pub fn tag(self) -> (tag: u8)
        ensures
            tag == family_tag(self),
    {
        match self {
            SketchFamily::ExactQuantiles => 1,
            SketchFamily::DegreeHistogram => 2,
            SketchFamily::CountMin => 3,
            SketchFamily::BottomK => 4,
            SketchFamily::Distinct => 5,
            SketchFamily::ZoneMap => 6,
        }
    }

    fn from_tag(tag: u8) -> (result: Result<Self, SketchMaintenanceCodecError>)
        ensures
            match result {
                Ok(family) => 1 <= tag <= 6 && family_tag(family) == tag,
                Err(error) => !(1 <= tag <= 6) && error
                    == (SketchMaintenanceCodecError::UnknownSketchFamily { tag }),
            },
    {
        match tag {
            1 => Ok(SketchFamily::ExactQuantiles),
            2 => Ok(SketchFamily::DegreeHistogram),
            3 => Ok(SketchFamily::CountMin),
            4 => Ok(SketchFamily::BottomK),
            5 => Ok(SketchFamily::Distinct),
            6 => Ok(SketchFamily::ZoneMap),
            _ => Err(SketchMaintenanceCodecError::UnknownSketchFamily { tag }),
        }
    }
}

/// Result of one derived-state maintenance operation.
#[derive(Clone, Copy, Debug, Eq, Hash, Ord, PartialEq, PartialOrd, Structural)]
pub enum SketchMaintenanceOutcome {
    /// Two canonical sketch states were merged.
    Merged,
    /// The input could not be applied exactly; the state stayed unchanged
    /// and a rebuild is required before the summary can be trusted.
    RebuildRequired,
}

/// The encoded tag of an outcome.
pub open spec fn outcome_tag(outcome: SketchMaintenanceOutcome) -> u8 {
    match outcome {
        SketchMaintenanceOutcome::Merged => 1,
        SketchMaintenanceOutcome::RebuildRequired => 2,
    }
}

impl SketchMaintenanceOutcome {
    /// The encoded tag.
    pub fn tag(self) -> (tag: u8)
        ensures
            tag == outcome_tag(self),
    {
        match self {
            SketchMaintenanceOutcome::Merged => 1,
            SketchMaintenanceOutcome::RebuildRequired => 2,
        }
    }

    fn from_tag(tag: u8) -> (result: Result<Self, SketchMaintenanceCodecError>)
        ensures
            match result {
                Ok(outcome) => 1 <= tag <= 2 && outcome_tag(outcome) == tag,
                Err(error) => !(1 <= tag <= 2) && error
                    == (SketchMaintenanceCodecError::UnknownMaintenanceOutcome { tag }),
            },
    {
        match tag {
            1 => Ok(SketchMaintenanceOutcome::Merged),
            2 => Ok(SketchMaintenanceOutcome::RebuildRequired),
            _ => Err(SketchMaintenanceCodecError::UnknownMaintenanceOutcome { tag }),
        }
    }
}

/// Bounded-log construction or append error.
#[derive(Clone, Debug, Eq, PartialEq)]
pub enum SketchMaintenanceLogError {
    /// The durable capacity profile is invalid.
    InvalidProfile { max_records: usize },
    /// The log has reached its durable capacity.
    CapacityExceeded { max_records: usize },
    /// The event sequence was not the next gap-free value.
    Sequence { expected: u64, actual: u64 },
    /// The platform could not represent the next sequence.
    SequenceOverflow,
    /// A caller-constructed record violated an outcome invariant.
    InvalidRecord(SketchMaintenanceCodecError),
}

/// Strict canonical codec failure.
#[derive(Clone, Debug, Eq, PartialEq)]
pub enum SketchMaintenanceCodecError {
    RecordLength { expected: usize, actual: usize },
    RecordMagic,
    RecordVersion { version: u16 },
    RecordReserved { reserved: u32 },
    UnknownSketchFamily { tag: u8 },
    UnknownMaintenanceOutcome { tag: u8 },
    RebuildMutatedState,
    InvalidProfile { max_records: usize },
    EncodedBytesLimit { actual: usize, max_encoded_bytes: usize },
    LogTruncated { minimum: usize, actual: usize },
    LogMagic,
    LogVersion { version: u16 },
    LogReserved { reserved: u16 },
    ProfileMismatch { expected: usize, actual: usize },
    ProfileLimit { encoded_profile: usize, caller_max_records: usize, absolute_max_records: usize },
    RecordCountLimit { record_count: usize, encoded_profile: usize, caller_max_records: usize },
    ProfileTooLarge { max_records: usize },
    RecordCountTooLarge { record_count: usize },
    EncodedLengthOverflow,
    LogLength { expected: usize, actual: usize },
    AllocationFailed { requested_bytes: usize },
    Sequence { expected: u64, actual: u64 },
    SequenceOverflow,
}

/// One identity-bound sketch-maintenance event.
#[derive(Clone, Copy, Debug, Eq, PartialEq)]
pub struct SketchMaintenanceRecord {
    /// Gap-free sequence within the log, beginning at zero.
    pub sequence: u64,
    /// Sketch representation maintained by this event.
    pub family: SketchFamily,
    /// Whether the input was applied or instead requires a rebuild.
    pub outcome: SketchMaintenanceOutcome,
    /// Identity of the complete sketch profile.
    pub sketch_profile_oid: ObjectId,
    /// Identity of the logical operation that caused the event.
    pub operation_oid: ObjectId,
    /// Canonical state before maintenance.
    pub before_digest: SketchStateDigest,
    /// Canonical merge operand or unapplied deletion input.
    pub input_digest: SketchInputDigest,
    /// Canonical state after maintenance.
    pub after_digest: SketchStateDigest,
}

/// A record is consistent when a rebuild-required event leaves the state
/// digest unchanged.
pub open spec fn record_valid(record: SketchMaintenanceRecord) -> bool {
    record.outcome == SketchMaintenanceOutcome::RebuildRequired ==> record.before_digest.spec_bytes()
        == record.after_digest.spec_bytes()
}

/// The eight magic bytes of a record.
pub open spec fn record_magic() -> Seq<u8> {
    seq![0x46u8, 0x47u8, 0x44u8, 0x42u8, 0x53u8, 0x4du8, 0x52u8, 0x31u8]
}

/// The eight magic bytes of a log.
pub open spec fn log_magic() -> Seq<u8> {
    seq![0x46u8, 0x47u8, 0x44u8, 0x42u8, 0x53u8, 0x4du8, 0x4cu8, 0x31u8]
}

fn magic_bytes(record: bool) -> (magic: [u8; 8])
    ensures
        magic@ == if record {
            record_magic()
        } else {
            log_magic()
        },
{
    let kind: u8 = if record {
        0x52
    } else {
        0x4c
    };
    let magic = [0x46u8, 0x47u8, 0x44u8, 0x42u8, 0x53u8, 0x4du8, kind, 0x31u8];
    proof {
        if record {
            assert(magic@ =~= record_magic());
        } else {
            assert(magic@ =~= log_magic());
        }
    }
    magic
}

/// The canonical 184-byte encoding of a record: magic, version, family and
/// outcome tags, a zero reserved word, the sequence, both identities and
/// the three digests.
pub open spec fn record_encoding(record: SketchMaintenanceRecord) -> Seq<u8> {
    record_magic() + le_u16(1) + seq![family_tag(record.family), outcome_tag(record.outcome)]
        + le_u32(0) + le_u64(record.sequence) + record.sketch_profile_oid.0@
        + record.operation_oid.0@ + record.before_digest.spec_bytes()
        + record.input_digest.spec_bytes() + record.after_digest.spec_bytes()
}

/// The first check a standalone record encoding fails, if any.
pub open spec fn record_fault(bytes: Seq<u8>) -> Option<SketchMaintenanceCodecError> {
    if bytes.len() != 184 {
        Some(
            SketchMaintenanceCodecError::RecordLength {
                expected: 184,
                actual: bytes.len() as usize,
            },
        )
    } else if bytes.subrange(0, 8) != record_magic() {
        Some(SketchMaintenanceCodecError::RecordMagic)
    } else if decode_le_u16(bytes.subrange(8, 10)) != 1 {
        Some(
            SketchMaintenanceCodecError::RecordVersion {
                version: decode_le_u16(bytes.subrange(8, 10)),
            },
        )
    } else if decode_le_u32(bytes.subrange(12, 16)) != 0 {
        Some(
            SketchMaintenanceCodecError::RecordReserved {
                reserved: decode_le_u32(bytes.subrange(12, 16)),
            },
        )
    } else if !(1 <= bytes[10] <= 6) {
        Some(SketchMaintenanceCodecError::UnknownSketchFamily { tag: bytes[10] })
    } else if !(1 <= bytes[11] <= 2) {
        Some(SketchMaintenanceCodecError::UnknownMaintenanceOutcome { tag: bytes[11] })
    } else if bytes[11] == 2 && bytes.subrange(88, 120) != bytes.subrange(152, 184) {
        Some(SketchMaintenanceCodecError::RebuildMutatedState)
    } else {
        None
    }
}

fn same_digest_bytes(left: &[u8; 32], right: &[u8; 32]) -> (same: bool)
    ensures
        same == (left@ == right@),
{
    bytes_equal(left.as_slice(), right.as_slice())
}

impl SketchMaintenanceRecord {
    /// Records a merged canonical sketch state, from the digests of the
    /// state before, the operand and the state after.
    pub fn merged(
        sequence: u64,
        family: SketchFamily,
        sketch_profile_oid: ObjectId,
        operation_oid: ObjectId,
        before_digest: SketchStateDigest,
        operand_digest: SketchInputDigest,
        after_digest: SketchStateDigest,
    ) -> (record: Self)
        ensures
            record == (SketchMaintenanceRecord {
                sequence,
                family,
                outcome: SketchMaintenanceOutcome::Merged,
                sketch_profile_oid,
                operation_oid,
                before_digest,
                input_digest: operand_digest,
                after_digest,
            }),
            record_valid(record),
    {
        SketchMaintenanceRecord {
            sequence,
            family,
            outcome: SketchMaintenanceOutcome::Merged,
            sketch_profile_oid,
            operation_oid,
            before_digest,
            input_digest: operand_digest,
            after_digest,
        }
    }

    /// Records an unapplied deletion that requires rebuilding derived
    /// state. The after digest is the before digest, so the no-mutation
    /// guarantee is structural.
    pub fn rebuild_required(
        sequence: u64,
        family: SketchFamily,
        sketch_profile_oid: ObjectId,
        operation_oid: ObjectId,
        unchanged_digest: SketchStateDigest,
        deletion_digest: SketchInputDigest,
    ) -> (record: Self)
        ensures
            record == (SketchMaintenanceRecord {
                sequence,
                family,
                outcome: SketchMaintenanceOutcome::RebuildRequired,
                sketch_profile_oid,
                operation_oid,
                before_digest: unchanged_digest,
                input_digest: deletion_digest,
                after_digest: unchanged_digest,
            }),
            record_valid(record),
    {
        SketchMaintenanceRecord {
            sequence,
            family,
            outcome: SketchMaintenanceOutcome::RebuildRequired,
            sketch_profile_oid,
            operation_oid,
            before_digest: unchanged_digest,
            input_digest: deletion_digest,
            after_digest: unchanged_digest,
        }
    }

    fn validate_outcome(self) -> (result: Result<(), SketchMaintenanceCodecError>)
        ensures
            result is Ok <==> record_valid(self),
            result is Err ==> result == Err::<(), SketchMaintenanceCodecError>(
                SketchMaintenanceCodecError::RebuildMutatedState,
            ),
    {
        if self.outcome == SketchMaintenanceOutcome::RebuildRequired && !same_digest_bytes(
            self.before_digest.as_bytes(),
            self.after_digest.as_bytes(),
        ) {
            return Err(SketchMaintenanceCodecError::RebuildMutatedState);
        }
        Ok(())
    }

    fn append_encoding(self, out: &mut Vec<u8>)
        ensures
            final(out)@ == old(out)@ + record_encoding(self),
    {
        let magic = magic_bytes(true);
        extend_bytes(out, magic.as_slice());
        push_le_u16(out, SKETCH_MAINTENANCE_RECORD_VERSION);
        out.push(self.family.tag());
        out.push(self.outcome.tag());
        push_le_u32(out, 0);
        push_le_u64(out, self.sequence);
        extend_bytes(out, self.sketch_profile_oid.0.as_slice());
        extend_bytes(out, self.operation_oid.0.as_slice());
        extend_bytes(out, self.before_digest.as_bytes().as_slice());
        extend_bytes(out, self.input_digest.as_bytes().as_slice());
        extend_bytes(out, self.after_digest.as_bytes().as_slice());
        proof {
            let tags = seq![family_tag(self.family), outcome_tag(self.outcome)];
            assert(old(out)@ + record_encoding(self) =~= old(out)@ + record_magic() + le_u16(1)
                + seq![family_tag(self.family)] + seq![outcome_tag(self.outcome)] + le_u32(0) + le_u64(
                self.sequence,
            ) + self.sketch_profile_oid.0@ + self.operation_oid.0@
                + self.before_digest.spec_bytes() + self.input_digest.spec_bytes()
                + self.after_digest.spec_bytes());
        }
    }

    /// Encodes this record into its fixed-width canonical form.
    pub fn to_canonical_bytes(self) -> (bytes: [u8; RECORD_BYTES])
        ensures
            bytes@ == record_encoding(self),
    {
        let mut out: Vec<u8> = Vec::new();
        self.append_encoding(&mut out);
        proof {
            lemma_record_encoding_len(self);
        }
        let mut bytes = [0u8; RECORD_BYTES];
        let mut index: usize = 0;
        while index < RECORD_BYTES
            invariant
                index <= RECORD_BYTES,
                out@ == record_encoding(self),
                out@.len() == RECORD_BYTES,
                bytes@.len() == RECORD_BYTES,
                forall|i: int| 0 <= i < index ==> bytes@[i] == out@[i],
            decreases RECORD_BYTES - index,
        {
            bytes[index] = out[index];
            index = index + 1;
        }
        proof {
            assert(bytes@ =~= out@);
        }
        bytes
    }

    /// Decodes one exact canonical record.
    pub fn from_canonical_bytes(bytes: &[u8]) -> (result: Result<Self, SketchMaintenanceCodecError>)
        ensures
            match result {
                Ok(record) => {
                    &&& record_fault(bytes@) is None
                    &&& record_encoding(record) == bytes@
                    &&& record_valid(record)
                },
                Err(error) => record_fault(bytes@) == Some(error),
            },
    {
        if bytes.len() != RECORD_BYTES {
            return Err(
                SketchMaintenanceCodecError::RecordLength {
                    expected: RECORD_BYTES,
                    actual: bytes.len(),
                },
            );
        }
        let head = leading_eight(bytes);
        let magic = magic_bytes(true);
        if !bytes_equal(head.as_slice(), magic.as_slice()) {
            return Err(SketchMaintenanceCodecError::RecordMagic);
        }
        let version = read_le_u16_at(bytes, 8);
        if version != SKETCH_MAINTENANCE_RECORD_VERSION {
            return Err(SketchMaintenanceCodecError::RecordVersion { version });
        }
        let reserved = read_le_u32_at(bytes, 12);
        if reserved != 0 {
            return Err(SketchMaintenanceCodecError::RecordReserved { reserved });
        }
        let family = SketchFamily::from_tag(bytes[10])?;
        let outcome = SketchMaintenanceOutcome::from_tag(bytes[11])?;
        let record = SketchMaintenanceRecord {
            family,
            outcome,
            sequence: read_le_u64_at(bytes, 16),
            sketch_profile_oid: ObjectId(read_array_32(bytes, 24)),
            operation_oid: ObjectId(read_array_32(bytes, 56)),
            before_digest: SketchStateDigest(read_array_32(bytes, 88)),
            input_digest: SketchInputDigest(read_array_32(bytes, 120)),
            after_digest: SketchStateDigest(read_array_32(bytes, 152)),
        };
        proof {
            lemma_decoded_record_encodes(bytes@, record);
        }
        record.validate_outcome()?;
        Ok(record)
    }
}

proof fn lemma_record_encoding_len(record: SketchMaintenanceRecord)
    ensures
        record_encoding(record).len() == 184,
{
    lemma_le_round_trips(1, 0, record.sequence, Seq::empty());
}

/// A record assembled from the fields of bytes that pass the header checks
/// encodes back to those bytes.
proof fn lemma_decoded_record_encodes(bytes: Seq<u8>, record: SketchMaintenanceRecord)
    requires
        bytes.len() == 184,
        bytes.subrange(0, 8) == record_magic(),
        decode_le_u16(bytes.subrange(8, 10)) == 1,
        decode_le_u32(bytes.subrange(12, 16)) == 0,
        family_tag(record.family) == bytes[10],
        outcome_tag(record.outcome) == bytes[11],
        record.sequence == decode_le_u64(bytes.subrange(16, 24)),
        record.sketch_profile_oid.0@ == bytes.subrange(24, 56),
        record.operation_oid.0@ == bytes.subrange(56, 88),
        record.before_digest.spec_bytes() == bytes.subrange(88, 120),
        record.input_digest.spec_bytes() == bytes.subrange(120, 152),
        record.after_digest.spec_bytes() == bytes.subrange(152, 184),
    ensures
        record_encoding(record) == bytes,
{
    lemma_le_round_trips(1, 0, record.sequence, bytes.subrange(8, 10));
    lemma_le_round_trips(1, 0, record.sequence, bytes.subrange(12, 16));
    lemma_le_round_trips(1, 0, record.sequence, bytes.subrange(16, 24));
    assert(bytes =~= bytes.subrange(0, 8) + bytes.subrange(8, 10) + bytes.subrange(10, 12)
        + bytes.subrange(12, 16) + bytes.subrange(16, 24) + bytes.subrange(24, 56) + bytes.subrange(
        56,
        88,
    ) + bytes.subrange(88, 120) + bytes.subrange(120, 152) + bytes.subrange(152, 184));
    assert(bytes.subrange(10, 12) =~= seq![bytes[10], bytes[11]]);
}

/// The layout of a record encoding, field by field.
proof fn lemma_record_fields(record: SketchMaintenanceRecord)
    ensures
        ({
            let bytes = record_encoding(record);
            &&& bytes.len() == 184
            &&& bytes.subrange(0, 8) == record_magic()
            &&& bytes.subrange(8, 10) == le_u16(1)
            &&& bytes[10] == family_tag(record.family)
            &&& bytes[11] == outcome_tag(record.outcome)
            &&& bytes.subrange(12, 16) == le_u32(0)
            &&& bytes.subrange(16, 24) == le_u64(record.sequence)
            &&& bytes.subrange(24, 56) == record.sketch_profile_oid.0@
            &&& bytes.subrange(56, 88) == record.operation_oid.0@
            &&& bytes.subrange(88, 120) == record.before_digest.spec_bytes()
            &&& bytes.subrange(120, 152) == record.input_digest.spec_bytes()
            &&& bytes.subrange(152, 184) == record.after_digest.spec_bytes()
        }),
{
    lemma_le_round_trips(1, 0, record.sequence, Seq::empty());
    let bytes = record_encoding(record);
    assert(bytes.subrange(0, 8) =~= record_magic());
    assert(bytes.subrange(8, 10) =~= le_u16(1));
    assert(bytes.subrange(12, 16) =~= le_u32(0));
    assert(bytes.subrange(16, 24) =~= le_u64(record.sequence));
    assert(bytes.subrange(24, 56) =~= record.sketch_profile_oid.0@);
    assert(bytes.subrange(56, 88) =~= record.operation_oid.0@);
    assert(bytes.subrange(88, 120) =~= record.before_digest.spec_bytes());
    assert(bytes.subrange(120, 152) =~= record.input_digest.spec_bytes());
    assert(bytes.subrange(152, 184) =~= record.after_digest.spec_bytes());
}

/// The encoding of every consistent record passes every decoding check.
pub proof fn lemma_record_encoding_decodes(record: SketchMaintenanceRecord)
    requires
        record_valid(record),
    ensures
        record_fault(record_encoding(record)) is None,
{
    lemma_record_fields(record);
    lemma_le_round_trips(1, 0, record.sequence, Seq::empty());
}

/// Records with the same encoding are the same record.
pub proof fn lemma_record_encoding_injective(
    left: SketchMaintenanceRecord,
    right: SketchMaintenanceRecord,
)
    requires
        record_encoding(left) == record_encoding(right),
    ensures
        left == right,
{
    broadcast use vstd::array::axiom_array_ext_equal;

    lemma_record_fields(left);
    lemma_record_fields(right);
    lemma_le_round_trips(1, 0, left.sequence, Seq::empty());
    lemma_le_round_trips(1, 0, right.sequence, Seq::empty());
    assert(left.sketch_profile_oid.0 =~= right.sketch_profile_oid.0);
    assert(left.operation_oid.0 =~= right.operation_oid.0);
    assert(left.before_digest.0 =~= right.before_digest.0);
    assert(left.input_digest.0 =~= right.input_digest.0);
    assert(left.after_digest.0 =~= right.after_digest.0);
}

/// Caller-owned admission bounds for decoding a canonical log. They are
/// independent of the encoded profile, so untrusted bytes cannot authorize
/// their own allocation.
#[derive(Clone, Copy, Debug, Eq, PartialEq, Structural)]
pub struct SketchMaintenanceLogDecodeLimits {
    /// Largest encoded profile or concrete record count accepted.
    pub max_records: usize,
    /// Largest complete canonical log accepted.
    pub max_encoded_bytes: usize,
}

impl SketchMaintenanceLogDecodeLimits {
    /// An explicit decode admission policy.
    pub fn new(max_records: usize, max_encoded_bytes: usize) -> (limits: Self)
        ensures
            limits == (SketchMaintenanceLogDecodeLimits { max_records, max_encoded_bytes }),
    {
        SketchMaintenanceLogDecodeLimits { max_records, max_encoded_bytes }
    }
}

/// A durable capacity profile: between one and the absolute ceiling.
pub open spec fn profile_valid(max_records: usize) -> bool {
    1 <= max_records <= MAX_SKETCH_MAINTENANCE_RECORDS
}

/// A log's contents: a valid profile, at most that many records, each
/// consistent and numbered by its position.
pub open spec fn log_valid(max_records: usize, records: Seq<SketchMaintenanceRecord>) -> bool {
    &&& profile_valid(max_records)
    &&& records.len() <= max_records
    &&& forall|i: int|
        0 <= i < records.len() ==> (#[trigger] records[i]).sequence == i && record_valid(records[i])
}

/// The record encodings, one after another.
pub open spec fn records_encoding(records: Seq<SketchMaintenanceRecord>) -> Seq<u8>
    decreases records.len(),
{
    if records.len() == 0 {
        Seq::empty()
    } else {
        records_encoding(records.drop_last()) + record_encoding(records.last())
    }
}

/// The canonical encoding of a log: magic, version, a zero reserved half
/// word, the profile, the record count, then the records.
pub open spec fn log_encoding(max_records: usize, records: Seq<SketchMaintenanceRecord>) -> Seq<u8> {
    log_magic() + le_u16(1) + le_u16(0) + le_u32(max_records as u32) + le_u32(
        records.len() as u32,
    ) + records_encoding(records)
}

/// Exact byte length of a log with `count` records.
pub open spec fn log_length(count: int) -> int {
    20 + 184 * count
}

/// The profile a log encoding declares.
pub open spec fn encoded_profile(bytes: Seq<u8>) -> usize {
    decode_le_u32(bytes.subrange(12, 16)) as usize
}

/// The record count a log encoding declares.
pub open spec fn encoded_count(bytes: Seq<u8>) -> usize {
    decode_le_u32(bytes.subrange(16, 20)) as usize
}

/// The bytes of record `i` in a log encoding.
pub open spec fn log_chunk(bytes: Seq<u8>, i: int) -> Seq<u8> {
    bytes.subrange(log_length(i), log_length(i + 1))
}

/// The first check of a log's header and length that fails, if any.
pub open spec fn log_header_fault(
    bytes: Seq<u8>,
    limits: SketchMaintenanceLogDecodeLimits,
    expected_max_records: usize,
) -> Option<SketchMaintenanceCodecError> {
    let profile = encoded_profile(bytes);
    let count = encoded_count(bytes);
    if !profile_valid(expected_max_records) {
        Some(SketchMaintenanceCodecError::InvalidProfile { max_records: expected_max_records })
    } else if bytes.len() > limits.max_encoded_bytes {
        Some(
            SketchMaintenanceCodecError::EncodedBytesLimit {
                actual: bytes.len() as usize,
                max_encoded_bytes: limits.max_encoded_bytes,
            },
        )
    } else if bytes.len() < 20 {
        Some(SketchMaintenanceCodecError::LogTruncated { minimum: 20, actual: bytes.len() as usize })
    } else if bytes.subrange(0, 8) != log_magic() {
        Some(SketchMaintenanceCodecError::LogMagic)
    } else if decode_le_u16(bytes.subrange(8, 10)) != 1 {
        Some(SketchMaintenanceCodecError::LogVersion { version: decode_le_u16(bytes.subrange(8, 10)) })
    } else if decode_le_u16(bytes.subrange(10, 12)) != 0 {
        Some(
            SketchMaintenanceCodecError::LogReserved { reserved: decode_le_u16(bytes.subrange(10, 12)) },
        )
    } else if profile != expected_max_records {
        Some(SketchMaintenanceCodecError::ProfileMismatch { expected: expected_max_records, actual: profile })
    } else if profile > MAX_SKETCH_MAINTENANCE_RECORDS || profile > limits.max_records {
        Some(
            SketchMaintenanceCodecError::ProfileLimit {
                encoded_profile: profile,
                caller_max_records: limits.max_records,
                absolute_max_records: MAX_SKETCH_MAINTENANCE_RECORDS,
            },
        )
    } else if count > profile || count > limits.max_records {
        Some(
            SketchMaintenanceCodecError::RecordCountLimit {
                record_count: count,
                encoded_profile: profile,
                caller_max_records: limits.max_records,
            },
        )
    } else if log_length(count as int) != bytes.len() {
        Some(
            SketchMaintenanceCodecError::LogLength {
                expected: log_length(count as int) as usize,
                actual: bytes.len() as usize,
            },
        )
    } else {
        None
    }
}

/// The first record, from position `from` on, that fails to decode or is
/// out of sequence, if any.
pub open spec fn log_records_fault(bytes: Seq<u8>, count: int, from: int) -> Option<
    SketchMaintenanceCodecError,
>
    decreases count - from,
{
    if from < 0 || from >= count {
        None
    } else {
        let chunk = log_chunk(bytes, from);
        match record_fault(chunk) {
            Some(fault) => Some(fault),
            None => if decode_le_u64(chunk.subrange(16, 24)) != from as u64 {
                Some(
                    SketchMaintenanceCodecError::Sequence {
                        expected: from as u64,
                        actual: decode_le_u64(chunk.subrange(16, 24)),
                    },
                )
            } else {
                log_records_fault(bytes, count, from + 1)
            },
        }
    }
}

/// The layout of concatenated record encodings.
proof fn lemma_records_layout(records: Seq<SketchMaintenanceRecord>)
    ensures
        records_encoding(records).len() == 184 * records.len(),
        forall|i: int|
            0 <= i < records.len() ==> #[trigger] records_encoding(records).subrange(
                184 * i,
                184 * i + 184,
            ) == record_encoding(records[i]),
    decreases records.len(),
{
    if records.len() > 0 {
        let prefix = records.drop_last();
        lemma_records_layout(prefix);
        lemma_record_encoding_len(records.last());
        let all = records_encoding(records);
        assert forall|i: int| 0 <= i < records.len() implies #[trigger] all.subrange(
            184 * i,
            184 * i + 184,
        ) == record_encoding(records[i]) by {
            if i < records.len() - 1 {
                assert(all.subrange(184 * i, 184 * i + 184) =~= records_encoding(prefix).subrange(
                    184 * i,
                    184 * i + 184,
                ));
                assert(prefix[i] == records[i]);
            } else {
                assert(all.subrange(184 * i, 184 * i + 184) =~= record_encoding(records.last()));
            }
        }
    }
}

/// Bytes whose first `n` chunks encode the first `n` records hold those
/// encodings, in order, after the header.
proof fn lemma_chunks_assemble(
    bytes: Seq<u8>,
    records: Seq<SketchMaintenanceRecord>,
    n: int,
)
    requires
        0 <= n <= records.len(),
        bytes.len() >= log_length(n),
        forall|i: int| 0 <= i < n ==> record_encoding(#[trigger] records[i]) == log_chunk(bytes, i),
    ensures
        bytes.subrange(20, log_length(n)) == records_encoding(records.take(n)),
    decreases n,
{
    if n == 0 {
        assert(bytes.subrange(20, 20) =~= Seq::<u8>::empty());
    } else {
        lemma_chunks_assemble(bytes, records, n - 1);
        let taken = records.take(n);
        assert(taken.drop_last() =~= records.take(n - 1));
        assert(taken.last() == records[n - 1]);
        assert(bytes.subrange(20, log_length(n)) =~= bytes.subrange(20, log_length(n - 1))
            + log_chunk(bytes, n - 1));
    }
}

/// The layout of a log encoding: header fields, then each record's chunk.
proof fn lemma_log_fields(max_records: usize, records: Seq<SketchMaintenanceRecord>)
    ensures
        ({
            let bytes = log_encoding(max_records, records);
            &&& bytes.len() == log_length(records.len() as int)
            &&& bytes.subrange(0, 8) == log_magic()
            &&& bytes.subrange(8, 10) == le_u16(1)
            &&& bytes.subrange(10, 12) == le_u16(0)
            &&& bytes.subrange(12, 16) == le_u32(max_records as u32)
            &&& bytes.subrange(16, 20) == le_u32(records.len() as u32)
            &&& bytes.subrange(20, bytes.len() as int) == records_encoding(records)
            &&& forall|i: int|
                0 <= i < records.len() ==> #[trigger] log_chunk(bytes, i) == record_encoding(
                    records[i],
                )
        }),
{
    lemma_records_layout(records);
    lemma_le_round_trips(1, max_records as u32, 0, Seq::empty());
    lemma_le_round_trips(0, records.len() as u32, 0, Seq::empty());
    let bytes = log_encoding(max_records, records);
    let body = records_encoding(records);
    assert(bytes.subrange(0, 8) =~= log_magic());
    assert(bytes.subrange(8, 10) =~= le_u16(1));
    assert(bytes.subrange(10, 12) =~= le_u16(0));
    assert(bytes.subrange(12, 16) =~= le_u32(max_records as u32));
    assert(bytes.subrange(16, 20) =~= le_u32(records.len() as u32));
    assert(bytes.subrange(20, bytes.len() as int) =~= body);
    assert forall|i: int| 0 <= i < records.len() implies #[trigger] log_chunk(bytes, i)
        == record_encoding(records[i]) by {
        assert(log_chunk(bytes, i) =~= body.subrange(184 * i, 184 * i + 184));
    }
}

/// The encoding of every valid log passes every decoding check under limits
/// that admit its profile and its length.
pub proof fn lemma_log_encoding_decodes(
    max_records: usize,
    records: Seq<SketchMaintenanceRecord>,
    limits: SketchMaintenanceLogDecodeLimits,
)
    requires
        log_valid(max_records, records),
        max_records <= limits.max_records,
        log_length(records.len() as int) <= limits.max_encoded_bytes,
    ensures
        log_header_fault(log_encoding(max_records, records), limits, max_records) is None,
        encoded_count(log_encoding(max_records, records)) == records.len(),
        log_records_fault(log_encoding(max_records, records), records.len() as int, 0) is None,
{
    let bytes = log_encoding(max_records, records);
    lemma_log_fields(max_records, records);
    lemma_le_round_trips(1, max_records as u32, 0, Seq::empty());
    lemma_le_round_trips(0, records.len() as u32, 0, Seq::empty());
    lemma_records_fault_none(bytes, records, 0);
}

proof fn lemma_records_fault_none(
    bytes: Seq<u8>,
    records: Seq<SketchMaintenanceRecord>,
    from: int,
)
    requires
        0 <= from <= records.len(),
        forall|i: int|
            0 <= i < records.len() ==> (#[trigger] records[i]).sequence == i && record_valid(
                records[i],
            ),
        forall|i: int|
            0 <= i < records.len() ==> #[trigger] log_chunk(bytes, i) == record_encoding(records[i]),
    ensures
        log_records_fault(bytes, records.len() as int, from) is None,
    decreases records.len() - from,
{
    if from < records.len() {
        let record = records[from];
        lemma_record_encoding_decodes(record);
        lemma_record_fields(record);
        lemma_le_round_trips(1, 0, record.sequence, Seq::empty());
        assert(log_chunk(bytes, from) == record_encoding(record));
        lemma_records_fault_none(bytes, records, from + 1);
    }
}

/// Logs with the same encoding and valid profiles are the same log.
pub proof fn lemma_log_encoding_injective(
    left_max: usize,
    left: Seq<SketchMaintenanceRecord>,
    right_max: usize,
    right: Seq<SketchMaintenanceRecord>,
)
    requires
        log_encoding(left_max, left) == log_encoding(right_max, right),
        log_valid(left_max, left),
        log_valid(right_max, right),
    ensures
        left_max == right_max,
        left == right,
{
    lemma_log_fields(left_max, left);
    lemma_log_fields(right_max, right);
    lemma_le_round_trips(1, left_max as u32, 0, Seq::empty());
    lemma_le_round_trips(1, right_max as u32, 0, Seq::empty());
    lemma_le_round_trips(1, left.len() as u32, 0, Seq::empty());
    lemma_le_round_trips(1, right.len() as u32, 0, Seq::empty());
    let bytes = log_encoding(left_max, left);
    assert(decode_le_u32(bytes.subrange(12, 16)) == left_max as u32);
    assert(decode_le_u32(bytes.subrange(12, 16)) == right_max as u32);
    assert(decode_le_u32(bytes.subrange(16, 20)) == left.len() as u32);
    assert(decode_le_u32(bytes.subrange(16, 20)) == right.len() as u32);
    assert forall|i: int| 0 <= i < left.len() implies left[i] == right[i] by {
        assert(log_chunk(bytes, i) == record_encoding(left[i]));
        assert(log_chunk(bytes, i) == record_encoding(right[i]));
        lemma_record_encoding_injective(left[i], right[i]);
    }
    assert(left =~= right);
}

/// Bounded, gap-free sketch-maintenance stream.
#[derive(Debug, Eq, PartialEq)]
pub struct SketchMaintenanceLog {
    max_records: usize,
    records: Vec<SketchMaintenanceRecord>,
}

impl Clone for SketchMaintenanceLog {
    fn clone(&self) -> (copy: Self)
        ensures
            copy.spec_max_records() == self.spec_max_records(),
            copy.spec_records() == self.spec_records(),
    {
        proof {
            use_type_invariant(self);
        }
        let mut records: Vec<SketchMaintenanceRecord> = Vec::new();
        let mut index: usize = 0;
        while index < self.records.len()
            invariant
                index <= self.records@.len(),
                records@ == self.records@.take(index as int),
            decreases self.records@.len() - index,
        {
            records.push(self.records[index]);
            index = index + 1;
            proof {
                assert(records@ =~= self.records@.take(index as int));
            }
        }
        proof {
            assert(self.records@.take(self.records@.len() as int) =~= self.records@);
        }
        SketchMaintenanceLog { max_records: self.max_records, records }
    }
}

fn validate_profile(max_records: usize) -> (result: Result<(), SketchMaintenanceLogError>)
    ensures
        result is Ok <==> profile_valid(max_records),
        result is Err ==> result == Err::<(), SketchMaintenanceLogError>(
            SketchMaintenanceLogError::InvalidProfile { max_records },
        ),
{
    if max_records == 0 || max_records > MAX_SKETCH_MAINTENANCE_RECORDS {
        return Err(SketchMaintenanceLogError::InvalidProfile { max_records });
    }
    Ok(())
}

fn encoded_log_len(record_count: usize) -> (result: Result<usize, SketchMaintenanceCodecError>)
    ensures
        match result {
            Ok(length) => length == log_length(record_count as int),
            Err(error) => log_length(record_count as int) > usize::MAX && error
                == SketchMaintenanceCodecError::EncodedLengthOverflow,
        },
{
    match record_count.checked_mul(RECORD_BYTES) {
        Some(payload) => match LOG_HEADER_BYTES.checked_add(payload) {
            Some(length) => Ok(length),
            None => Err(SketchMaintenanceCodecError::EncodedLengthOverflow),
        },
        None => Err(SketchMaintenanceCodecError::EncodedLengthOverflow),
    }
}

impl SketchMaintenanceLog {
    #[verifier::type_invariant]
    closed spec fn well_formed(self) -> bool {
        log_valid(self.max_records, self.records@)
    }

    /// The durable maximum-record profile.
    pub closed spec fn spec_max_records(self) -> usize {
        self.max_records
    }

    /// The ordered records.
    pub closed spec fn spec_records(self) -> Seq<SketchMaintenanceRecord> {
        self.records@
    }

    /// An empty log with a durable maximum-record profile.
    pub fn new(max_records: usize) -> (result: Result<Self, SketchMaintenanceLogError>)
        ensures
            match result {
                Ok(log) => profile_valid(max_records) && log.spec_max_records() == max_records
                    && log.spec_records() == Seq::<SketchMaintenanceRecord>::empty(),
                Err(error) => !profile_valid(max_records) && error
                    == (SketchMaintenanceLogError::InvalidProfile { max_records }),
            },
    {
        validate_profile(max_records)?;
        Ok(SketchMaintenanceLog { max_records, records: Vec::new() })
    }

    /// The durable maximum-record profile.
    pub fn max_records(&self) -> (max_records: usize)
        ensures
            max_records == self.spec_max_records(),
    {
        self.max_records
    }

    /// The ordered records.
    pub fn records(&self) -> (records: &[SketchMaintenanceRecord])
        ensures
            records@ == self.spec_records(),
    {
        self.records.as_slice()
    }

    /// Appends the next gap-free event: refused at capacity, out of
    /// sequence, or when a rebuild claims a state change.
    pub fn append(&mut self, record: SketchMaintenanceRecord) -> (result: Result<
        (),
        SketchMaintenanceLogError,
    >)
        ensures
            ({
                let records = old(self).spec_records();
                let max_records = old(self).spec_max_records();
                final(self).spec_max_records() == max_records && if records.len() >= max_records {
                    result == Err::<(), SketchMaintenanceLogError>(
                        SketchMaintenanceLogError::CapacityExceeded { max_records },
                    ) && final(self).spec_records() == records
                } else if record.sequence != records.len() {
                    result == Err::<(), SketchMaintenanceLogError>(
                        SketchMaintenanceLogError::Sequence {
                            expected: records.len() as u64,
                            actual: record.sequence,
                        },
                    ) && final(self).spec_records() == records
                } else if !record_valid(record) {
                    result == Err::<(), SketchMaintenanceLogError>(
                        SketchMaintenanceLogError::InvalidRecord(
                            SketchMaintenanceCodecError::RebuildMutatedState,
                        ),
                    ) && final(self).spec_records() == records
                } else {
                    result is Ok && final(self).spec_records() == records.push(record)
                }
            }),
    {
        proof {
            use_type_invariant(&*self);
        }
        if self.records.len() >= self.max_records {
            return Err(SketchMaintenanceLogError::CapacityExceeded { max_records: self.max_records });
        }
        let expected = self.records.len() as u64;
        if record.sequence != expected {
            return Err(
                SketchMaintenanceLogError::Sequence { expected, actual: record.sequence },
            );
        }
        match record.validate_outcome() {
            Ok(()) => {},
            Err(error) => return Err(SketchMaintenanceLogError::InvalidRecord(error)),
        }
        let mut records = Vec::new();
        core::mem::swap(&mut records, &mut self.records);
        records.push(record);
        self.records = records;
        Ok(())
    }

    /// Encodes the whole bounded stream canonically. Reserving the output is
    /// the allocator's call.
    pub fn to_canonical_bytes(&self) -> (result: Result<Vec<u8>, SketchMaintenanceCodecError>)
        ensures
            match result {
                Ok(bytes) => bytes@ == log_encoding(self.spec_max_records(), self.spec_records()),
                Err(error) => error == (SketchMaintenanceCodecError::AllocationFailed {
                    requested_bytes: log_length(self.spec_records().len() as int) as usize,
                }),
            },
    {
        proof {
            use_type_invariant(self);
        }
        let encoded_len = match encoded_log_len(self.records.len()) {
            Ok(length) => length,
            Err(error) => return Err(error),
        };
        let encoded_profile = self.max_records as u32;
        let encoded_count = self.records.len() as u32;
        let mut bytes: Vec<u8> = Vec::new();
        if !try_reserve_exact(&mut bytes, encoded_len) {
            return Err(SketchMaintenanceCodecError::AllocationFailed { requested_bytes: encoded_len });
        }
        let magic = magic_bytes(false);
        extend_bytes(&mut bytes, magic.as_slice());
        push_le_u16(&mut bytes, SKETCH_MAINTENANCE_LOG_VERSION);
        push_le_u16(&mut bytes, 0);
        push_le_u32(&mut bytes, encoded_profile);
        push_le_u32(&mut bytes, encoded_count);
        let ghost header = log_magic() + le_u16(1) + le_u16(0) + le_u32(encoded_profile) + le_u32(
            encoded_count,
        );
        proof {
            assert(bytes@ =~= header + records_encoding(self.records@.take(0)));
        }
        let mut index: usize = 0;
        while index < self.records.len()
            invariant
                index <= self.records@.len(),
                bytes@ == header + records_encoding(self.records@.take(index as int)),
            decreases self.records@.len() - index,
        {
            self.records[index].append_encoding(&mut bytes);
            proof {
                let taken = self.records@.take(index + 1);
                assert(taken.drop_last() =~= self.records@.take(index as int));
                assert(taken.last() == self.records@[index as int]);
                assert(bytes@ =~= header + records_encoding(taken));
            }
            index = index + 1;
        }
        proof {
            assert(self.records@.take(self.records@.len() as int) =~= self.records@);
        }
        Ok(bytes)
    }

    /// Decodes a canonical stream under caller-owned limits and a trusted
    /// expected profile. Checks run in a fixed order; the first failure is
    /// reported. Reserving the records is the allocator's call.
    pub fn from_canonical_bytes(
        bytes: &[u8],
        limits: SketchMaintenanceLogDecodeLimits,
        expected_max_records: usize,
    ) -> (result: Result<Self, SketchMaintenanceCodecError>)
        ensures
            ({
                let header_fault = log_header_fault(bytes@, limits, expected_max_records);
                let count = encoded_count(bytes@) as int;
                match result {
                    Ok(log) => {
                        &&& header_fault is None
                        &&& log_records_fault(bytes@, count, 0) is None
                        &&& log.spec_max_records() == expected_max_records
                        &&& log_encoding(log.spec_max_records(), log.spec_records()) == bytes@
                    },
                    Err(error) => match header_fault {
                        Some(fault) => error == fault,
                        None => error is AllocationFailed || log_records_fault(bytes@, count, 0)
                            == Some(error),
                    },
                }
            }),
    {
        if validate_profile(expected_max_records).is_err() {
            return Err(
                SketchMaintenanceCodecError::InvalidProfile { max_records: expected_max_records },
            );
        }
        let length = bytes.len();
        if length > limits.max_encoded_bytes {
            return Err(
                SketchMaintenanceCodecError::EncodedBytesLimit {
                    actual: length,
                    max_encoded_bytes: limits.max_encoded_bytes,
                },
            );
        }
        if length < LOG_HEADER_BYTES {
            return Err(
                SketchMaintenanceCodecError::LogTruncated { minimum: LOG_HEADER_BYTES, actual: length },
            );
        }
        let head = leading_eight(bytes);
        let magic = magic_bytes(false);
        if !bytes_equal(head.as_slice(), magic.as_slice()) {
            return Err(SketchMaintenanceCodecError::LogMagic);
        }
        let version = read_le_u16_at(bytes, 8);
        if version != SKETCH_MAINTENANCE_LOG_VERSION {
            return Err(SketchMaintenanceCodecError::LogVersion { version });
        }
        let reserved = read_le_u16_at(bytes, 10);
        if reserved != 0 {
            return Err(SketchMaintenanceCodecError::LogReserved { reserved });
        }
        let encoded_profile = read_le_u32_at(bytes, 12) as usize;
        let record_count = read_le_u32_at(bytes, 16) as usize;
        if encoded_profile != expected_max_records {
            return Err(
                SketchMaintenanceCodecError::ProfileMismatch {
                    expected: expected_max_records,
                    actual: encoded_profile,
                },
            );
        }
        if encoded_profile > MAX_SKETCH_MAINTENANCE_RECORDS || encoded_profile > limits.max_records {
            return Err(
                SketchMaintenanceCodecError::ProfileLimit {
                    encoded_profile,
                    caller_max_records: limits.max_records,
                    absolute_max_records: MAX_SKETCH_MAINTENANCE_RECORDS,
                },
            );
        }
        if record_count > encoded_profile || record_count > limits.max_records {
            return Err(
                SketchMaintenanceCodecError::RecordCountLimit {
                    record_count,
                    encoded_profile,
                    caller_max_records: limits.max_records,
                },
            );
        }
        let expected_len = match encoded_log_len(record_count) {
            Ok(expected_len) => expected_len,
            Err(error) => return Err(error),
        };
        if expected_len != length {
            return Err(
                SketchMaintenanceCodecError::LogLength { expected: expected_len, actual: length },
            );
        }
        let mut records: Vec<SketchMaintenanceRecord> = Vec::new();
        if !try_reserve_exact(&mut records, record_count) {
            let requested_bytes = match record_count.checked_mul(
                core::mem::size_of::<SketchMaintenanceRecord>(),
            ) {
                Some(requested) => requested,
                None => usize::MAX,
            };
            return Err(SketchMaintenanceCodecError::AllocationFailed { requested_bytes });
        }
        let ghost count = record_count as int;
        proof {
            assert(log_header_fault(bytes@, limits, expected_max_records) is None);
        }
        let mut index: usize = 0;
        while index < record_count
            invariant
                index <= record_count,
                log_header_fault(bytes@, limits, expected_max_records) is None,
                count == encoded_count(bytes@),
                encoded_profile == expected_max_records,
                profile_valid(expected_max_records),
                record_count <= encoded_profile,
                count == record_count,
                length == bytes@.len(),
                bytes@.len() == log_length(count),
                records@.len() == index,
                forall|i: int|
                    0 <= i < index ==> record_encoding(#[trigger] records@[i]) == log_chunk(
                        bytes@,
                        i,
                    ) && records@[i].sequence == i && record_valid(records@[i]),
                log_records_fault(bytes@, count, 0) == log_records_fault(bytes@, count, index as int),
            decreases record_count - index,
        {
            let start = LOG_HEADER_BYTES + RECORD_BYTES * index;
            let chunk = vstd::slice::slice_subrange(bytes, start, start + RECORD_BYTES);
            proof {
                assert(chunk@ == log_chunk(bytes@, index as int));
            }
            let record = match SketchMaintenanceRecord::from_canonical_bytes(chunk) {
                Ok(record) => record,
                Err(error) => return Err(error),
            };
            proof {
                lemma_record_fields(record);
                lemma_le_round_trips(1, 0, record.sequence, Seq::empty());
                assert(decode_le_u64(chunk@.subrange(16, 24)) == record.sequence);
            }
            let expected = index as u64;
            if record.sequence != expected {
                return Err(
                    SketchMaintenanceCodecError::Sequence { expected, actual: record.sequence },
                );
            }
            records.push(record);
            index = index + 1;
        }
        proof {
            lemma_chunks_assemble(bytes@, records@, count);
            assert(records@.take(count) =~= records@);
            lemma_le_round_trips(1, 0, 0, bytes@.subrange(8, 10));
            lemma_le_round_trips(0, 0, 0, bytes@.subrange(10, 12));
            lemma_le_round_trips(0, 0, 0, bytes@.subrange(12, 16));
            lemma_le_round_trips(0, 0, 0, bytes@.subrange(16, 20));
            assert(bytes@ =~= bytes@.subrange(0, 8) + bytes@.subrange(8, 10) + bytes@.subrange(10, 12)
                + bytes@.subrange(12, 16) + bytes@.subrange(16, 20) + bytes@.subrange(
                20,
                bytes@.len() as int,
            ));
        }
        Ok(SketchMaintenanceLog { max_records: encoded_profile, records })
    }
}
/// Diagnostic text of a codec failure: the error as `Debug` prints it.
pub open spec fn codec_error_text(error: SketchMaintenanceCodecError) -> Seq<char> {
    match error {
        SketchMaintenanceCodecError::RecordLength { expected, actual } => "RecordLength { expected: "@ + decimal(expected as nat) + ", actual: "@ + decimal(actual as nat) + " }"@,
        SketchMaintenanceCodecError::RecordMagic => "RecordMagic"@,
        SketchMaintenanceCodecError::RecordVersion { version } => "RecordVersion { version: "@ + decimal(version as nat) + " }"@,
        SketchMaintenanceCodecError::RecordReserved { reserved } => "RecordReserved { reserved: "@ + decimal(reserved as nat) + " }"@,
        SketchMaintenanceCodecError::UnknownSketchFamily { tag } => "UnknownSketchFamily { tag: "@ + decimal(tag as nat) + " }"@,
        SketchMaintenanceCodecError::UnknownMaintenanceOutcome { tag } => "UnknownMaintenanceOutcome { tag: "@ + decimal(tag as nat) + " }"@,
        SketchMaintenanceCodecError::RebuildMutatedState => "RebuildMutatedState"@,
        SketchMaintenanceCodecError::InvalidProfile { max_records } => "InvalidProfile { max_records: "@ + decimal(max_records as nat) + " }"@,
        SketchMaintenanceCodecError::EncodedBytesLimit { actual, max_encoded_bytes } => "EncodedBytesLimit { actual: "@ + decimal(actual as nat) + ", max_encoded_bytes: "@ + decimal(max_encoded_bytes as nat) + " }"@,
        SketchMaintenanceCodecError::LogTruncated { minimum, actual } => "LogTruncated { minimum: "@ + decimal(minimum as nat) + ", actual: "@ + decimal(actual as nat) + " }"@,
        SketchMaintenanceCodecError::LogMagic => "LogMagic"@,
        SketchMaintenanceCodecError::LogVersion { version } => "LogVersion { version: "@ + decimal(version as nat) + " }"@,
        SketchMaintenanceCodecError::LogReserved { reserved } => "LogReserved { reserved: "@ + decimal(reserved as nat) + " }"@,
        SketchMaintenanceCodecError::ProfileMismatch { expected, actual } => "ProfileMismatch { expected: "@ + decimal(expected as nat) + ", actual: "@ + decimal(actual as nat) + " }"@,
        SketchMaintenanceCodecError::ProfileLimit { encoded_profile, caller_max_records, absolute_max_records } => "ProfileLimit { encoded_profile: "@ + decimal(encoded_profile as nat) + ", caller_max_records: "@ + decimal(caller_max_records as nat) + ", absolute_max_records: "@ + decimal(absolute_max_records as nat) + " }"@,
        SketchMaintenanceCodecError::RecordCountLimit { record_count, encoded_profile, caller_max_records } => "RecordCountLimit { record_count: "@ + decimal(record_count as nat) + ", encoded_profile: "@ + decimal(encoded_profile as nat) + ", caller_max_records: "@ + decimal(caller_max_records as nat) + " }"@,
        SketchMaintenanceCodecError::ProfileTooLarge { max_records } => "ProfileTooLarge { max_records: "@ + decimal(max_records as nat) + " }"@,
        SketchMaintenanceCodecError::RecordCountTooLarge { record_count } => "RecordCountTooLarge { record_count: "@ + decimal(record_count as nat) + " }"@,
        SketchMaintenanceCodecError::EncodedLengthOverflow => "EncodedLengthOverflow"@,
        SketchMaintenanceCodecError::LogLength { expected, actual } => "LogLength { expected: "@ + decimal(expected as nat) + ", actual: "@ + decimal(actual as nat) + " }"@,
        SketchMaintenanceCodecError::AllocationFailed { requested_bytes } => "AllocationFailed { requested_bytes: "@ + decimal(requested_bytes as nat) + " }"@,
        SketchMaintenanceCodecError::Sequence { expected, actual } => "Sequence { expected: "@ + decimal(expected as nat) + ", actual: "@ + decimal(actual as nat) + " }"@,
        SketchMaintenanceCodecError::SequenceOverflow => "SequenceOverflow"@,
    }
}

impl SketchMaintenanceCodecError {
    /// Human-readable diagnostic.
    pub fn message(&self) -> (text: String)
        ensures
            text@ == codec_error_text(*self),
    {
        let mut out = String::new();
        match *self {
            SketchMaintenanceCodecError::RecordLength { expected, actual } => {
                push_text(&mut out, "RecordLength { expected: ");
                push_decimal(&mut out, expected as u64);
                push_text(&mut out, ", actual: ");
                push_decimal(&mut out, actual as u64);
                push_text(&mut out, " }");
            },
            SketchMaintenanceCodecError::RecordMagic => {
                push_text(&mut out, "RecordMagic");
            },
            SketchMaintenanceCodecError::RecordVersion { version } => {
                push_text(&mut out, "RecordVersion { version: ");
                push_decimal(&mut out, version as u64);
                push_text(&mut out, " }");
            },
            SketchMaintenanceCodecError::RecordReserved { reserved } => {
                push_text(&mut out, "RecordReserved { reserved: ");
                push_decimal(&mut out, reserved as u64);
                push_text(&mut out, " }");
            },
            SketchMaintenanceCodecError::UnknownSketchFamily { tag } => {
                push_text(&mut out, "UnknownSketchFamily { tag: ");
                push_decimal(&mut out, tag as u64);
                push_text(&mut out, " }");
            },
            SketchMaintenanceCodecError::UnknownMaintenanceOutcome { tag } => {
                push_text(&mut out, "UnknownMaintenanceOutcome { tag: ");
                push_decimal(&mut out, tag as u64);
                push_text(&mut out, " }");
            },
            SketchMaintenanceCodecError::RebuildMutatedState => {
                push_text(&mut out, "RebuildMutatedState");
            },
            SketchMaintenanceCodecError::InvalidProfile { max_records } => {
                push_text(&mut out, "InvalidProfile { max_records: ");
                push_decimal(&mut out, max_records as u64);
                push_text(&mut out, " }");
            },
            SketchMaintenanceCodecError::EncodedBytesLimit { actual, max_encoded_bytes } => {
                push_text(&mut out, "EncodedBytesLimit { actual: ");
                push_decimal(&mut out, actual as u64);
                push_text(&mut out, ", max_encoded_bytes: ");
                push_decimal(&mut out, max_encoded_bytes as u64);
                push_text(&mut out, " }");
            },
            SketchMaintenanceCodecError::LogTruncated { minimum, actual } => {
                push_text(&mut out, "LogTruncated { minimum: ");
                push_decimal(&mut out, minimum as u64);
                push_text(&mut out, ", actual: ");
                push_decimal(&mut out, actual as u64);
                push_text(&mut out, " }");
            },
            SketchMaintenanceCodecError::LogMagic => {
                push_text(&mut out, "LogMagic");
            },
            SketchMaintenanceCodecError::LogVersion { version } => {
                push_text(&mut out, "LogVersion { version: ");
                push_decimal(&mut out, version as u64);
                push_text(&mut out, " }");
            },
            SketchMaintenanceCodecError::LogReserved { reserved } => {
                push_text(&mut out, "LogReserved { reserved: ");
                push_decimal(&mut out, reserved as u64);
                push_text(&mut out, " }");
            },
            SketchMaintenanceCodecError::ProfileMismatch { expected, actual } => {
                push_text(&mut out, "ProfileMismatch { expected: ");
                push_decimal(&mut out, expected as u64);
                push_text(&mut out, ", actual: ");
                push_decimal(&mut out, actual as u64);
                push_text(&mut out, " }");
            },
            SketchMaintenanceCodecError::ProfileLimit { encoded_profile, caller_max_records, absolute_max_records } => {
                push_text(&mut out, "ProfileLimit { encoded_profile: ");
                push_decimal(&mut out, encoded_profile as u64);
                push_text(&mut out, ", caller_max_records: ");
                push_decimal(&mut out, caller_max_records as u64);
                push_text(&mut out, ", absolute_max_records: ");
                push_decimal(&mut out, absolute_max_records as u64);
                push_text(&mut out, " }");
            },
            SketchMaintenanceCodecError::RecordCountLimit { record_count, encoded_profile, caller_max_records } => {
                push_text(&mut out, "RecordCountLimit { record_count: ");
                push_decimal(&mut out, record_count as u64);
                push_text(&mut out, ", encoded_profile: ");
                push_decimal(&mut out, encoded_profile as u64);
                push_text(&mut out, ", caller_max_records: ");
                push_decimal(&mut out, caller_max_records as u64);
                push_text(&mut out, " }");
            },
            SketchMaintenanceCodecError::ProfileTooLarge { max_records } => {
                push_text(&mut out, "ProfileTooLarge { max_records: ");
                push_decimal(&mut out, max_records as u64);
                push_text(&mut out, " }");
            },
            SketchMaintenanceCodecError::RecordCountTooLarge { record_count } => {
                push_text(&mut out, "RecordCountTooLarge { record_count: ");
                push_decimal(&mut out, record_count as u64);
                push_text(&mut out, " }");
            },
            SketchMaintenanceCodecError::EncodedLengthOverflow => {
                push_text(&mut out, "EncodedLengthOverflow");
            },
            SketchMaintenanceCodecError::LogLength { expected, actual } => {
                push_text(&mut out, "LogLength { expected: ");
                push_decimal(&mut out, expected as u64);
                push_text(&mut out, ", actual: ");
                push_decimal(&mut out, actual as u64);
                push_text(&mut out, " }");
            },
            SketchMaintenanceCodecError::AllocationFailed { requested_bytes } => {
                push_text(&mut out, "AllocationFailed { requested_bytes: ");
                push_decimal(&mut out, requested_bytes as u64);
                push_text(&mut out, " }");
            },
            SketchMaintenanceCodecError::Sequence { expected, actual } => {
                push_text(&mut out, "Sequence { expected: ");
                push_decimal(&mut out, expected as u64);
                push_text(&mut out, ", actual: ");
                push_decimal(&mut out, actual as u64);
                push_text(&mut out, " }");
            },
            SketchMaintenanceCodecError::SequenceOverflow => {
                push_text(&mut out, "SequenceOverflow");
            },
        }
        proof {
            assert(out@ =~= codec_error_text(*self));
        }
        out
    }
}
/// Diagnostic text of a log failure.
pub open spec fn log_error_text(error: SketchMaintenanceLogError) -> Seq<char> {
    match error {
        SketchMaintenanceLogError::InvalidProfile { max_records } =>
            "sketch maintenance max_records must be in 1..="@ + decimal(
            MAX_SKETCH_MAINTENANCE_RECORDS as nat,
        ) + ", got "@ + decimal(max_records as nat),
        SketchMaintenanceLogError::CapacityExceeded { max_records } => "sketch maintenance log reached its "@
            + decimal(max_records as nat) + "-record capacity"@,
        SketchMaintenanceLogError::Sequence { expected, actual } => "sketch maintenance sequence must be "@
            + decimal(expected as nat) + ", got "@ + decimal(actual as nat),
        SketchMaintenanceLogError::SequenceOverflow => "sketch maintenance sequence cannot be represented"@,
        SketchMaintenanceLogError::InvalidRecord(error) => "invalid maintenance record: "@ + codec_error_text(
            error,
        ),
    }
}

impl SketchMaintenanceLogError {
    /// Human-readable diagnostic.
    pub fn message(&self) -> (text: String)
        ensures
            text@ == log_error_text(*self),
    {
        let mut out = String::new();
        match self {
            SketchMaintenanceLogError::InvalidProfile { max_records } => {
                push_text(&mut out, "sketch maintenance max_records must be in 1..=");
                push_decimal(&mut out, MAX_SKETCH_MAINTENANCE_RECORDS as u64);
                push_text(&mut out, ", got ");
                push_decimal(&mut out, *max_records as u64);
            },
            SketchMaintenanceLogError::CapacityExceeded { max_records } => {
                push_text(&mut out, "sketch maintenance log reached its ");
                push_decimal(&mut out, *max_records as u64);
                push_text(&mut out, "-record capacity");
            },
            SketchMaintenanceLogError::Sequence { expected, actual } => {
                push_text(&mut out, "sketch maintenance sequence must be ");
                push_decimal(&mut out, *expected);
                push_text(&mut out, ", got ");
                push_decimal(&mut out, *actual);
            },
            SketchMaintenanceLogError::SequenceOverflow => {
                push_text(&mut out, "sketch maintenance sequence cannot be represented");
            },
            SketchMaintenanceLogError::InvalidRecord(error) => {
                push_text(&mut out, "invalid maintenance record: ");
                let detail = error.message();
                push_text(&mut out, detail.as_str());
            },
        }
        proof {
            assert(out@ =~= log_error_text(*self));
        }
        out
    }
}


} // verus!
