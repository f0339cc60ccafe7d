//! Fixed-width big-endian field encoding shared by the canonical sketch
//! codecs.

use vstd::prelude::*;

verus! {

/// Big-endian bytes of a `u16`.
pub open spec fn be_u16(value: u16) -> Seq<u8> {
    seq![(value >> 8u16) as u8, (value & 0xffu16) as u8]
}

/// Big-endian bytes of a `u64`.
pub open spec fn be_u64(value: u64) -> Seq<u8> {
    seq![
        (value >> 56u64) as u8,
        ((value >> 48u64) & 0xffu64) as u8,
        ((value >> 40u64) & 0xffu64) as u8,
        ((value >> 32u64) & 0xffu64) as u8,
        ((value >> 24u64) & 0xffu64) as u8,
        ((value >> 16u64) & 0xffu64) as u8,
        ((value >> 8u64) & 0xffu64) as u8,
        (value & 0xffu64) as u8,
    ]
}

/// The `u16` whose big-endian bytes start `bytes`.
pub open spec fn decode_be_u16(bytes: Seq<u8>) -> u16 {
    ((bytes[0] as u16) << 8u16) | (bytes[1] as u16)
}

/// The `u64` whose big-endian bytes start `bytes`.
pub open spec fn decode_be_u64(bytes: Seq<u8>) -> u64 {
    ((bytes[0] as u64) << 56u64) | ((bytes[1] as u64) << 48u64) | ((bytes[2] as u64) << 40u64) | ((
    bytes[3] as u64) << 32u64) | ((bytes[4] as u64) << 24u64) | ((bytes[5] as u64) << 16u64) | ((
    bytes[6] as u64) << 8u64) | (bytes[7] as u64)
}

/// Big-endian `u16` field at a byte offset.
pub open spec fn field_u16(bytes: Seq<u8>, offset: int) -> u16 {
    decode_be_u16(bytes.subrange(offset, offset + 2))
}

/// Big-endian `u64` field at a byte offset.
pub open spec fn field_u64(bytes: Seq<u8>, offset: int) -> u64 {
    decode_be_u64(bytes.subrange(offset, offset + 8))
}

/// Concatenated big-endian encodings of a sequence of `u64`s.
pub open spec fn be_u64_seq(values: Seq<u64>) -> Seq<u8>
    decreases values.len(),
{
    if values.len() == 0 {
        Seq::empty()
    } else {
        be_u64_seq(values.drop_last()) + be_u64(values.last())
    }
}

proof fn lemma_u16_round_trip_bits(value: u16)
    by (bit_vector)
    ensures
        (((value >> 8u16) as u8) as u16) << 8u16 | (((value & 0xffu16) as u8) as u16) == value,
{
}

/// Decoding the encoding of a `u16` gives it back.
pub proof fn lemma_be_u16_round_trip(value: u16)
    ensures
        decode_be_u16(be_u16(value)) == value,
        be_u16(value).len() == 2,
{
    lemma_u16_round_trip_bits(value);
}

proof fn lemma_u64_round_trip_bits(v: u64)
    by (bit_vector)
    ensures
        ((((v >> 56u64) as u8) as u64) << 56u64) | (((((v >> 48u64) & 0xffu64) as u8) as u64) << 48u64) | ((
        (((v >> 40u64) & 0xffu64) as u8) as u64) << 40u64) | (((((v >> 32u64) & 0xffu64) as u8) as u64)
            << 32u64) | (((((v >> 24u64) & 0xffu64) as u8) as u64) << 24u64) | (((((v >> 16u64) & 0xffu64)
            as u8) as u64) << 16u64) | (((((v >> 8u64) & 0xffu64) as u8) as u64) << 8u64) | (((v & 0xffu64)
            as u8) as u64) == v,
{
}

/// Decoding the encoding of a `u64` gives it back.
pub proof fn lemma_be_u64_round_trip(value: u64)
    ensures
        decode_be_u64(be_u64(value)) == value,
        be_u64(value).len() == 8,
{
    lemma_u64_round_trip_bits(value);
}

proof fn lemma_u64_bytes_round_trip_bits(b0: u8, b1: u8, b2: u8, b3: u8, b4: u8, b5: u8, b6: u8, b7: u8)
    by (bit_vector)
    ensures
        ({
            let v = ((b0 as u64) << 56u64) | ((b1 as u64) << 48u64) | ((b2 as u64) << 40u64) | ((b3 as u64)
                << 32u64) | ((b4 as u64) << 24u64) | ((b5 as u64) << 16u64) | ((b6 as u64) << 8u64) | (b7 as u64);
            &&& (v >> 56u64) as u8 == b0
            &&& ((v >> 48u64) & 0xffu64) as u8 == b1
            &&& ((v >> 40u64) & 0xffu64) as u8 == b2
            &&& ((v >> 32u64) & 0xffu64) as u8 == b3
            &&& ((v >> 24u64) & 0xffu64) as u8 == b4
            &&& ((v >> 16u64) & 0xffu64) as u8 == b5
            &&& ((v >> 8u64) & 0xffu64) as u8 == b6
            &&& (v & 0xffu64) as u8 == b7
        }),
{
}

/// Eight bytes are the encoding of the `u64` they decode to.
pub proof fn lemma_be_u64_bytes_round_trip(bytes: Seq<u8>)
    requires
        bytes.len() == 8,
    ensures
        be_u64(decode_be_u64(bytes)) == bytes,
{
    lemma_u64_bytes_round_trip_bits(bytes[0], bytes[1], bytes[2], bytes[3], bytes[4], bytes[5], bytes[6], bytes[7]);
    assert(be_u64(decode_be_u64(bytes)) =~= bytes);
}

proof fn lemma_u16_bytes_round_trip_bits(b0: u8, b1: u8)
    by (bit_vector)
    ensures
        ((((b0 as u16) << 8u16) | (b1 as u16)) >> 8u16) as u8 == b0,
        ((((b0 as u16) << 8u16) | (b1 as u16)) & 0xffu16) as u8 == b1,
{
}

/// Two bytes are the encoding of the `u16` they decode to.
pub proof fn lemma_be_u16_bytes_round_trip(bytes: Seq<u8>)
    requires
        bytes.len() == 2,
    ensures
        be_u16(decode_be_u16(bytes)) == bytes,
{
    lemma_u16_bytes_round_trip_bits(bytes[0], bytes[1]);
    assert(be_u16(decode_be_u16(bytes)) =~= bytes);
}

/// The encoding of a sequence has eight bytes per value, and value `i`
/// occupies bytes `8 * i .. 8 * i + 8`.
pub proof fn lemma_be_u64_seq_layout(values: Seq<u64>)
    ensures
        be_u64_seq(values).len() == 8 * values.len(),
        forall|i: int|
            0 <= i < values.len() ==> #[trigger] be_u64_seq(values).subrange(8 * i, 8 * i + 8) == be_u64(values[i]),
    decreases values.len(),
{
    if values.len() > 0 {
        let prefix = values.drop_last();
        lemma_be_u64_seq_layout(prefix);
        lemma_be_u64_round_trip(values.last());
        let all = be_u64_seq(values);
        assert forall|i: int| 0 <= i < values.len() implies #[trigger] all.subrange(8 * i, 8 * i + 8) == be_u64(
            values[i],
        ) by {
            if i < values.len() - 1 {
                assert(all.subrange(8 * i, 8 * i + 8) =~= be_u64_seq(prefix).subrange(8 * i, 8 * i + 8));
                assert(prefix[i] == values[i]);
            } else {
                assert(all.subrange(8 * i, 8 * i + 8) =~= be_u64(values.last()));
            }
        }
    }
}

/// Appends the big-endian bytes of a `u16`.
pub fn push_u16(bytes: &mut Vec<u8>, value: u16)
    ensures
        final(bytes)@ == old(bytes)@ + be_u16(value),
{
    bytes.push((value >> 8u16) as u8);
    bytes.push((value & 0xffu16) as u8);
    proof {
        assert(final(bytes)@ =~= old(bytes)@ + be_u16(value));
    }
}

/// Appends the big-endian bytes of a `u64`.
pub fn push_u64(bytes: &mut Vec<u8>, value: u64)
    ensures
        final(bytes)@ == old(bytes)@ + be_u64(value),
{
    bytes.push((value >> 56u64) as u8);
    bytes.push(((value >> 48u64) & 0xffu64) as u8);
    bytes.push(((value >> 40u64) & 0xffu64) as u8);
    bytes.push(((value >> 32u64) & 0xffu64) as u8);
    bytes.push(((value >> 24u64) & 0xffu64) as u8);
    bytes.push(((value >> 16u64) & 0xffu64) as u8);
    bytes.push(((value >> 8u64) & 0xffu64) as u8);
    bytes.push((value & 0xffu64) as u8);
    proof {
        assert(final(bytes)@ =~= old(bytes)@ + be_u64(value));
    }
}

/// Reads the big-endian `u16` at `offset`.
pub fn read_u16_at(bytes: &[u8], offset: usize) -> (value: u16)
    requires
        offset + 2 <= bytes@.len(),
    ensures
        value == decode_be_u16(bytes@.subrange(offset as int, offset + 2)),
{
    ((bytes[offset] as u16) << 8u16) | (bytes[offset + 1] as u16)
}

/// Reads the big-endian `u64` at `offset`.
pub fn read_u64_at(bytes: &[u8], offset: usize) -> (value: u64)
    requires
        offset + 8 <= bytes@.len(),
    ensures
        value == decode_be_u64(bytes@.subrange(offset as int, offset + 8)),
{
    ((bytes[offset] as u64) << 56u64) | ((bytes[offset + 1] as u64) << 48u64) | ((bytes[offset + 2] as u64)
        << 40u64) | ((bytes[offset + 3] as u64) << 32u64) | ((bytes[offset + 4] as u64) << 24u64) | ((
    bytes[offset + 5] as u64) << 16u64) | ((bytes[offset + 6] as u64) << 8u64) | (bytes[offset + 7] as u64)
}

/// Appends a slice.
pub fn extend_bytes(bytes: &mut Vec<u8>, tail: &[u8])
    ensures
        final(bytes)@ == old(bytes)@ + tail@,
{
    let mut index: usize = 0;
    while index < tail.len()
        invariant
            index <= tail@.len(),
            bytes@ == old(bytes)@ + tail@.subrange(0, index as int),
        decreases tail@.len() - index,
    {
        bytes.push(tail[index]);
        proof {
            assert(old(bytes)@ + tail@.subrange(0, index + 1) =~= (old(bytes)@ + tail@.subrange(0, index as int)).push(
                tail@[index as int],
            ));
        }
        index = index + 1;
    }
    proof {
        assert(tail@.subrange(0, tail@.len() as int) =~= tail@);
    }
}

/// Whether two byte slices are equal.
pub fn bytes_equal(left: &[u8], right: &[u8]) -> (equal: bool)
    ensures
        equal == (left@ == right@),
{
    if left.len() != right.len() {
        return false;
    }
    let mut index: usize = 0;
    while index < left.len()
        invariant
            left@.len() == right@.len(),
            index <= left@.len(),
            forall|i: int| 0 <= i < index ==> left@[i] == right@[i],
        decreases left@.len() - index,
    {
        if left[index] != right[index] {
            return false;
        }
        index = index + 1;
    }
    proof {
        assert(left@ =~= right@);
    }
    true
}

/// Converts a decoded `u64` into the platform index domain.
pub fn u64_to_usize(value: u64) -> (result: Option<usize>)
    ensures
        result is Some <==> value <= usize::MAX,
        result matches Some(v) ==> v == value,
{
    if value > usize::MAX as u64 {
        None
    } else {
        Some(value as usize)
    }
}

/// Copies the first eight bytes.
pub fn leading_eight(bytes: &[u8]) -> (head: [u8; 8])
    requires
        bytes@.len() >= 8,
    ensures
        head@ == bytes@.subrange(0, 8),
{
    let mut head = [0u8; 8];
    let mut m: usize = 0;
    while m < 8
        invariant
            m <= 8,
            bytes@.len() >= 8,
            head@.len() == 8,
            forall|i: int| 0 <= i < m ==> head@[i] == bytes@[i],
        decreases 8 - m,
    {
        head[m] = bytes[m];
        m = m + 1;
    }
    proof {
        assert(head@ =~= bytes@.subrange(0, 8));
    }
    head
}

/// Little-endian bytes of a `u16`.
pub open spec fn le_u16(value: u16) -> Seq<u8> {
    seq![(value & 0xffu16) as u8, (value >> 8u16) as u8]
}

/// Little-endian bytes of a `u32`.
pub open spec fn le_u32(value: u32) -> Seq<u8> {
    seq![
        (value & 0xffu32) as u8,
        ((value >> 8u32) & 0xffu32) as u8,
        ((value >> 16u32) & 0xffu32) as u8,
        (value >> 24u32) as u8,
    ]
}

/// Little-endian bytes of a `u64`.
pub open spec fn le_u64(value: u64) -> Seq<u8> {
    seq![
        (value & 0xffu64) as u8,
        ((value >> 8u64) & 0xffu64) as u8,
        ((value >> 16u64) & 0xffu64) as u8,
        ((value >> 24u64) & 0xffu64) as u8,
        ((value >> 32u64) & 0xffu64) as u8,
        ((value >> 40u64) & 0xffu64) as u8,
        ((value >> 48u64) & 0xffu64) as u8,
        (value >> 56u64) as u8,
    ]
}

/// The `u16` whose little-endian bytes start `bytes`.
pub open spec fn decode_le_u16(bytes: Seq<u8>) -> u16 {
    ((bytes[1] as u16) << 8u16) | (bytes[0] as u16)
}

/// The `u32` whose little-endian bytes start `bytes`.
pub open spec fn decode_le_u32(bytes: Seq<u8>) -> u32 {
    ((bytes[3] as u32) << 24u32) | ((bytes[2] as u32) << 16u32) | ((bytes[1] as u32) << 8u32) | (
    bytes[0] as u32)
}

/// The `u64` whose little-endian bytes start `bytes`.
pub open spec fn decode_le_u64(bytes: Seq<u8>) -> u64 {
    ((bytes[7] as u64) << 56u64) | ((bytes[6] as u64) << 48u64) | ((bytes[5] as u64) << 40u64) | ((
    bytes[4] as u64) << 32u64) | ((bytes[3] as u64) << 24u64) | ((bytes[2] as u64) << 16u64) | ((
    bytes[1] as u64) << 8u64) | (bytes[0] as u64)
}

proof fn lemma_u32_bits(value: u32, b0: u8, b1: u8, b2: u8, b3: u8)
    by (bit_vector)
    ensures
        ((((value >> 24u32) as u8) as u32) << 24u32) | (((((value >> 16u32) & 0xffu32) as u8) as u32)
            << 16u32) | (((((value >> 8u32) & 0xffu32) as u8) as u32) << 8u32) | (((value & 0xffu32)
            as u8) as u32) == value,
        ({
            let v = ((b3 as u32) << 24u32) | ((b2 as u32) << 16u32) | ((b1 as u32) << 8u32) | (b0 as u32);
            &&& (v & 0xffu32) as u8 == b0
            &&& ((v >> 8u32) & 0xffu32) as u8 == b1
            &&& ((v >> 16u32) & 0xffu32) as u8 == b2
            &&& (v >> 24u32) as u8 == b3
        }),
{
}

/// Little-endian encodings decode back, and every encoding of the right
/// width is the encoding of what it decodes to.
pub proof fn lemma_le_round_trips(a: u16, b: u32, c: u64, bytes: Seq<u8>)
    ensures
        decode_le_u16(le_u16(a)) == a,
        decode_le_u32(le_u32(b)) == b,
        decode_le_u64(le_u64(c)) == c,
        le_u16(a).len() == 2,
        le_u32(b).len() == 4,
        le_u64(c).len() == 8,
        bytes.len() == 2 ==> le_u16(decode_le_u16(bytes)) == bytes,
        bytes.len() == 4 ==> le_u32(decode_le_u32(bytes)) == bytes,
        bytes.len() == 8 ==> le_u64(decode_le_u64(bytes)) == bytes,
{
    lemma_u16_round_trip_bits(a);
    lemma_u64_round_trip_bits(c);
    if bytes.len() == 2 {
        lemma_u16_bytes_round_trip_bits(bytes[1], bytes[0]);
        assert(le_u16(decode_le_u16(bytes)) =~= bytes);
    }
    if bytes.len() == 4 {
        lemma_u32_bits(b, bytes[0], bytes[1], bytes[2], bytes[3]);
        assert(le_u32(decode_le_u32(bytes)) =~= bytes);
    } else {
        lemma_u32_bits(b, 0, 0, 0, 0);
    }
    if bytes.len() == 8 {
        lemma_u64_bytes_round_trip_bits(
            bytes[7],
            bytes[6],
            bytes[5],
            bytes[4],
            bytes[3],
            bytes[2],
            bytes[1],
            bytes[0],
        );
        assert(le_u64(decode_le_u64(bytes)) =~= bytes);
    }
}

/// Appends the little-endian bytes of a `u16`.
pub fn push_le_u16(bytes: &mut Vec<u8>, value: u16)
    ensures
        final(bytes)@ == old(bytes)@ + le_u16(value),
{
    bytes.push((value & 0xffu16) as u8);
    bytes.push((value >> 8u16) as u8);
    proof {
        assert(final(bytes)@ =~= old(bytes)@ + le_u16(value));
    }
}

/// Appends the little-endian bytes of a `u32`.
pub fn push_le_u32(bytes: &mut Vec<u8>, value: u32)
    ensures
        final(bytes)@ == old(bytes)@ + le_u32(value),
{
    bytes.push((value & 0xffu32) as u8);
    bytes.push(((value >> 8u32) & 0xffu32) as u8);
    bytes.push(((value >> 16u32) & 0xffu32) as u8);
    bytes.push((value >> 24u32) as u8);
    proof {
        assert(final(bytes)@ =~= old(bytes)@ + le_u32(value));
    }
}

/// Appends the little-endian bytes of a `u64`.
pub fn push_le_u64(bytes: &mut Vec<u8>, value: u64)
    ensures
        final(bytes)@ == old(bytes)@ + le_u64(value),
{
    bytes.push((value & 0xffu64) as u8);
    bytes.push(((value >> 8u64) & 0xffu64) as u8);
    bytes.push(((value >> 16u64) & 0xffu64) as u8);
    bytes.push(((value >> 24u64) & 0xffu64) as u8);
    bytes.push(((value >> 32u64) & 0xffu64) as u8);
    bytes.push(((value >> 40u64) & 0xffu64) as u8);
    bytes.push(((value >> 48u64) & 0xffu64) as u8);
    bytes.push((value >> 56u64) as u8);
    proof {
        assert(final(bytes)@ =~= old(bytes)@ + le_u64(value));
    }
}

/// Reads the little-endian `u16` at `offset`.
pub fn read_le_u16_at(bytes: &[u8], offset: usize) -> (value: u16)
    requires
        offset + 2 <= bytes@.len(),
    ensures
        value == decode_le_u16(bytes@.subrange(offset as int, offset + 2)),
{
    let _length = bytes.len();
    ((bytes[offset + 1] as u16) << 8u16) | (bytes[offset] as u16)
}

/// Reads the little-endian `u32` at `offset`.
pub fn read_le_u32_at(bytes: &[u8], offset: usize) -> (value: u32)
    requires
        offset + 4 <= bytes@.len(),
    ensures
        value == decode_le_u32(bytes@.subrange(offset as int, offset + 4)),
{
    let _length = bytes.len();
    ((bytes[offset + 3] as u32) << 24u32) | ((bytes[offset + 2] as u32) << 16u32) | ((bytes[offset
        + 1] as u32) << 8u32) | (bytes[offset] as u32)
}

/// Reads the little-endian `u64` at `offset`.
pub fn read_le_u64_at(bytes: &[u8], offset: usize) -> (value: u64)
    requires
        offset + 8 <= bytes@.len(),
    ensures
        value == decode_le_u64(bytes@.subrange(offset as int, offset + 8)),
{
    let _length = bytes.len();
    ((bytes[offset + 7] as u64) << 56u64) | ((bytes[offset + 6] as u64) << 48u64) | ((bytes[offset
        + 5] as u64) << 40u64) | ((bytes[offset + 4] as u64) << 32u64) | ((bytes[offset + 3] as u64)
        << 24u64) | ((bytes[offset + 2] as u64) << 16u64) | ((bytes[offset + 1] as u64) << 8u64) | (
    bytes[offset] as u64)
}

/// Copies the 32 bytes at `offset`.
pub fn read_array_32(bytes: &[u8], offset: usize) -> (value: [u8; 32])
    requires
        offset + 32 <= bytes@.len(),
    ensures
        value@ == bytes@.subrange(offset as int, offset + 32),
{
    let length = bytes.len();
    let mut value = [0u8; 32];
    let mut m: usize = 0;
    while m < 32
        invariant
            m <= 32,
            offset + 32 <= bytes@.len(),
            length == bytes@.len(),
            value@.len() == 32,
            forall|i: int| 0 <= i < m ==> value@[i] == bytes@[offset + i],
        decreases 32 - m,
    {
        value[m] = bytes[offset + m];
        m = m + 1;
    }
    proof {
        assert(value@ =~= bytes@.subrange(offset as int, offset + 32));
    }
    value
}

} // verus!
