//! Stable seeded scalar hashing.
//!
//! [`SeededHasher`] is an FNV-1a byte stream started from a mixed seed and
//! finished with a fixed 64-bit mixer. Integers are written as explicit
//! little-endian bytes, so a given seed and sequence of writes has the same
//! result on every supported target.

use vstd::prelude::*;
use vstd::wrapping::u64_specs::wrapping_mul;

verus! {

/// FNV-1a offset basis.
pub const HASH_OFFSET: u64 = 0xcbf2_9ce4_8422_2325;

/// FNV-1a prime.
pub const HASH_PRIME: u64 = 0x0000_0100_0000_01b3;

/// Golden-ratio increment used when mixing the seed and the length.
pub const GOLDEN_GAMMA: u64 = 0x9e37_79b9_7f4a_7c15;

/// The pinned 64-bit finalizer.
pub open spec fn spec_mix64(value: u64) -> u64 {
    let a = value ^ (value >> 30u64);
    let b = wrapping_mul(a, 0xbf58_476d_1ce4_e5b9u64);
    let c = b ^ (b >> 27u64);
    let d = wrapping_mul(c, 0x94d0_49bb_1331_11ebu64);
    d ^ (d >> 31u64)
}

/// Computes the pinned 64-bit finalizer.
pub fn mix64(value: u64) -> (mixed: u64)
    ensures
        mixed == spec_mix64(value),
{
    let a = value ^ (value >> 30u64);
    let b = a.wrapping_mul(0xbf58_476d_1ce4_e5b9u64);
    let c = b ^ (b >> 27u64);
    let d = c.wrapping_mul(0x94d0_49bb_1331_11ebu64);
    d ^ (d >> 31u64)
}

/// The stream state before any byte is written.
pub open spec fn initial_state(seed: u64) -> u64 {
    HASH_OFFSET ^ spec_mix64(seed ^ GOLDEN_GAMMA)
}

/// One FNV-1a step.
pub open spec fn fnv_step(state: u64, byte: u8) -> u64 {
    wrapping_mul(state ^ (byte as u64), HASH_PRIME)
}

/// The stream state after absorbing `bytes` in order.
pub open spec fn fnv_fold(state: u64, bytes: Seq<u8>) -> u64
    decreases bytes.len(),
{
    if bytes.len() == 0 {
        state
    } else {
        fnv_step(fnv_fold(state, bytes.drop_last()), bytes.last())
    }
}

/// The hash of a complete byte stream under a seed.
pub open spec fn seeded_hash(seed: u64, bytes: Seq<u8>) -> u64 {
    spec_mix64(
        fnv_fold(initial_state(seed), bytes) ^ wrapping_mul(
            (bytes.len() % 0x1_0000_0000_0000_0000) as u64,
            GOLDEN_GAMMA,
        ),
    )
}

/// The `count` least-significant bytes of `value`, least significant first.
pub open spec fn le_bytes(value: nat, count: nat) -> Seq<u8>
    decreases count,
{
    if count == 0 {
        Seq::empty()
    } else {
        seq![(value % 256) as u8] + le_bytes(value / 256, (count - 1) as nat)
    }
}

proof fn lemma_fold_push(state: u64, bytes: Seq<u8>, byte: u8)
    ensures
        fnv_fold(state, bytes.push(byte)) == fnv_step(fnv_fold(state, bytes), byte),
{
    assert(bytes.push(byte).drop_last() =~= bytes);
}

/// Stable seeded hasher.
pub struct SeededHasher {
    state: u64,
    byte_len: u64,
    seed: Ghost<u64>,
    written: Ghost<Seq<u8>>,
}

impl Clone for SeededHasher {
    fn clone(&self) -> (copy: Self)
        ensures
            copy == *self,
    {
        proof {
            use_type_invariant(self);
        }
        SeededHasher { state: self.state, byte_len: self.byte_len, seed: self.seed, written: self.written }
    }
}

impl SeededHasher {
    #[verifier::type_invariant]
    spec fn consistent(self) -> bool {
        &&& self.state == fnv_fold(initial_state(self.seed@), self.written@)
        &&& self.byte_len == (self.written@.len() % 0x1_0000_0000_0000_0000) as u64
    }

    /// The seed this stream started from.
    pub closed spec fn spec_seed(self) -> u64 {
        self.seed@
    }

    /// Every byte written so far, in order.
    pub closed spec fn spec_written(self) -> Seq<u8> {
        self.written@
    }

    /// Starts a new hash stream with an explicit seed.
    pub fn new(seed: u64) -> (hasher: Self)
        ensures
            hasher.spec_seed() == seed,
            hasher.spec_written() == Seq::<u8>::empty(),
    {
        let mixed = mix64(seed ^ GOLDEN_GAMMA);
        SeededHasher {
            state: HASH_OFFSET ^ mixed,
            byte_len: 0,
            seed: Ghost(seed),
            written: Ghost(Seq::empty()),
        }
    }

    /// Finishes the stream without consuming it.
    pub fn finish(&self) -> (hash: u64)
        ensures
            hash == seeded_hash(self.spec_seed(), self.spec_written()),
    {
        proof {
            use_type_invariant(self);
        }
        mix64(self.state ^ self.byte_len.wrapping_mul(GOLDEN_GAMMA))
    }

    fn write_byte(&mut self, byte: u8)
        ensures
            final(self).spec_seed() == old(self).spec_seed(),
            final(self).spec_written() == old(self).spec_written().push(byte),
    {
        proof {
            use_type_invariant(&*self);
            lemma_fold_push(initial_state(self.seed@), self.written@, byte);
        }
        let next_state = (self.state ^ (byte as u64)).wrapping_mul(HASH_PRIME);
        let next_len = self.byte_len.wrapping_add(1);
        let ghost next_written = self.written@.push(byte);
        proof {
            let n = self.written@.len();
            assert((n % 0x1_0000_0000_0000_0000 + 1) % 0x1_0000_0000_0000_0000 == (n + 1) % 0x1_0000_0000_0000_0000)
                by {
                vstd::arithmetic::div_mod::lemma_add_mod_noop(n as int, 1, 0x1_0000_0000_0000_0000);
                vstd::arithmetic::div_mod::lemma_small_mod(1, 0x1_0000_0000_0000_0000);
            }
        }
        *self = SeededHasher {
            state: next_state,
            byte_len: next_len,
            seed: self.seed,
            written: Ghost(next_written),
        };
    }

    /// Absorbs `bytes` in order.
    pub fn write(&mut self, bytes: &[u8])
        ensures
            final(self).spec_seed() == old(self).spec_seed(),
            final(self).spec_written() == old(self).spec_written() + bytes@,
    {
        let mut index: usize = 0;
        while index < bytes.len()
            invariant
                index <= bytes@.len(),
                self.spec_seed() == old(self).spec_seed(),
                self.spec_written() == old(self).spec_written() + bytes@.subrange(0, index as int),
            decreases bytes@.len() - index,
        {
            self.write_byte(bytes[index]);
            proof {
                assert(bytes@.subrange(0, index as int).push(bytes@[index as int]) =~= bytes@.subrange(
                    0,
                    index + 1,
                ));
                assert(old(self).spec_written() + bytes@.subrange(0, index + 1) =~= (old(self).spec_written()
                    + bytes@.subrange(0, index as int)).push(bytes@[index as int]));
            }
            index = index + 1;
        }
        proof {
            assert(bytes@.subrange(0, bytes@.len() as int) =~= bytes@);
        }
    }

    fn write_le(&mut self, value: u128, count: usize)
        requires
            count <= 16,
        ensures
            final(self).spec_seed() == old(self).spec_seed(),
            final(self).spec_written() == old(self).spec_written() + le_bytes(value as nat, count as nat),
    {
        let mut remaining = value;
        let mut index: usize = 0;
        while index < count
            invariant
                index <= count,
                self.spec_seed() == old(self).spec_seed(),
                old(self).spec_written() + le_bytes(value as nat, count as nat) == self.spec_written()
                    + le_bytes(remaining as nat, (count - index) as nat),
            decreases count - index,
        {
            let byte = (remaining % 256) as u8;
            let ghost before = self.spec_written();
            self.write_byte(byte);
            proof {
                let rest = le_bytes(remaining as nat / 256, (count - index - 1) as nat);
                assert(le_bytes(remaining as nat, (count - index) as nat) == seq![byte] + rest);
                assert(before + (seq![byte] + rest) =~= before.push(byte) + rest);
            }
            remaining = remaining / 256;
            index = index + 1;
        }
        proof {
            assert(self.spec_written() + le_bytes(remaining as nat, 0) =~= self.spec_written());
        }
    }

    /// Absorbs one byte.
    pub fn write_u8(&mut self, value: u8)
        ensures
            final(self).spec_seed() == old(self).spec_seed(),
            final(self).spec_written() == old(self).spec_written() + le_bytes(value as nat, 1),
    {
        self.write_le(value as u128, 1);
    }

    /// Absorbs two little-endian bytes.
    pub fn write_u16(&mut self, value: u16)
        ensures
            final(self).spec_seed() == old(self).spec_seed(),
            final(self).spec_written() == old(self).spec_written() + le_bytes(value as nat, 2),
    {
        self.write_le(value as u128, 2);
    }

    /// Absorbs four little-endian bytes.
    pub fn write_u32(&mut self, value: u32)
        ensures
            final(self).spec_seed() == old(self).spec_seed(),
            final(self).spec_written() == old(self).spec_written() + le_bytes(value as nat, 4),
    {
        self.write_le(value as u128, 4);
    }

    /// Absorbs eight little-endian bytes.
    pub fn write_u64(&mut self, value: u64)
        ensures
            final(self).spec_seed() == old(self).spec_seed(),
            final(self).spec_written() == old(self).spec_written() + le_bytes(value as nat, 8),
    {
        self.write_le(value as u128, 8);
    }

    /// Absorbs sixteen little-endian bytes.
    pub fn write_u128(&mut self, value: u128)
        ensures
            final(self).spec_seed() == old(self).spec_seed(),
            final(self).spec_written() == old(self).spec_written() + le_bytes(value as nat, 16),
    {
        self.write_le(value, 16);
    }

    /// Absorbs a `usize` as eight little-endian bytes.
    pub fn write_usize(&mut self, value: usize)
        ensures
            final(self).spec_seed() == old(self).spec_seed(),
            final(self).spec_written() == old(self).spec_written() + le_bytes(value as nat, 8),
    {
        self.write_u64(value as u64);
    }

    /// Absorbs the two's-complement byte.
    pub fn write_i8(&mut self, value: i8)
        ensures
            final(self).spec_seed() == old(self).spec_seed(),
            final(self).spec_written() == old(self).spec_written() + le_bytes((value as u8) as nat, 1),
    {
        self.write_u8(value as u8);
    }

    /// Absorbs two two's-complement little-endian bytes.
    pub fn write_i16(&mut self, value: i16)
        ensures
            final(self).spec_seed() == old(self).spec_seed(),
            final(self).spec_written() == old(self).spec_written() + le_bytes((value as u16) as nat, 2),
    {
        self.write_u16(value as u16);
    }

    /// Absorbs four two's-complement little-endian bytes.
    pub fn write_i32(&mut self, value: i32)
        ensures
            final(self).spec_seed() == old(self).spec_seed(),
            final(self).spec_written() == old(self).spec_written() + le_bytes((value as u32) as nat, 4),
    {
        self.write_u32(value as u32);
    }

    /// Absorbs eight two's-complement little-endian bytes.
    pub fn write_i64(&mut self, value: i64)
        ensures
            final(self).spec_seed() == old(self).spec_seed(),
            final(self).spec_written() == old(self).spec_written() + le_bytes((value as u64) as nat, 8),
    {
        self.write_u64(value as u64);
    }

    /// Absorbs sixteen two's-complement little-endian bytes.
    pub fn write_i128(&mut self, value: i128)
        ensures
            final(self).spec_seed() == old(self).spec_seed(),
            final(self).spec_written() == old(self).spec_written() + le_bytes((value as u128) as nat, 16),
    {
        self.write_u128(value as u128);
    }

    /// Absorbs an `isize` as eight two's-complement little-endian bytes.
    pub fn write_isize(&mut self, value: isize)
        ensures
            final(self).spec_seed() == old(self).spec_seed(),
            final(self).spec_written() == old(self).spec_written() + le_bytes(((value as i64) as u64) as nat, 8),
    {
        self.write_i64(value as i64);
    }
}

} // verus!
