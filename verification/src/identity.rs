//! Fixed-width identities shared across the accounting and maintenance
//! layers: content addresses, database and security-namespace identities,
//! graph and branch ordinals.

use vstd::prelude::*;
use crate::codec::bytes_equal;

verus! {

/// Content address of a durable object.
#[derive(Clone, Copy, Debug, Eq, Hash, Ord, PartialEq, PartialOrd)]
pub struct ObjectId(pub [u8; 32]);

/// Identity of one database.
#[derive(Clone, Copy, Debug, Eq, Hash, Ord, PartialEq, PartialOrd)]
pub struct DatabaseId(pub [u8; 16]);

/// Identity of a database's security namespace.
#[derive(Clone, Copy, Debug, Eq, Hash, Ord, PartialEq, PartialOrd)]
pub struct DatabaseSecurityNamespaceId(pub [u8; 32]);

/// Ordinal of a graph.
#[derive(Clone, Copy, Debug, Eq, Hash, Ord, PartialEq, PartialOrd, Structural)]
pub struct GraphId(pub u64);

/// Ordinal of a branch.
#[derive(Clone, Copy, Debug, Eq, Hash, Ord, PartialEq, PartialOrd, Structural)]
pub struct BranchId(pub u128);

/// Whether two 32-byte arrays are equal.
pub fn same_bytes32(left: &[u8; 32], right: &[u8; 32]) -> (same: bool)
    ensures
        same == (*left == *right),
{
    broadcast use vstd::array::axiom_array_ext_equal;

    let same = bytes_equal(left.as_slice(), right.as_slice());
    proof {
        if same {
            assert(*left =~= *right);
        }
    }
    same
}

/// Whether two 16-byte arrays are equal.
pub fn same_bytes16(left: &[u8; 16], right: &[u8; 16]) -> (same: bool)
    ensures
        same == (*left == *right),
{
    broadcast use vstd::array::axiom_array_ext_equal;

    let same = bytes_equal(left.as_slice(), right.as_slice());
    proof {
        if same {
            assert(*left =~= *right);
        }
    }
    same
}

/// Whether `left` sorts before `right` byte by byte.
pub fn bytes_precede(left: &[u8], right: &[u8]) -> (precedes: bool)
    requires
        left@.len() == right@.len(),
    ensures
        precedes == bytes_before(left@, right@),
{
    let mut index: usize = 0;
    proof {
        assert(left@.subrange(0, left@.len() as int) =~= left@);
        assert(right@.subrange(0, right@.len() as int) =~= right@);
    }
    while index < left.len()
        invariant
            left@.len() == right@.len(),
            index <= left@.len(),
            left@.subrange(0, index as int) == right@.subrange(0, index as int),
            bytes_before(left@, right@) == bytes_before(
                left@.subrange(index as int, left@.len() as int),
                right@.subrange(index as int, right@.len() as int),
            ),
        decreases left@.len() - index,
    {
        if left[index] != right[index] {
            proof {
                let l = left@.subrange(index as int, left@.len() as int);
                assert(l[0] == left@[index as int]);
            }
            return left[index] < right[index];
        }
        proof {
            let l = left@.subrange(index as int, left@.len() as int);
            let r = right@.subrange(index as int, right@.len() as int);
            assert(l.drop_first() =~= left@.subrange(index + 1, left@.len() as int));
            assert(r.drop_first() =~= right@.subrange(index + 1, right@.len() as int));
            assert(left@.subrange(0, index + 1) =~= left@.subrange(0, index as int).push(left@[index as int]));
            assert(right@.subrange(0, index + 1) =~= right@.subrange(0, index as int).push(right@[index as int]));
        }
        index = index + 1;
    }
    proof {
        assert(left@.subrange(left@.len() as int, left@.len() as int) =~= Seq::<u8>::empty());
        assert(right@.subrange(right@.len() as int, right@.len() as int) =~= Seq::<u8>::empty());
    }
    false
}

/// Lexicographic order of equal-length byte strings.
pub open spec fn bytes_before(left: Seq<u8>, right: Seq<u8>) -> bool
    decreases left.len(),
{
    if left.len() == 0 || right.len() == 0 {
        false
    } else if left[0] != right[0] {
        left[0] < right[0]
    } else {
        bytes_before(left.drop_first(), right.drop_first())
    }
}

} // verus!
