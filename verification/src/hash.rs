//! The hash primitive: a four-byte hash value, the hash of a leaf and the
//! hash of a pair of children.

use vstd::prelude::*;
use vstd::std_specs::cmp::PartialEqSpecImpl;

verus! {

broadcast use vstd::array::group_array_axioms;

/// A hash value: four bytes, compared byte by byte.
#[derive(Debug, Copy, Clone, Eq)]
pub struct CryptoHash(pub [u8; 4]);

impl PartialEq for CryptoHash {
    fn eq(&self, other: &Self) -> (same: bool) {
        let same = self.0[0] == other.0[0] && self.0[1] == other.0[1] && self.0[2] == other.0[2]
            && self.0[3] == other.0[3];
        proof {
            assert(same == (self.0 =~= other.0));
        }
        same
    }
}

impl PartialEqSpecImpl for CryptoHash {
    open spec fn obeys_eq_spec() -> bool {
        true
    }

    open spec fn eq_spec(&self, other: &Self) -> bool {
        *self == *other
    }
}

/// The four little-endian bytes of `n` taken modulo 2^32.
pub open spec fn spec_le_bytes(n: int) -> CryptoHash {
    CryptoHash(
        [
            (n % 256) as u8,
            (n / 256 % 256) as u8,
            (n / 65536 % 256) as u8,
            (n / 16777216 % 256) as u8,
        ],
    )
}

impl CryptoHash {
    /// The hash that stands for a tree without leaves: four zero bytes.
    pub open spec fn spec_new() -> CryptoHash {
        CryptoHash([0u8, 0u8, 0u8, 0u8])
    }

    /// The sum of the four bytes, between 0 and 1020.
    pub open spec fn byte_sum(self) -> int {
        self.0[0] + self.0[1] + self.0[2] + self.0[3]
    }

    /// The hash of a leaf: the little-endian bytes of the two's complement
    /// of `value`.
    pub open spec fn spec_hash(value: i32) -> CryptoHash {
        spec_le_bytes(
            if value < 0 {
                value + 0x1_0000_0000
            } else {
                value as int
            },
        )
    }

    /// The hash of a parent: the little-endian bytes of the sum of all
    /// eight bytes of its two children.
    pub open spec fn spec_combine_hash(hash1: CryptoHash, hash2: CryptoHash) -> CryptoHash {
        spec_le_bytes(hash1.byte_sum() + hash2.byte_sum())
    }

    /// The hash of the tree without leaves.
    pub fn new() -> (res: Self)
        ensures
            res == Self::spec_new(),
    {
        Self([0, 0, 0, 0])
    }

    /// The hash of the leaf that holds `value`.
    pub fn hash(value: i32) -> (res: Self)
        ensures
            res == Self::spec_hash(value),
    {
        let low: u32 = if value < 0 {
            (value - i32::MIN) as u32 + 0x8000_0000u32
        } else {
            value as u32
        };
        Self(
            [
                (low % 256) as u8,
                (low / 256 % 256) as u8,
                (low / 65536 % 256) as u8,
                (low / 16777216 % 256) as u8,
            ],
        )
    }

    /// The hash of the parent of `hash1`, on the left, and `hash2`, on the
    /// right.
    pub fn combine_hash(hash1: &CryptoHash, hash2: &CryptoHash) -> (res: Self)
        ensures
            res == Self::spec_combine_hash(*hash1, *hash2),
    {
        let sum1: u32 = hash1.0[0] as u32 + hash1.0[1] as u32 + hash1.0[2] as u32
            + hash1.0[3] as u32;
        let sum2: u32 = hash2.0[0] as u32 + hash2.0[1] as u32 + hash2.0[2] as u32
            + hash2.0[3] as u32;
        let sum: u32 = sum1 + sum2;
        Self([(sum % 256) as u8, (sum / 256) as u8, 0, 0])
    }
}

impl Default for CryptoHash {
    fn default() -> (res: Self)
        ensures
            res == CryptoHash::spec_new(),
    {
        CryptoHash::new()
    }
}

} // verus!
