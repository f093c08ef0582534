//! A compact multiset fingerprint of a string's case-folded bytes.
//!
//! Each byte is hashed into one of 64 buckets and the bag keeps one presence
//! bit per bucket. A candidate whose bag is not a superset of the query's bag
//! cannot contain every byte of the query, so it is skipped before any
//! scoring work.

use vstd::prelude::*;
use crate::text::fold_bytes;

verus! {

/// Bucket of one (already folded) byte: lowercase letters and digits get a
/// bucket of their own, every other byte shares one of the remaining buckets.
pub open spec fn bucket(b: u8) -> u64 {
    if 0x61 <= b && b <= 0x7a {
        (b - 0x61) as u64
    } else if 0x30 <= b && b <= 0x39 {
        (26 + (b - 0x30)) as u64
    } else {
        (36 + (b % 28)) as u64
    }
}

/// Presence bits of a byte sequence: one bit per occupied bucket.
pub open spec fn bag_of(s: Seq<u8>) -> u64
    decreases s.len(),
{
    if s.len() == 0 {
        0u64
    } else {
        bag_of(s.drop_last()) | (1u64 << bucket(s.last()))
    }
}

/// True when every bucket occupied in `sub` is also occupied in `sup`.
pub open spec fn bag_contains_all(sup: u64, sub: u64) -> bool {
    sup & sub == sub
}

/// Membership of a byte in a sequence.
pub open spec fn byte_in(s: Seq<u8>, b: u8) -> bool {
    exists|i: int| 0 <= i < s.len() && s[i] == b
}

/// The bag has the bucket bit of every byte of the sequence.
pub proof fn lemma_bag_of_member(s: Seq<u8>, b: u8)
    requires
        byte_in(s, b),
    ensures
        bag_of(s) & (1u64 << bucket(b)) == (1u64 << bucket(b)),
    decreases s.len(),
{
    let i = choose|i: int| 0 <= i < s.len() && s[i] == b;
    if i == s.len() - 1 {
        assert(s.last() == b);
        assert(bag_of(s) == bag_of(s.drop_last()) | (1u64 << bucket(b)));
        let x = bag_of(s.drop_last());
        let k = bucket(b);
        assert((x | (1u64 << k)) & (1u64 << k) == (1u64 << k)) by (bit_vector);
    } else {
        assert(byte_in(s.drop_last(), b)) by {
            assert(s.drop_last()[i] == b);
        }
        lemma_bag_of_member(s.drop_last(), b);
        let x = bag_of(s.drop_last());
        let kl = bucket(s.last());
        let k = bucket(b);
        assert(x & (1u64 << k) == (1u64 << k) ==> (x | (1u64 << kl)) & (1u64 << k) == (1u64
            << k)) by (bit_vector);
    }
}

/// A bag that has the bucket bit of every byte of `q` covers the bag of `q`.
pub proof fn lemma_bag_superset_from_members(sup_bag: u64, q: Seq<u8>)
    requires
        forall|j: int|
            0 <= j < q.len() ==> sup_bag & (1u64 << bucket(q[j])) == (1u64 << #[trigger] bucket(
                q[j],
            )),
    ensures
        bag_contains_all(sup_bag, bag_of(q)),
    decreases q.len(),
{
    if q.len() == 0 {
        assert(sup_bag & 0 == 0) by (bit_vector);
    } else {
        assert forall|j: int|
            0 <= j < q.drop_last().len() implies sup_bag & (1u64 << bucket(q.drop_last()[j]))
                == (1u64 << #[trigger] bucket(q.drop_last()[j])) by {
            assert(q.drop_last()[j] == q[j]);
        }
        lemma_bag_superset_from_members(sup_bag, q.drop_last());
        assert(q.last() == q[q.len() - 1]);
        let x = bag_of(q.drop_last());
        let m = bucket(q.last());
        assert((sup_bag & x == x && sup_bag & (1u64 << m) == (1u64 << m)) ==> sup_bag & (x
            | (1u64 << m)) == (x | (1u64 << m))) by (bit_vector);
    }
}

/// A case-folded multiset fingerprint of a string's bytes, supporting an
/// O(1) superset test.
#[derive(Clone, Copy, Debug, PartialEq, Eq, Structural)]
pub struct CharBag(pub u64);

impl CharBag {
    /// Fingerprint of an already case-folded byte sequence.
    pub fn from_folded_bytes(s: &[u8]) -> (r: CharBag)
        ensures
            r.0 == bag_of(s@),
    {
        let mut bits: u64 = 0;
        let mut i: usize = 0;
        while i < s.len()
            invariant
                i <= s@.len(),
                bits == bag_of(s@.take(i as int)),
            decreases s@.len() - i,
        {
            let b = s[i];
            let k: u64 = if 0x61 <= b && b <= 0x7a {
                (b - 0x61) as u64
            } else if 0x30 <= b && b <= 0x39 {
                26 + (b - 0x30) as u64
            } else {
                36 + (b % 28) as u64
            };
            proof {
                assert(k == bucket(s@[i as int]));
                assert(s@.take(i + 1).drop_last() =~= s@.take(i as int));
                assert(s@.take(i + 1).last() == s@[i as int]);
            }
            bits = bits | (1u64 << k);
            i = i + 1;
        }
        proof {
            assert(s@.take(s@.len() as int) =~= s@);
        }
        CharBag(bits)
    }

    /// Fingerprint of a raw byte sequence, folding each byte first.
    pub fn from_bytes(s: &[u8]) -> (r: CharBag)
        ensures
            r.0 == bag_of(fold_bytes(s@)),
    {
        let folded = crate::text::fold_bytes_exec(s);
        CharBag::from_folded_bytes(folded.as_slice())
    }

    /// True when `self` occupies every bucket that `other` occupies.
    pub fn is_superset(&self, other: CharBag) -> (r: bool)
        ensures
            r == bag_contains_all(self.0, other.0),
    {
        self.0 & other.0 == other.0
    }
}

} // verus!
