//! An alternative representation of a hash with unknown bits, staged on the
//! depth alone: its enumerator ranges over all ids addressable with a fixed
//! number of bits, without a split-pointer bound.

use vstd::prelude::*;

verus! {

use crate::choice_vec::ChoiceVec;
use crate::partial_hash::from_query_bit;
use crate::query::Query;
use crate::util::{bit, bit_at, hash, hash_spec, mask32};
use vstd::arithmetic::power2::pow2;

/// The mask of a complete hash: every bit known.
pub const FULL_MASK: u32 = 0xffff_ffff;

/// A multi-attribute hash value where some bits might be unknown.
#[derive(PartialEq, Eq, PartialOrd, Ord, Debug)]
pub struct MAHash {
    pub hash: u32,
    pub mask: u32,
}

/// Single-pass enumerator over the ids below `2^depth` that agree with a
/// partial hash on its known low bits, in increasing order.
pub struct IDIter {
    pub ids: Vec<u32>,
    pub pos: usize,
}

/// Whether id `b` is addressable with `depth` bits and agrees with the
/// partial hash on the known ones.
pub open spec fn id_in_depth(h: u32, m: u32, depth: u32, b: u32) -> bool {
    &&& (b as nat) < pow2(depth as nat)
    &&& ((b ^ h) & m) & mask32(depth) == 0
}

impl MAHash {
    /// Whether a full hash agrees with this partial hash on every known bit.
    pub fn match_hash(&self, other_hash: u32) -> (r: bool)
        ensures
            r == (other_hash & self.mask == self.hash),
    {
        return (other_hash & self.mask) == self.hash;
    }

    /// Whether every bit of the hash is known.
    pub fn is_complete(&self) -> (r: bool)
        ensures
            r == (self.mask == FULL_MASK),
    {
        return self.mask == FULL_MASK;
    }

    /// Enumerate the ids below `2^depth` consistent with this hash.
    pub fn ids_within(&self, depth: u32) -> (r: IDIter)
        requires
            depth <= 32,
        ensures
            r.pos == 0,
            forall|k1: int, k2: int|
                0 <= k1 < k2 < r.ids@.len() ==> r.ids@[k1] < r.ids@[k2],
            forall|k: int|
                0 <= k < r.ids@.len() ==> id_in_depth(
                    self.hash,
                    self.mask,
                    depth,
                    #[trigger] r.ids@[k],
                ),
            forall|b: u32| id_in_depth(self.hash, self.mask, depth, b) ==> r.ids@.contains(b),
    {
        return IDIter::new(self, depth);
    }

    /// Build the partial hash of a query under a choice vector: as for the
    /// split-aware representation, bit `i` of the mask is set exactly when
    /// attribute `a_i` of the query is known.
    pub fn from_query(query: &Query, choice: &ChoiceVec) -> (r: MAHash)
        requires
            choice.data@.len() == 32,
            forall|i: int|
                0 <= i < 32 ==> ((#[trigger] choice.data@[i]).0 as int) < query.matches@.len()
                    && choice.data@[i].1 < 32,
        ensures
            r.hash & r.mask == r.hash,
            forall|i: int|
                0 <= i < 32 ==> #[trigger] from_query_bit(*query, *choice, r.hash, r.mask, i),
    {
        let mut attr_hashes: Vec<Option<u32>> = Vec::new();
        let mut k: usize = 0;
        while k < query.matches.len()
            invariant
                0 <= k <= query.matches@.len(),
                attr_hashes@.len() == k,
                forall|j: int|
                    0 <= j < k ==> (#[trigger] attr_hashes@[j]) == (match query.byte_matches()[j] {
                        Some(vb) => Some(hash_spec(vb)),
                        None => None::<u32>,
                    }),
            decreases query.matches@.len() - k,
        {
            match &query.matches[k] {
                Some(v) => {
                    let h = hash(v.as_str());
                    attr_hashes.push(Some(h));
                },
                None => {
                    attr_hashes.push(None);
                },
            }
            k = k + 1;
        }
        let mut query_hash: u32 = 0;
        let mut query_mask: u32 = FULL_MASK;
        let mut i: usize = 0;
        proof {
            assert(forall|j: u32| j < 32 ==> #[trigger] bit_at(0u32, j) == 0) by (bit_vector);
            assert(forall|j: u32| j < 32 ==> #[trigger] bit_at(0xffff_ffffu32, j) == 1)
                by (bit_vector);
            assert(0u32 & 0xffff_ffffu32 == 0u32) by (bit_vector);
        }
        while i < 32
            invariant
                0 <= i <= 32,
                choice.data@.len() == 32,
                forall|j: int|
                    0 <= j < 32 ==> ((#[trigger] choice.data@[j]).0 as int)
                        < query.matches@.len() && choice.data@[j].1 < 32,
                attr_hashes@.len() == query.matches@.len(),
                forall|j: int|
                    0 <= j < attr_hashes@.len() ==> (#[trigger] attr_hashes@[j]) == (
                    match query.byte_matches()[j] {
                        Some(vb) => Some(hash_spec(vb)),
                        None => None::<u32>,
                    }),
                query_hash & query_mask == query_hash,
                forall|j: int|
                    0 <= j < i ==> #[trigger] from_query_bit(
                        *query,
                        *choice,
                        query_hash,
                        query_mask,
                        j,
                    ),
                forall|j: u32|
                    i <= j < 32 ==> #[trigger] bit_at(query_hash, j) == 0 && bit_at(query_mask, j)
                        == 1,
            decreases 32 - i,
        {
            let entry = choice.data[i];
            let ghost old_hash = query_hash;
            let ghost old_mask = query_mask;
            match attr_hashes[entry.0 as usize] {
                Some(a_hash) => {
                    let b = bit(entry.1, a_hash);
                    proof {
                        assert(bit_at(old_hash, i as u32) == 0);
                        assert(bit_at(old_mask, i as u32) == 1);
                        lemma_known_bit_keeps_match(old_hash, old_mask, b, i as u32);
                    }
                    query_hash = query_hash | (b << (i as u32));
                    proof {
                        assert forall|j: u32| j < 32 implies #[trigger] bit_at(query_hash, j) == (
                        if j == i as u32 {
                            b
                        } else {
                            bit_at(old_hash, j)
                        }) by {
                            lemma_set_bit(old_hash, b, i as u32, j);
                        }
                        assert forall|j: int| 0 <= j < i + 1 implies #[trigger] from_query_bit(
                            *query,
                            *choice,
                            query_hash,
                            query_mask,
                            j,
                        ) by {
                            if j < i {
                                assert(from_query_bit(*query, *choice, old_hash, old_mask, j));
                                assert(bit_at(query_hash, j as u32) == bit_at(
                                    old_hash,
                                    j as u32,
                                ));
                            } else {
                                assert(attr_hashes@[entry.0 as int] == Some(a_hash));
                                assert(query.byte_matches()[entry.0 as int] is Some);
                                assert(bit_at(query_hash, i as u32) == b);
                            }
                        }
                    }
                },
                None => {
                    proof {
                        assert(bit_at(old_hash, i as u32) == 0);
                        lemma_unknown_bit_keeps_match(old_hash, old_mask, i as u32);
                    }
                    query_mask = query_mask & !(1u32 << (i as u32));
                    proof {
                        assert forall|j: u32| j < 32 implies #[trigger] bit_at(query_mask, j) == (
                        if j == i as u32 {
                            0u32
                        } else {
                            bit_at(old_mask, j)
                        }) by {
                            lemma_clear_bit(old_mask, i as u32, j);
                        }
                        assert forall|j: int| 0 <= j < i + 1 implies #[trigger] from_query_bit(
                            *query,
                            *choice,
                            query_hash,
                            query_mask,
                            j,
                        ) by {
                            if j < i {
                                assert(from_query_bit(*query, *choice, old_hash, old_mask, j));
                                assert(bit_at(query_mask, j as u32) == bit_at(
                                    old_mask,
                                    j as u32,
                                ));
                            } else {
                                assert(attr_hashes@[entry.0 as int] is None);
                                assert(query.byte_matches()[entry.0 as int] is None);
                                assert(bit_at(query_mask, i as u32) == 0);
                                assert(bit_at(query_hash, i as u32) == 0);
                            }
                        }
                    }
                },
            }
            proof {
                assert forall|j: u32| i + 1 <= j < 32 implies #[trigger] bit_at(query_hash, j)
                    == 0 && bit_at(query_mask, j) == 1 by {
                    assert(bit_at(old_hash, j) == 0);
                    assert(bit_at(old_mask, j) == 1);
                }
            }
            i = i + 1;
        }
        return MAHash { hash: query_hash, mask: query_mask };
    }
}

impl IDIter {
    /// Scan the ids below `2^depth` in order and keep the consistent ones.
    pub fn new(ma_hash: &MAHash, depth: u32) -> (r: IDIter)
        requires
            depth <= 32,
        ensures
            r.pos == 0,
            forall|k1: int, k2: int|
                0 <= k1 < k2 < r.ids@.len() ==> r.ids@[k1] < r.ids@[k2],
            forall|k: int|
                0 <= k < r.ids@.len() ==> id_in_depth(
                    ma_hash.hash,
                    ma_hash.mask,
                    depth,
                    #[trigger] r.ids@[k],
                ),
            forall|b: u32| id_in_depth(ma_hash.hash, ma_hash.mask, depth, b) ==> r.ids@.contains(b),
    {
        let h = ma_hash.hash;
        let m = ma_hash.mask;
        proof {
            assert((1u64 << (depth as u64)) >= 1) by (bit_vector)
                requires
                    (depth as u64) <= 32,
            ;
            vstd::bits::lemma_u64_pow2_no_overflow(depth as nat);
            vstd::bits::lemma_u64_shl_is_mul(1u64, depth as u64);
        }
        let bound: u64 = 1u64 << (depth as u64);
        let wmask: u32 = ((1u64 << (depth as u64)) - 1) as u32;
        proof {
            assert(wmask == mask32(depth));
            assert(bound == pow2(depth as nat));
            vstd::arithmetic::power2::lemma2_to64();
            if depth < 32 {
                vstd::arithmetic::power2::lemma_pow2_strictly_increases(depth as nat, 32);
            }
            assert(bound <= 0x1_0000_0000);
        }
        let mut ids: Vec<u32> = Vec::new();
        let mut b: u64 = 0;
        while b < bound
            invariant
                depth <= 32,
                bound == pow2(depth as nat),
                bound <= 0x1_0000_0000,
                wmask == mask32(depth),
                0 <= b <= bound,
                forall|k: int| 0 <= k < ids@.len() ==> (#[trigger] ids@[k]) < b,
                forall|k1: int, k2: int|
                    0 <= k1 < k2 < ids@.len() ==> ids@[k1] < ids@[k2],
                forall|k: int|
                    0 <= k < ids@.len() ==> id_in_depth(h, m, depth, #[trigger] ids@[k]),
                forall|c: u32| c < b && id_in_depth(h, m, depth, c) ==> ids@.contains(c),
            decreases bound - b,
        {
            let bu: u32 = b as u32;
            let ghost prev = ids@;
            if ((bu ^ h) & m) & wmask == 0 {
                ids.push(bu);
            }
            proof {
                assert forall|c: u32| c < b + 1 && id_in_depth(h, m, depth, c) implies
                    ids@.contains(c) by {
                    if c < b {
                        assert(prev.contains(c));
                        let k = choose|k: int| 0 <= k < prev.len() && prev[k] == c;
                        assert(ids@[k] == c);
                    } else {
                        assert(ids@[ids@.len() - 1] == c);
                    }
                }
            }
            b = b + 1;
        }
        IDIter { ids, pos: 0 }
    }

    /// Yield the next id, if any remain.
    pub fn next(&mut self) -> (r: Option<u32>)
        ensures
            old(self).pos < old(self).ids@.len() ==> r == Some(
                old(self).ids@[old(self).pos as int],
            ) && final(self).pos == old(self).pos + 1 && final(self).ids == old(self).ids,
            old(self).pos >= old(self).ids@.len() ==> r is None && final(self).pos == old(
                self,
            ).pos && final(self).ids == old(self).ids,
    {
        if self.pos < self.ids.len() {
            let id = self.ids[self.pos];
            self.pos = self.pos + 1;
            Some(id)
        } else {
            None
        }
    }
}

proof fn lemma_set_bit(r: u32, b: u32, i: u32, j: u32)
    by (bit_vector)
    requires
        b == 0 || b == 1,
        i < 32,
        j < 32,
        (r >> i) & 1 == 0,
    ensures
        j != i ==> ((r | (b << i)) >> j) & 1 == (r >> j) & 1,
        j == i ==> ((r | (b << i)) >> j) & 1 == b,
{
}

proof fn lemma_clear_bit(m: u32, i: u32, j: u32)
    by (bit_vector)
    requires
        i < 32,
        j < 32,
    ensures
        j != i ==> ((m & !(1u32 << i)) >> j) & 1 == (m >> j) & 1,
        j == i ==> ((m & !(1u32 << i)) >> j) & 1 == 0,
{
}

proof fn lemma_known_bit_keeps_match(h: u32, m: u32, b: u32, i: u32)
    by (bit_vector)
    requires
        h & m == h,
        b == 0 || b == 1,
        i < 32,
        (m >> i) & 1 == 1,
    ensures
        (h | (b << i)) & m == (h | (b << i)),
{
}

proof fn lemma_unknown_bit_keeps_match(h: u32, m: u32, i: u32)
    by (bit_vector)
    requires
        h & m == h,
        i < 32,
        (h >> i) & 1 == 0,
    ensures
        h & (m & !(1u32 << i)) == h,
{
}

} // verus!
