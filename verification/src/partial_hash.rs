//! Partial hashes: a query's multi-attribute hash with unknown bits masked
//! out, and the enumerator of the bucket ids such a hash may address.

use vstd::prelude::*;

verus! {

use crate::choice_vec::ChoiceVec;
use crate::query::Query;
use crate::util::{
    bit, bit_at, floor_log2, hash, hash_spec, highest_set_bit, lemma_floor_log2_unique,
    lemma_mask32_is_mod, mask32,
};
use vstd::arithmetic::power2::pow2;

/// The mask of a complete hash: every bit known.
pub const FULL_MASK: u32 = 0xffff_ffff;

/// A hash value of which only the bits selected by `mask` are meaningful;
/// the other bits of `hash` are zero.
#[derive(PartialEq, Eq, PartialOrd, Ord, Debug)]
pub struct PartialHash {
    pub hash: u32,
    pub mask: u32,
}

/// The depth of a linear-hash bucket map with `num_pages` buckets: the
/// number of address bits before the split pointer is taken into account.
pub open spec fn page_depth(num_pages: u32) -> nat {
    floor_log2(num_pages as nat)
}

/// The split pointer of a bucket map with `num_pages` buckets.
pub open spec fn page_split(num_pages: u32) -> int {
    num_pages - pow2(page_depth(num_pages))
}

/// How many low-order hash bits address bucket `b`: `depth + 1` for buckets
/// already split this round and for their new partners, `depth` otherwise.
pub open spec fn tag_width(num_pages: u32, b: u32) -> u32 {
    let d = page_depth(num_pages);
    if (b as int) < page_split(num_pages) || b as nat >= pow2(d) {
        (d + 1) as u32
    } else {
        d as u32
    }
}

/// Whether bucket `b` can hold a tuple whose full hash agrees with the
/// partial hash `(h, m)`: the bits of `b` that address it must agree with
/// `h` wherever `m` marks them known.
pub open spec fn id_consistent(h: u32, m: u32, num_pages: u32, b: u32) -> bool {
    &&& b < num_pages
    &&& ((b ^ h) & m) & mask32(tag_width(num_pages, b)) == 0
}

/// What bit `i` of a query's partial hash must be: for a known attribute the
/// mask bit is set and the hash bit is the chosen bit of that attribute's
/// hash; for an unknown attribute both are clear.
pub open spec fn from_query_bit(q: Query, cv: ChoiceVec, hv: u32, mv: u32, i: int) -> bool {
    let a = cv.data@[i].0 as int;
    let bb = cv.data@[i].1 as u32;
    match q.byte_matches()[a] {
        Some(vbytes) => bit_at(mv, i as u32) == 1 && bit_at(hv, i as u32) == bit_at(
            hash_spec(vbytes),
            bb,
        ),
        None => bit_at(mv, i as u32) == 0 && bit_at(hv, i as u32) == 0,
    }
}

/// Single-pass enumerator over the bucket ids consistent with a partial
/// hash, in increasing order.
#[derive(Debug)]
pub struct PageIdIter {
    pub ids: Vec<u32>,
    pub pos: usize,
}

impl PartialHash {
    /// Whether a full hash agrees with this partial hash on every known bit.
    pub fn match_hash(&self, other_hash: u32) -> (r: bool)
        ensures
            r == (other_hash & self.mask == self.hash),
    {
        return (other_hash & self.mask) == self.hash;
    }

    /// Whether every bit of the hash is known.
    pub fn is_complete(&self) -> (r: bool)
        ensures
            r == (self.mask == FULL_MASK),
    {
        return self.mask == FULL_MASK;
    }

    /// Enumerate exactly the buckets that may hold a matching tuple.
    pub fn matching_page_ids(&self, num_pages: u32) -> (r: PageIdIter)
        requires
            num_pages >= 1,
        ensures
            r.pos == 0,
            forall|k1: int, k2: int|
                0 <= k1 < k2 < r.ids@.len() ==> r.ids@[k1] < r.ids@[k2],
            forall|k: int|
                0 <= k < r.ids@.len() ==> id_consistent(
                    self.hash,
                    self.mask,
                    num_pages,
                    #[trigger] r.ids@[k],
                ),
            forall|b: u32|
                id_consistent(self.hash, self.mask, num_pages, b) ==> r.ids@.contains(b),
    {
        PageIdIter::new(self, num_pages)
    }

    /// Build the partial hash of a query under a choice vector.
    pub fn from_query(query: &Query, choice: &ChoiceVec) -> (r: PartialHash)
        requires
            choice.data@.len() == 32,
            forall|i: int|
                0 <= i < 32 ==> ((#[trigger] choice.data@[i]).0 as int) < query.matches@.len()
                    && choice.data@[i].1 < 32,
        ensures
            r.hash & r.mask == r.hash,
            forall|i: int| 0 <= i < 32 ==> #[trigger] from_query_bit(*query, *choice, r.hash, r.mask, i),
    {
        let mut attr_hashes: Vec<Option<u32>> = Vec::new();
        let mut k: usize = 0;
        while k < query.matches.len()
            invariant
                0 <= k <= query.matches@.len(),
                attr_hashes@.len() == k,
                forall|j: int|
                    0 <= j < k ==> (#[trigger] attr_hashes@[j]) == (match query.byte_matches()[j] {
                        Some(vb) => Some(hash_spec(vb)),
                        None => None::<u32>,
                    }),
            decreases query.matches@.len() - k,
        {
            match &query.matches[k] {
                Some(v) => {
                    let h = hash(v.as_str());
                    attr_hashes.push(Some(h));
                },
                None => {
                    attr_hashes.push(None);
                },
            }
            k = k + 1;
        }
        let mut query_hash: u32 = 0;
        let mut query_mask: u32 = FULL_MASK;
        let mut i: usize = 0;
        proof {
            assert(forall|j: u32| j < 32 ==> #[trigger] bit_at(0u32, j) == 0) by (bit_vector);
            assert(forall|j: u32| j < 32 ==> #[trigger] bit_at(0xffff_ffffu32, j) == 1)
                by (bit_vector);
            assert(0u32 & 0xffff_ffffu32 == 0u32) by (bit_vector);
        }
        while i < 32
            invariant
                0 <= i <= 32,
                choice.data@.len() == 32,
                forall|j: int|
                    0 <= j < 32 ==> ((#[trigger] choice.data@[j]).0 as int)
                        < query.matches@.len() && choice.data@[j].1 < 32,
                attr_hashes@.len() == query.matches@.len(),
                forall|j: int|
                    0 <= j < attr_hashes@.len() ==> (#[trigger] attr_hashes@[j]) == (
                    match query.byte_matches()[j] {
                        Some(vb) => Some(hash_spec(vb)),
                        None => None::<u32>,
                    }),
                query_hash & query_mask == query_hash,
                forall|j: int|
                    0 <= j < i ==> #[trigger] from_query_bit(
                        *query,
                        *choice,
                        query_hash,
                        query_mask,
                        j,
                    ),
                forall|j: u32|
                    i <= j < 32 ==> #[trigger] bit_at(query_hash, j) == 0 && bit_at(query_mask, j)
                        == 1,
            decreases 32 - i,
        {
            let entry = choice.data[i];
            let ghost old_hash = query_hash;
            let ghost old_mask = query_mask;
            match attr_hashes[entry.0 as usize] {
                Some(a_hash) => {
                    let b = bit(entry.1, a_hash);
                    proof {
                        assert(bit_at(old_hash, i as u32) == 0);
                        assert(bit_at(old_mask, i as u32) == 1);
                        lemma_known_bit_keeps_match(old_hash, old_mask, b, i as u32);
                    }
                    query_hash = query_hash | (b << (i as u32));
                    proof {
                        assert forall|j: u32| j < 32 implies #[trigger] bit_at(query_hash, j) == (
                        if j == i as u32 {
                            b
                        } else {
                            bit_at(old_hash, j)
                        }) by {
                            lemma_set_bit(old_hash, b, i as u32, j);
                        }
                        assert forall|j: int| 0 <= j < i + 1 implies #[trigger] from_query_bit(
                            *query,
                            *choice,
                            query_hash,
                            query_mask,
                            j,
                        ) by {
                            if j < i {
                                assert(from_query_bit(*query, *choice, old_hash, old_mask, j));
                                assert(bit_at(query_hash, j as u32) == bit_at(
                                    old_hash,
                                    j as u32,
                                ));
                            } else {
                                assert(attr_hashes@[entry.0 as int] == Some(a_hash));
                                assert(query.byte_matches()[entry.0 as int] is Some);
                                assert(bit_at(query_hash, i as u32) == b);
                            }
                        }
                    }
                },
                None => {
                    proof {
                        assert(bit_at(old_hash, i as u32) == 0);
                        lemma_unknown_bit_keeps_match(old_hash, old_mask, i as u32);
                    }
                    query_mask = query_mask & !(1u32 << (i as u32));
                    proof {
                        assert forall|j: u32| j < 32 implies #[trigger] bit_at(query_mask, j) == (
                        if j == i as u32 {
                            0u32
                        } else {
                            bit_at(old_mask, j)
                        }) by {
                            lemma_clear_bit(old_mask, i as u32, j);
                        }
                        assert forall|j: int| 0 <= j < i + 1 implies #[trigger] from_query_bit(
                            *query,
                            *choice,
                            query_hash,
                            query_mask,
                            j,
                        ) by {
                            if j < i {
                                assert(from_query_bit(*query, *choice, old_hash, old_mask, j));
                                assert(bit_at(query_mask, j as u32) == bit_at(
                                    old_mask,
                                    j as u32,
                                ));
                            } else {
                                assert(attr_hashes@[entry.0 as int] is None);
                                assert(query.byte_matches()[entry.0 as int] is None);
                                assert(bit_at(query_mask, i as u32) == 0);
                                assert(bit_at(query_hash, i as u32) == 0);
                            }
                        }
                    }
                },
            }
            proof {
                assert forall|j: u32| i + 1 <= j < 32 implies #[trigger] bit_at(query_hash, j)
                    == 0 && bit_at(query_mask, j) == 1 by {
                    assert(bit_at(old_hash, j) == 0);
                    assert(bit_at(old_mask, j) == 1);
                }
            }
            i = i + 1;
        }
        PartialHash { hash: query_hash, mask: query_mask }
    }
}

impl PageIdIter {
    /// Scan the bucket ids in order and keep those whose address bits agree
    /// with the partial hash on its known bits.
    pub fn new(ma_hash: &PartialHash, num_pages: u32) -> (r: PageIdIter)
        requires
            num_pages >= 1,
        ensures
            r.pos == 0,
            forall|k1: int, k2: int|
                0 <= k1 < k2 < r.ids@.len() ==> r.ids@[k1] < r.ids@[k2],
            forall|k: int|
                0 <= k < r.ids@.len() ==> id_consistent(
                    ma_hash.hash,
                    ma_hash.mask,
                    num_pages,
                    #[trigger] r.ids@[k],
                ),
            forall|b: u32|
                id_consistent(ma_hash.hash, ma_hash.mask, num_pages, b) ==> r.ids@.contains(b),
    {
        let h = ma_hash.hash;
        let m = ma_hash.mask;
        let depth_u8 = highest_set_bit(num_pages);
        let depth: u32 = (depth_u8 - 1) as u32;
        proof {
            lemma_floor_log2_unique(num_pages as nat, depth as nat);
            vstd::bits::lemma_u32_pow2_no_overflow(depth as nat);
            vstd::bits::lemma_u32_shl_is_mul(1u32, depth);
        }
        let two_d: u32 = 1u32 << depth;
        let sp: u32 = num_pages - two_d;
        let mut ids: Vec<u32> = Vec::new();
        let mut b: u32 = 0;
        while b < num_pages
            invariant
                num_pages >= 1,
                depth < 32,
                page_depth(num_pages) == depth,
                two_d == pow2(depth as nat),
                sp == page_split(num_pages),
                0 <= b <= num_pages,
                forall|k: int| 0 <= k < ids@.len() ==> #[trigger] ids@[k] < b,
                forall|k1: int, k2: int|
                    0 <= k1 < k2 < ids@.len() ==> ids@[k1] < ids@[k2],
                forall|k: int|
                    0 <= k < ids@.len() ==> id_consistent(h, m, num_pages, #[trigger] ids@[k]),
                forall|c: u32| c < b && id_consistent(h, m, num_pages, c) ==> ids@.contains(c),
            decreases num_pages - b,
        {
            let w: u32 = if b < sp || b >= two_d {
                depth + 1
            } else {
                depth
            };
            proof {
                assert(w == tag_width(num_pages, b));
            }
            proof {
                assert((1u64 << (w as u64)) >= 1) by (bit_vector)
                    requires
                        (w as u64) <= 32,
                ;
            }
            let wmask: u32 = ((1u64 << (w as u64)) - 1) as u32;
            proof {
                assert(wmask == mask32(w));
            }
            let ghost prev = ids@;
            if ((b ^ h) & m) & wmask == 0 {
                ids.push(b);
            }
            proof {
                assert forall|c: u32| c < b + 1 && id_consistent(h, m, num_pages, c) implies
                    ids@.contains(c) by {
                    if c < b {
                        assert(prev.contains(c));
                        let k = choose|k: int| 0 <= k < prev.len() && prev[k] == c;
                        assert(ids@[k] == c);
                    } else {
                        assert(ids@[ids@.len() - 1] == c);
                    }
                }
            }
            b = b + 1;
        }
        PageIdIter { ids, pos: 0 }
    }

    /// Yield the next bucket id, if any remain.
    pub fn next(&mut self) -> (r: Option<u32>)
        ensures
            old(self).pos < old(self).ids@.len() ==> r == Some(
                old(self).ids@[old(self).pos as int],
            ) && final(self).pos == old(self).pos + 1 && final(self).ids == old(self).ids,
            old(self).pos >= old(self).ids@.len() ==> r is None && final(self).pos == old(
                self,
            ).pos && final(self).ids == old(self).ids,
    {
        if self.pos < self.ids.len() {
            let id = self.ids[self.pos];
            self.pos = self.pos + 1;
            Some(id)
        } else {
            None
        }
    }
}

proof fn lemma_set_bit(r: u32, b: u32, i: u32, j: u32)
    by (bit_vector)
    requires
        b == 0 || b == 1,
        i < 32,
        j < 32,
        (r >> i) & 1 == 0,
    ensures
        j != i ==> ((r | (b << i)) >> j) & 1 == (r >> j) & 1,
        j == i ==> ((r | (b << i)) >> j) & 1 == b,
{
}

proof fn lemma_clear_bit(m: u32, i: u32, j: u32)
    by (bit_vector)
    requires
        i < 32,
        j < 32,
    ensures
        j != i ==> ((m & !(1u32 << i)) >> j) & 1 == (m >> j) & 1,
        j == i ==> ((m & !(1u32 << i)) >> j) & 1 == 0,
{
}

proof fn lemma_known_bit_keeps_match(h: u32, m: u32, b: u32, i: u32)
    by (bit_vector)
    requires
        h & m == h,
        b == 0 || b == 1,
        i < 32,
        (m >> i) & 1 == 1,
    ensures
        (h | (b << i)) & m == (h | (b << i)),
{
}

proof fn lemma_unknown_bit_keeps_match(h: u32, m: u32, i: u32)
    by (bit_vector)
    requires
        h & m == h,
        i < 32,
        (h >> i) & 1 == 0,
    ensures
        h & (m & !(1u32 << i)) == h,
{
}

} // verus!
