use std::collections::HashSet;

use malh::choice_vec::ChoiceVec;
use malh::ma_hash::{MAHash, FULL_MASK};
use malh::partial_hash::{PageIdIter, PartialHash};
use malh::query::Query;
use malh::tuple::Tuple;

// hashing through the staged representation

#[test]
fn ma_hash_hash_mask_correctness() {
    let query = Query::parse("a,b,c", 3).unwrap();
    let c_vec = ChoiceVec::parse("0,0:1,1:2,2", 3).unwrap();
    let MAHash { hash, mask } = MAHash::from_query(&query, &c_vec);
    assert_eq!(hash & mask, hash);
    assert_eq!(hash | mask, mask);
}

#[test]
fn ma_hash_hash_when_known_isnt_0() {
    let query = Query::parse("a,b,c", 3).unwrap();
    let c_vec = ChoiceVec::parse("0,0:1,1:2,2", 3).unwrap();
    let ma_hash = MAHash::from_query(&query, &c_vec);
    assert!(ma_hash.mask != 0);
}

#[test]
fn ma_hash_hash_with_unknown() {
    let query = Query::parse("?,?,?", 3).unwrap();
    let c_vec = ChoiceVec::parse("0,0:1,1:2,2", 3).unwrap();
    let MAHash { hash, mask } = MAHash::from_query(&query, &c_vec);
    assert_eq!(hash, 0);
    assert_eq!(mask, 0);
}

#[test]
fn ma_hash_query_hash_same_as_tuple_hash() {
    let c_vec = ChoiceVec::parse("0,0:0,1:1,0:1,1:2,0:2,1", 3).unwrap();
    let tuple = Tuple::parse("a,b,c", 3).unwrap();
    let query = Query::parse("a,b,c", 3).unwrap();
    let ma_hash = MAHash::from_query(&query, &c_vec);
    assert_eq!(tuple.hash(&c_vec), ma_hash.hash);
}

#[test]
fn ma_hash_hash_matching_zero() {
    let num_hash: u32 = 0;
    let query_hash = MAHash { hash: num_hash, mask: FULL_MASK };
    assert!(query_hash.match_hash(num_hash));
}

#[test]
fn ma_hash_hash_matching_non_zero() {
    let num_hash = rand::random::<u32>();
    let query_hash = MAHash { hash: num_hash, mask: FULL_MASK };
    assert!(query_hash.match_hash(num_hash));
}

// hashing through the split-aware representation

#[test]
fn hash_mask_correctness() {
    let query = Query::parse("a,b,c", 3).unwrap();
    let c_vec = ChoiceVec::parse("0,0:1,1:2,2", 3).unwrap();
    let PartialHash { hash, mask } = PartialHash::from_query(&query, &c_vec);
    assert_eq!(hash & mask, hash);
    assert_eq!(hash | mask, mask);
}

#[test]
fn hash_when_known_isnt_0() {
    let query = Query::parse("a,b,c", 3).unwrap();
    let c_vec = ChoiceVec::parse("0,0:1,1:2,2", 3).unwrap();
    let ma_hash = PartialHash::from_query(&query, &c_vec);
    assert!(ma_hash.mask != 0);
}

#[test]
fn hash_with_unknown() {
    let query = Query::parse("?,?,?", 3).unwrap();
    let c_vec = ChoiceVec::parse("0,0:1,1:2,2", 3).unwrap();
    let PartialHash { hash, mask } = PartialHash::from_query(&query, &c_vec);
    assert_eq!(hash, 0);
    assert_eq!(mask, 0);
}

#[test]
fn query_hash_same_as_tuple_hash() {
    let c_vec = ChoiceVec::parse("0,0:0,1:1,0:1,1:2,0:2,1", 3).unwrap();
    let tuple = Tuple::parse("a,b,c", 3).unwrap();
    let query = Query::parse("a,b,c", 3).unwrap();
    let ma_hash = PartialHash::from_query(&query, &c_vec);
    assert_eq!(tuple.hash(&c_vec), ma_hash.hash);
}

#[test]
fn hash_matching_zero() {
    let num_hash: u32 = 0;
    let query_hash = PartialHash { hash: num_hash, mask: FULL_MASK };
    assert!(query_hash.match_hash(num_hash));
}

#[test]
fn hash_matching_non_zero() {
    let num_hash = rand::random::<u32>();
    let query_hash = PartialHash { hash: num_hash, mask: FULL_MASK };
    assert!(query_hash.match_hash(num_hash));
}

// the page-id enumerator

fn collect_ids(mut iter: PageIdIter) -> HashSet<u32> {
    let mut out = HashSet::new();
    while let Some(id) = iter.next() {
        out.insert(id);
    }
    out
}

#[test]
fn iter_with_no_ambiguities() {
    let mut iter = PageIdIter::new(&PartialHash { hash: 0, mask: FULL_MASK }, 3);
    assert!(iter.next().is_some());
    assert!(iter.next().is_none());
}

#[test]
fn iter_yields_correct_values_for_5_pages() {
    let iter = PageIdIter::new(&PartialHash { hash: FULL_MASK, mask: 0b100 }, 5);
    let expected: HashSet<u32> = vec![0b100, 0b1, 0b10, 0b11].into_iter().collect();
    let results: HashSet<u32> = collect_ids(iter);
    assert_eq!(expected, results);
}

#[test]
fn iter_yields_correct_values_for_8_pages() {
    let iter = PageIdIter::new(&PartialHash { hash: FULL_MASK, mask: 0b100 }, 8);
    let expected: HashSet<u32> = vec![0b100, 0b101, 0b110, 0b111].into_iter().collect();
    let results: HashSet<u32> = collect_ids(iter);
    assert_eq!(expected, results);
}

#[test]
fn iter_yields_correct_values_for_8_pages_with_unknown_hub() {
    let iter = PageIdIter::new(&PartialHash { hash: FULL_MASK, mask: 0b001 }, 8);
    let expected: HashSet<u32> = vec![0b01, 0b11, 0b101, 0b111].into_iter().collect();
    let results: HashSet<u32> = collect_ids(iter);
    assert_eq!(expected, results);
}

#[test]
fn iter_single_page() {
    let mut iter = PageIdIter::new(&PartialHash { hash: 1, mask: 1 }, 1);
    assert_eq!(iter.next(), Some(0));
    assert_eq!(iter.next(), None);
}

#[test]
fn iter_sp_zero() {
    let iter = PageIdIter::new(&PartialHash { hash: 0b10, mask: 0b10 }, 2);
    let expected: HashSet<u32> = vec![0, 1].into_iter().collect();
    let results: HashSet<u32> = collect_ids(iter);
    assert_eq!(expected, results);
}

#[test]
fn iter_3_pages() {
    let iter = PageIdIter::new(&PartialHash { hash: 0b10, mask: 0b10 }, 3);
    let expected: HashSet<u32> = vec![1, 2].into_iter().collect();
    let results: HashSet<u32> = collect_ids(iter);
    assert_eq!(expected, results);
}

// a known bit in an otherwise unknown hash selects half of eight pages
#[test]
fn iter_known_bit_two_of_eight() {
    let iter = PageIdIter::new(&PartialHash { hash: 0b100, mask: 0b100 }, 8);
    let expected: HashSet<u32> = vec![0b100, 0b101, 0b110, 0b111].into_iter().collect();
    let results: HashSet<u32> = collect_ids(iter);
    assert_eq!(expected, results);
}

// with k unknown bits in the relevant section, exactly 2^k ids come out
#[test]
fn iter_counts_powers_of_two() {
    let mut iter = PageIdIter::new(&PartialHash { hash: 0, mask: 0 }, 8);
    let mut n = 0;
    while iter.next().is_some() {
        n += 1;
    }
    assert_eq!(n, 8);

    let mut iter = PageIdIter::new(&PartialHash { hash: 0, mask: 0b11 }, 8);
    let mut n = 0;
    while iter.next().is_some() {
        n += 1;
    }
    assert_eq!(n, 2);
}

// the depth-staged enumerator: ids below 2^depth agreeing on known low bits
#[test]
fn ids_within_depth() {
    let h = MAHash { hash: 0b10, mask: 0b10 };
    let mut it = h.ids_within(2);
    let mut got = Vec::new();
    while let Some(id) = it.next() {
        got.push(id);
    }
    assert_eq!(got, vec![0b10, 0b11]);

    let all = MAHash { hash: 0, mask: 0 };
    let mut it = all.ids_within(3);
    let mut n = 0;
    while it.next().is_some() {
        n += 1;
    }
    assert_eq!(n, 8);
}
