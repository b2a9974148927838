//! The relation: persistent metadata, the linear-hash bucket map, insert,
//! grow (bucket split) and partial-match select.

use vstd::prelude::*;

verus! {

use crate::bytes::split_bytes;
use crate::choice_vec::{ChoiceEntry, ChoiceVec};
use crate::page::{pages_records, Page};
use crate::query::Query;
use crate::tuple::{ma_hash_of, Tuple};
use crate::util::get_depth_and_num_pages;
use vstd::arithmetic::power2::pow2;
use vstd::multiset::Multiset;
use vstd::seq_lib::lemma_multiset_commutative;
use vstd::string::StringExecFns;
use vstd::utf8::valid_utf8;

/// Whether an open relation may be modified.
#[derive(Clone, Copy, PartialEq, Eq, Structural)]
pub enum OpenMode {
    Reading,
    Writing,
}

/// Why a relation operation failed.
#[derive(Debug, PartialEq, Eq)]
pub enum RelError {
    /// A relation cannot have zero attributes.
    NoAttributes,
    /// The serialized tuple does not fit in a page.
    TupleTooLarge,
    /// A file image does not describe a well-formed relation.
    CorruptImage,
    /// The overflow file would need more page ids than fit beside the
    /// chain terminator.
    TooManyOverflowPages,
}

/// The full hash of a stored record under a choice vector.
pub open spec fn rec_hash(rec: Seq<u8>, cv: Seq<ChoiceEntry>) -> u32 {
    ma_hash_of(split_bytes(rec, 44), cv)
}

/// The bucket id that a full hash addresses: the low `depth` bits, or the
/// low `depth + 1` bits when the former falls below the split pointer.
pub open spec fn address_of(h: u32, depth: nat, sp: int) -> int {
    if ((h as nat) % pow2(depth)) < sp {
        ((h as nat) % pow2(depth + 1)) as int
    } else {
        ((h as nat) % pow2(depth)) as int
    }
}

/// A stored record fit for a relation of `num_attrs` attributes: NUL-free
/// valid text with exactly `num_attrs` comma-separated values, small enough
/// that it can always be re-inserted during a split.
pub open spec fn record_ok(rec: Seq<u8>, num_attrs: u32) -> bool {
    &&& split_bytes(rec, 44).len() == num_attrs
    &&& valid_utf8(rec)
    &&& !rec.contains(0)
    &&& rec.len() < 1012
}

/// Every page of a bucket is well formed, and there is at least the main
/// page.
pub open spec fn bucket_pages_ok(pages: Seq<Page>) -> bool {
    &&& pages.len() >= 1
    &&& forall|p: int| 0 <= p < pages.len() ==> (#[trigger] pages[p]).wf()
}

/// The multiset of records stored across a sequence of buckets.
pub open spec fn buckets_stored(bs: Seq<Vec<Page>>) -> Multiset<Seq<u8>>
    decreases bs.len(),
{
    if bs.len() == 0 {
        Multiset::empty()
    } else {
        buckets_stored(bs.drop_last()).add(pages_records(bs.last()@).to_multiset())
    }
}

/// A single-node disk-backed relation, modelled in memory: the bucket map
/// holds every page, and codecs produce the backing files' byte images.
pub struct Relation {
    pub num_attrs: u32,
    pub depth: u8,
    pub split_pointer: u32,
    /// Number of main data pages (overflow pages not counted).
    pub num_pages: u64,
    pub num_tuples: u64,
    pub choice_vec: ChoiceVec,
    /// Bucket `b`'s main page followed by its overflow chain, in order.
    pub buckets: Vec<Vec<Page>>,
}

impl Relation {
    /// The records of bucket `b`, in storage order.
    pub open spec fn bucket_recs(self, b: int) -> Seq<Seq<u8>> {
        pages_records(self.buckets@[b]@)
    }

    /// The multiset of all stored records.
    pub open spec fn stored(self) -> Multiset<Seq<u8>> {
        buckets_stored(self.buckets@)
    }

    /// The linear-hashing invariants: the bucket count matches the depth and
    /// split pointer, every page is intact, every record is well formed and
    /// sits in the bucket its hash addresses, and the tuple count is right.
    pub open spec fn wf(self) -> bool {
        &&& self.num_attrs >= 1
        &&& self.depth <= 31
        &&& self.choice_vec.valid_for(self.num_attrs)
        &&& (self.split_pointer as nat) < pow2(self.depth as nat)
        &&& self.num_pages == pow2(self.depth as nat) + self.split_pointer
        &&& self.num_pages <= 0xffff_ffff
        &&& self.buckets@.len() == self.num_pages
        &&& (forall|b: int|
            0 <= b < self.buckets@.len() ==> bucket_pages_ok(#[trigger] self.buckets@[b]@))
        &&& (forall|b: int, rec: Seq<u8>|
            0 <= b < self.buckets@.len() && (#[trigger] self.bucket_recs(b).contains(rec))
                ==> record_ok(rec, self.num_attrs) && address_of(
                rec_hash(rec, self.choice_vec.data@),
                self.depth as nat,
                self.split_pointer as int,
            ) == b)
        &&& self.num_tuples == self.stored().len()
    }
}

/// Appending a bucket appends its records to the store.
pub proof fn lemma_buckets_stored_push(bs: Seq<Vec<Page>>, v: Vec<Page>)
    ensures
        buckets_stored(bs.push(v)) =~= buckets_stored(bs).add(pages_records(v@).to_multiset()),
{
    assert(bs.push(v).drop_last() =~= bs);
}

/// Replacing one bucket exchanges its records for the new ones.
pub proof fn lemma_buckets_stored_update(bs: Seq<Vec<Page>>, i: int, v2: Vec<Page>)
    requires
        0 <= i < bs.len(),
    ensures
        buckets_stored(bs.update(i, v2)).add(pages_records(bs[i]@).to_multiset())
            =~= buckets_stored(bs).add(pages_records(v2@).to_multiset()),
    decreases bs.len(),
{
    let u = bs.update(i, v2);
    let mi = pages_records(bs[i]@).to_multiset();
    let mv = pages_records(v2@).to_multiset();
    if i == bs.len() - 1 {
        assert(u.drop_last() =~= bs.drop_last());
        assert(u.last() == v2);
        assert(bs.last() == bs[i]);
        assert(buckets_stored(u) =~= buckets_stored(bs.drop_last()).add(mv));
        assert(buckets_stored(bs) =~= buckets_stored(bs.drop_last()).add(mi));
        assert forall|e: Seq<u8>|
            buckets_stored(u).add(mi).count(e) == buckets_stored(bs).add(mv).count(e) by {
            assert(buckets_stored(u).count(e) == buckets_stored(bs.drop_last()).count(e)
                + mv.count(e));
            assert(buckets_stored(bs).count(e) == buckets_stored(bs.drop_last()).count(e)
                + mi.count(e));
        }
        assert(buckets_stored(u).add(mi) =~= buckets_stored(bs).add(mv));
    } else {
        assert(u.drop_last() =~= bs.drop_last().update(i, v2));
        assert(u.last() == bs.last());
        assert(bs.drop_last()[i] == bs[i]);
        lemma_buckets_stored_update(bs.drop_last(), i, v2);
        let ml = pages_records(bs.last()@).to_multiset();
        assert(buckets_stored(u) =~= buckets_stored(bs.drop_last().update(i, v2)).add(ml));
        assert(buckets_stored(bs) =~= buckets_stored(bs.drop_last()).add(ml));
        assert(buckets_stored(bs.drop_last().update(i, v2)).add(mi) =~= buckets_stored(
            bs.drop_last(),
        ).add(mv));
        assert forall|e: Seq<u8>|
            buckets_stored(u).add(mi).count(e) == buckets_stored(bs).add(mv).count(e) by {
            assert(buckets_stored(u).count(e) == buckets_stored(bs.drop_last().update(i, v2)).count(
                e,
            ) + ml.count(e));
            assert(buckets_stored(bs.drop_last().update(i, v2)).add(mi).count(e)
                == buckets_stored(bs.drop_last()).add(mv).count(e));
            assert(buckets_stored(bs.drop_last().update(i, v2)).add(mi).count(e)
                == buckets_stored(bs.drop_last().update(i, v2)).count(e) + mi.count(e));
            assert(buckets_stored(bs.drop_last()).add(mv).count(e) == buckets_stored(
                bs.drop_last(),
            ).count(e) + mv.count(e));
            assert(buckets_stored(bs).count(e) == buckets_stored(bs.drop_last()).count(e)
                + ml.count(e));
        }
        assert(buckets_stored(u).add(mi) =~= buckets_stored(bs).add(mv));
    }
}

/// A record counted in the store lies in some bucket, and any bucket's
/// records are counted in the store.
pub proof fn lemma_buckets_stored_count(bs: Seq<Vec<Page>>, rec: Seq<u8>)
    ensures
        buckets_stored(bs).count(rec) > 0 ==> exists|b: int|
            0 <= b < bs.len() && pages_records(#[trigger] bs[b]@).contains(rec),
        forall|b: int|
            0 <= b < bs.len() && pages_records(#[trigger] bs[b]@).contains(rec)
                ==> buckets_stored(bs).count(rec) > 0,
    decreases bs.len(),
{
    if bs.len() > 0 {
        lemma_buckets_stored_count(bs.drop_last(), rec);
        broadcast use vstd::seq_lib::group_to_multiset_ensures;

        if buckets_stored(bs).count(rec) > 0 {
            if pages_records(bs.last()@).to_multiset().count(rec) > 0 {
                assert(pages_records(bs[bs.len() - 1]@).contains(rec));
            } else {
                assert(buckets_stored(bs.drop_last()).count(rec) > 0);
                let b = choose|b: int|
                    0 <= b < bs.drop_last().len() && pages_records(
                        #[trigger] bs.drop_last()[b]@,
                    ).contains(rec);
                assert(pages_records(bs[b]@).contains(rec));
            }
        }
        assert forall|b: int|
            0 <= b < bs.len() && pages_records(#[trigger] bs[b]@).contains(rec) implies
            buckets_stored(bs).count(rec) > 0 by {
            if b < bs.len() - 1 {
                assert(pages_records(bs.drop_last()[b]@).contains(rec));
            } else {
                assert(pages_records(bs.last()@).to_multiset().count(rec) > 0);
            }
        }
    }
}

/// Appending a page appends its records.
pub proof fn lemma_pages_records_push(pages: Seq<Page>, p: Page)
    ensures
        pages_records(pages.push(p)) =~~= pages_records(pages) + p.records(),
{
    assert(pages.push(p).drop_last() =~= pages);
}

/// A page's records are among the bucket's records.
pub proof fn lemma_pages_records_member(pages: Seq<Page>, p: int, k: int)
    requires
        0 <= p < pages.len(),
        0 <= k < pages[p].records().len(),
    ensures
        pages_records(pages).contains(pages[p].records()[k]),
    decreases pages.len(),
{
    if p == pages.len() - 1 {
        let n = pages_records(pages.drop_last()).len();
        assert(pages_records(pages)[n + k] == pages.last().records()[k]);
    } else {
        lemma_pages_records_member(pages.drop_last(), p, k);
        let r = pages.drop_last()[p].records()[k];
        let j = choose|j: int|
            0 <= j < pages_records(pages.drop_last()).len() && pages_records(pages.drop_last())[j]
                == r;
        assert(pages_records(pages)[j] == r);
    }
}

/// Conversely, a bucket record lies in some page.
pub proof fn lemma_pages_records_origin(pages: Seq<Page>, k: int)
    requires
        0 <= k < pages_records(pages).len(),
    ensures
        exists|p: int|
            0 <= p < pages.len() && (#[trigger] pages[p].records()).contains(
                pages_records(pages)[k],
            ),
    decreases pages.len(),
{
    if pages.len() > 0 {
        let pre = pages_records(pages.drop_last());
        if k < pre.len() {
            lemma_pages_records_origin(pages.drop_last(), k);
            let p = choose|p: int|
                0 <= p < pages.drop_last().len() && (#[trigger] pages.drop_last()[p].records())
                    .contains(pre[k]);
            assert(pages[p].records().contains(pages_records(pages)[k]));
        } else {
            let p = pages.len() - 1;
            assert(pages_records(pages)[k] == pages.last().records()[k - pre.len()]);
            assert(pages[p].records().contains(pages_records(pages)[k]));
        }
    }
}

/// Updating page `i` so that it gains one record inserts that record into
/// the bucket's multiset.
pub proof fn lemma_pages_records_update(pages: Seq<Page>, i: int, p2: Page, rec: Seq<u8>)
    requires
        0 <= i < pages.len(),
        p2.records() =~~= pages[i].records().push(rec),
    ensures
        pages_records(pages.update(i, p2)).to_multiset() =~= pages_records(
            pages,
        ).to_multiset().insert(rec),
    decreases pages.len(),
{
    broadcast use vstd::seq_lib::group_to_multiset_ensures;

    if i == pages.len() - 1 {
        assert(pages.update(i, p2).drop_last() =~= pages.drop_last());
        assert(pages.update(i, p2).last() == p2);
        assert(pages.last() == pages[i]);
        assert(pages_records(pages.update(i, p2)) =~~= pages_records(pages.drop_last()) + (
        pages[i].records().push(rec)));
        assert(pages_records(pages.drop_last()) + (pages[i].records().push(rec)) =~~= (
        pages_records(pages.drop_last()) + pages[i].records()).push(rec));
        assert(pages_records(pages.update(i, p2)) =~~= pages_records(pages).push(rec));
    } else {
        assert(pages.update(i, p2).drop_last() =~= pages.drop_last().update(i, p2));
        assert(pages.update(i, p2).last() == pages.last());
        assert(pages.drop_last()[i] == pages[i]);
        lemma_pages_records_update(pages.drop_last(), i, p2, rec);
        let a = pages_records(pages.drop_last().update(i, p2));
        let a0 = pages_records(pages.drop_last());
        let b = pages.last().records();
        lemma_multiset_commutative(a, b);
        lemma_multiset_commutative(a0, b);
        assert(pages_records(pages.update(i, p2)) =~~= a + b);
        assert(pages_records(pages) =~~= a0 + b);
        assert((a + b).to_multiset() =~= a.to_multiset().add(b.to_multiset()));
        assert((a0 + b).to_multiset() =~= a0.to_multiset().add(b.to_multiset()));
        assert(a.to_multiset().add(b.to_multiset()) =~= a0.to_multiset().insert(rec).add(
            b.to_multiset(),
        ));
    }
}

/// Store a serialized record in the first page of the bucket with room,
/// appending a fresh overflow page when none has any.
fn add_record_to_bucket(pages: &mut Vec<Page>, rec: &[u8])
    requires
        bucket_pages_ok(old(pages)@),
        crate::page::wf_record(rec@),
        rec@.len() <= 1012,
    ensures
        bucket_pages_ok(final (pages)@),
        pages_records(final (pages)@).to_multiset() =~= pages_records(
            old(pages)@,
        ).to_multiset().insert(rec@.drop_last()),
        forall|x: Seq<u8>|
            pages_records(final (pages)@).contains(x) ==> pages_records(old(pages)@).contains(x)
                || x == rec@.drop_last(),
{
    broadcast use vstd::seq_lib::group_to_multiset_ensures;

    let len = rec.len();
    let mut i: usize = 0;
    while i < pages.len()
        invariant
            bucket_pages_ok(pages@),
            pages@ == old(pages)@,
            crate::page::wf_record(rec@),
            rec@.len() <= 1012,
            len == rec@.len(),
            0 <= i <= pages@.len(),
        decreases pages@.len() - i,
    {
        if pages[i].free_space() >= len {
            let ghost before = pages@;
            let mut p = pages.remove(i);
            proof {
                assert(p == old(pages)@[i as int]);
                assert(p.wf());
                assert(rec@.len() <= 1012 - p.free);
            }
            let added = p.add_tuple(rec);
            pages.insert(i, p);
            proof {
                assert(added);
                assert(pages@ =~= before.update(i as int, p));
                lemma_pages_records_update(before, i as int, p, rec@.drop_last());
                assert forall|x: Seq<u8>|
                    pages_records(pages@).contains(x) implies pages_records(before).contains(x)
                    || x == rec@.drop_last() by {
                    pages_records(pages@).to_multiset_ensures();
                    pages_records(before).to_multiset_ensures();
                    assert(pages_records(pages@).to_multiset().count(x) > 0);
                }
                assert forall|q: int| 0 <= q < pages@.len() implies (
                #[trigger] pages@[q]).wf() by {
                    if q != i {
                        assert(pages@[q] == before[q]);
                    }
                }
            }
            return ;
        }
        i = i + 1;
    }
    let mut p = Page::empty();
    let added = p.add_tuple(rec);
    let ghost before = pages@;
    pages.push(p);
    proof {
        assert(added);
        lemma_pages_records_push(before, p);
        assert(p.records() =~~= seq![rec@.drop_last()]);
        assert(pages_records(pages@) =~~= pages_records(before).push(rec@.drop_last()));
        assert forall|x: Seq<u8>|
            pages_records(pages@).contains(x) implies pages_records(before).contains(x) || x
            == rec@.drop_last() by {
            pages_records(pages@).to_multiset_ensures();
            pages_records(before).to_multiset_ensures();
            assert(pages_records(pages@).to_multiset().count(x) > 0);
        }
    }
}

/// The file that holds a relation's metadata, data pages or overflow pages:
/// the relation's name followed by a dot and the extension.
pub fn file_name(name: &str, extension: &str) -> (r: String)
    ensures
        r@ == name@ + "."@ + extension@,
{
    let mut s = String::from_str(name);
    s.append(".");
    s.append(extension);
    s
}

pub fn info_file_name(name: &str) -> (r: String)
    ensures
        r@ == name@ + "."@ + "info"@,
{
    file_name(name, "info")
}

pub fn data_file_name(name: &str) -> (r: String)
    ensures
        r@ == name@ + "."@ + "data"@,
{
    file_name(name, "data")
}

pub fn ovflow_file_name(name: &str) -> (r: String)
    ensures
        r@ == name@ + "."@ + "ovflow"@,
{
    file_name(name, "ovflow")
}

impl Relation {
    /// Create a fresh relation: the estimated page count is rounded up to a
    /// power of two, that many empty buckets are laid out, and the split
    /// pointer starts at zero.
    pub fn new(num_attrs: u32, est_num_pages: u64, choice_vec: ChoiceVec) -> (r: Result<
        Relation,
        RelError,
    >)
        requires
            est_num_pages <= 0x8000_0000,
            num_attrs > 0 ==> choice_vec.valid_for(num_attrs),
        ensures
            num_attrs == 0 <==> r == Err::<Relation, RelError>(RelError::NoAttributes),
            num_attrs > 0 ==> r is Ok,
            r is Ok ==> {
                let rel = r->Ok_0;
                &&& rel.wf()
                &&& rel.num_attrs == num_attrs
                &&& rel.split_pointer == 0
                &&& rel.num_tuples == 0
                &&& rel.num_pages == pow2(rel.depth as nat)
                &&& rel.num_pages >= est_num_pages
                &&& rel.num_pages >= 1
                &&& (est_num_pages >= 2 ==> pow2((rel.depth - 1) as nat) < est_num_pages)
                &&& (est_num_pages <= 1 ==> rel.depth == 0)
                &&& rel.choice_vec == choice_vec
                &&& rel.stored() =~= Multiset::<Seq<u8>>::empty()
                &&& forall|b: int|
                    0 <= b < rel.buckets@.len() ==> (#[trigger] rel.buckets@[b]@).len() == 1
                        && rel.buckets@[b]@[0].records() =~~= Seq::<Seq<u8>>::empty()
            },
    {
        if num_attrs == 0 {
            return Err(RelError::NoAttributes);
        }
        let (depth, num_pages) = get_depth_and_num_pages(est_num_pages);
        let mut buckets: Vec<Vec<Page>> = Vec::new();
        let mut b: u64 = 0;
        while b < num_pages
            invariant
                0 <= b <= num_pages,
                buckets@.len() == b,
                forall|i: int| 0 <= i < b ==> bucket_pages_ok(#[trigger] buckets@[i]@),
                forall|i: int|
                    0 <= i < b ==> (#[trigger] buckets@[i]@).len() == 1 && buckets@[i]@[0].records()
                        =~~= Seq::<Seq<u8>>::empty(),
                forall|i: int|
                    0 <= i < b ==> pages_records(#[trigger] buckets@[i]@) =~~= Seq::<
                        Seq<u8>,
                    >::empty(),
                buckets_stored(buckets@) =~= Multiset::<Seq<u8>>::empty(),
            decreases num_pages - b,
        {
            let mut pages: Vec<Page> = Vec::new();
            pages.push(Page::empty());
            let ghost before = buckets@;
            proof {
                assert(pages@.drop_last() =~= Seq::<Page>::empty());
                assert(pages_records(pages@.drop_last()) =~~= Seq::<Seq<u8>>::empty());
                assert(pages@.last() == pages@[0]);
                assert(pages_records(pages@) =~~= pages@[0].records());
                assert(pages_records(pages@) =~~= Seq::<Seq<u8>>::empty());
                broadcast use vstd::seq_lib::group_to_multiset_ensures;

            }
            buckets.push(pages);
            proof {
                lemma_buckets_stored_push(before, pages);
                assert(pages_records(pages@).to_multiset() =~= Multiset::<Seq<u8>>::empty());
            }
            b = b + 1;
        }
        let rel = Relation {
            num_attrs,
            depth,
            split_pointer: 0,
            num_pages,
            num_tuples: 0,
            choice_vec,
            buckets,
        };
        proof {
            vstd::arithmetic::power2::lemma2_to64();
            assert(rel.depth <= 31) by {
                assert(pow2(31) == 0x80000000);
                if est_num_pages >= 2 && rel.depth >= 32 {
                    if (rel.depth - 1) as nat > 31 {
                        vstd::arithmetic::power2::lemma_pow2_strictly_increases(
                            31,
                            (rel.depth - 1) as nat,
                        );
                    }
                }
            }
            assert(rel.num_pages <= 0xffff_ffff);
            broadcast use vstd::seq_lib::group_to_multiset_ensures;

            assert(rel.stored().len() == 0);
            assert forall|bb: int, rec: Seq<u8>|
                0 <= bb < rel.buckets@.len() && (#[trigger] rel.bucket_recs(bb).contains(rec))
                    implies record_ok(rec, rel.num_attrs) && address_of(
                rec_hash(rec, rel.choice_vec.data@),
                rel.depth as nat,
                rel.split_pointer as int,
            ) == bb by {
                assert(rel.bucket_recs(bb).len() == 0);
            }
        }
        Ok(rel)
    }

    /// The tuple count at which the relation grows next.
    pub open spec fn spec_resize_threshold(self) -> int {
        (1024int / (10 * self.num_attrs as int)) * self.num_pages
    }

    /// Whether an insert on this relation splits a bucket before placing
    /// the tuple: the threshold is hit and another page id is available.
    pub open spec fn grows_on_insert(self) -> bool {
        &&& self.num_tuples == self.spec_resize_threshold()
        &&& self.depth < 32
        &&& self.num_pages < 0xffff_ffff
    }

    /// The tuple count at which the relation grows: a mean bucket occupancy
    /// of about a tenth of a page's capacity.
    pub fn resize_threshold(&self) -> (r: u64)
        requires
            self.wf(),
        ensures
            r == self.spec_resize_threshold(),
    {
        let divisor = 10 * (self.num_attrs as u64);
        let per_page = 1024 / divisor;
        proof {
            assert(per_page <= 102) by (nonlinear_arith)
                requires
                    divisor >= 10,
                    per_page == 1024 as u64 / divisor,
            ;
            assert(per_page * self.num_pages <= 102 * 0xffff_ffffu64) by (nonlinear_arith)
                requires
                    per_page <= 102,
                    self.num_pages <= 0xffff_ffff,
            ;
        }
        per_page * self.num_pages
    }
}

/// The low `d + 1` bits of a value are its low `d` bits, with bit `d`
/// possibly set on top; reducing them modulo `2^d` recovers the low bits.
proof fn lemma_mod_pow2_split(x: nat, d: nat)
    ensures
        (x % pow2(d + 1)) == x % pow2(d) || (x % pow2(d + 1)) == x % pow2(d) + pow2(d),
        (x % pow2(d + 1)) % pow2(d) == x % pow2(d),
{
    vstd::arithmetic::power2::lemma_pow2_pos(d);
    vstd::arithmetic::power2::lemma_pow2_adds(d, 1);
    vstd::arithmetic::power2::lemma2_to64();
    assert(pow2(d + 1) == pow2(d) * 2);
    vstd::arithmetic::div_mod::lemma_breakdown(x as int, pow2(d) as int, 2);
    assert(x as int % (pow2(d) as int * 2) == pow2(d) * ((x as int / pow2(d) as int) % 2) + x as int
        % pow2(d) as int);
    vstd::arithmetic::div_mod::lemma_mod_division_less_than_divisor(
        x as int / pow2(d) as int,
        2,
    );
    let q = (x as int / pow2(d) as int) % 2;
    assert(q == 0 || q == 1);
    vstd::arithmetic::div_mod::lemma_mod_division_less_than_divisor(x as int, pow2(d) as int);
    if q == 0 {
        vstd::arithmetic::div_mod::lemma_small_mod(x % pow2(d), pow2(d));
    } else {
        vstd::arithmetic::div_mod::lemma_mod_add_multiples_vanish(
            (x % pow2(d)) as int,
            pow2(d) as int,
        );
        vstd::arithmetic::div_mod::lemma_small_mod(x % pow2(d), pow2(d));
    }
}

/// After a split, a record whose old address was a bucket other than the
/// split one is still addressed to that bucket.
proof fn lemma_addr_other(h: u32, d: nat, sp: int, b: int, d2: nat, sp2: int)
    requires
        0 <= sp < pow2(d),
        address_of(h, d, sp) == b,
        b != sp,
        (sp + 1 < pow2(d) && d2 == d && sp2 == sp + 1) || (sp + 1 == pow2(d) && d2 == d + 1 && sp2
            == 0),
    ensures
        address_of(h, d2, sp2) == b,
{
    lemma_mod_pow2_split(h as nat, d);
    vstd::arithmetic::power2::lemma_pow2_pos(d);
    vstd::arithmetic::div_mod::lemma_mod_division_less_than_divisor(h as int, pow2(d) as int);
    let low = (h as nat) % pow2(d);
    if d2 == d {
        if low < sp {
            assert(b == (h as nat) % pow2(d + 1));
            assert(low < sp2);
        } else {
            assert(b == low);
            assert(low > sp || low == sp);
            assert(low != sp);
            assert(!(low < sp2));
        }
    } else {
        // the split pointer wrapped: every bucket is now addressed with
        // d + 1 bits
        assert(sp == pow2(d) - 1);
        if low < sp {
            assert(b == (h as nat) % pow2(d + 1));
        } else {
            assert(b == low);
            assert(low <= pow2(d) - 1);
            assert(low == sp);
            assert(false);
        }
        assert(address_of(h, d2, sp2) == (h as nat) % pow2(d + 1));
    }
}

/// After the split, a record routed to the low half is addressed to the old
/// split bucket.
proof fn lemma_addr_split(h: u32, d: nat, sp: int, d2: nat, sp2: int, target: int)
    requires
        0 <= sp < pow2(d),
        (h as nat) % pow2(d + 1) == target,
        target == sp || target == sp + pow2(d),
        (sp + 1 < pow2(d) && d2 == d && sp2 == sp + 1) || (sp + 1 == pow2(d) && d2 == d + 1 && sp2
            == 0),
    ensures
        address_of(h, d2, sp2) == target,
{
    lemma_mod_pow2_split(h as nat, d);
    vstd::arithmetic::power2::lemma_pow2_pos(d);
    let low = (h as nat) % pow2(d);
    assert(low == ((h as nat) % pow2(d + 1)) % pow2(d));
    if target == sp {
        vstd::arithmetic::div_mod::lemma_small_mod(sp as nat, pow2(d));
        assert(low == sp);
    } else {
        vstd::arithmetic::div_mod::lemma_mod_add_multiples_vanish(sp, pow2(d) as int);
        vstd::arithmetic::div_mod::lemma_small_mod(sp as nat, pow2(d));
        assert(low == sp);
    }
    if d2 == d {
        assert(low < sp2);
        assert(address_of(h, d2, sp2) == (h as nat) % pow2(d + 1));
    } else {
        assert(address_of(h, d2, sp2) == (h as nat) % pow2(d + 1));
    }
}

/// Collect the parsed tuples of a bucket, in storage order.
fn bucket_tuples(pages: &Vec<Page>) -> (r: Vec<Tuple>)
    requires
        bucket_pages_ok(pages@),
    ensures
        r@.len() == pages_records(pages@).len(),
        forall|k: int|
            0 <= k < r@.len() ==> (#[trigger] r@[k]).byte_values() == split_bytes(
                pages_records(pages@)[k],
                44,
            ),
{
    let mut out: Vec<Tuple> = Vec::new();
    let mut p: usize = 0;
    proof {
        assert(pages_records(pages@.take(0)) =~~= Seq::<Seq<u8>>::empty());
    }
    while p < pages.len()
        invariant
            bucket_pages_ok(pages@),
            0 <= p <= pages@.len(),
            out@.len() == pages_records(pages@.take(p as int)).len(),
            forall|k: int|
                0 <= k < out@.len() ==> (#[trigger] out@[k]).byte_values() == split_bytes(
                    pages_records(pages@.take(p as int))[k],
                    44,
                ),
        decreases pages@.len() - p,
    {
        let mut ts = pages[p].get_tuple_list();
        let ghost pre_out = out@;
        let ghost ts0 = ts@;
        out.append(&mut ts);
        proof {
            assert(pages@.take(p + 1).drop_last() =~= pages@.take(p as int));
            assert(pages@.take(p + 1).last() == pages@[p as int]);
            assert(pages_records(pages@.take(p + 1)) =~~= pages_records(pages@.take(p as int))
                + pages@[p as int].records());
            assert(out@ =~= pre_out + ts0);
        }
        p = p + 1;
    }
    proof {
        assert(pages@.take(pages@.len() as int) =~= pages@);
    }
    out
}

impl Relation {
    /// Split the bucket at the split pointer: its tuples are redistributed
    /// between it and a new bucket at the end of the map by bit `depth` of
    /// their hashes, and the split pointer advances (wrapping into a deeper
    /// round when it reaches the end).
    #[verifier::rlimit(60)]
    pub fn grow(&mut self)
        requires
            old(self).wf(),
            old(self).num_pages < 0xffff_ffff,
        ensures
            final (self).wf(),
            final (self).num_attrs == old(self).num_attrs,
            final (self).choice_vec == old(self).choice_vec,
            final (self).num_pages == old(self).num_pages + 1,
            final (self).num_tuples == old(self).num_tuples,
            final (self).stored() =~= old(self).stored(),
            old(self).split_pointer + 1 == pow2(old(self).depth as nat) ==> final (self).depth
                == old(self).depth + 1 && final (self).split_pointer == 0,
            old(self).split_pointer + 1 < pow2(old(self).depth as nat) ==> final (self).depth
                == old(self).depth && final (self).split_pointer == old(self).split_pointer + 1,
            final (self).buckets@.len() == old(self).buckets@.len() + 1,
            forall|b: int|
                0 <= b < old(self).buckets@.len() && b != old(self).split_pointer ==> final (
                self).buckets@[b] == old(self).buckets@[b],
    {
        broadcast use vstd::seq_lib::group_to_multiset_ensures;

        let spu = self.split_pointer as usize;
        let ghost oldr = *self;
        let ghost cv = self.choice_vec.data@;
        let ghost d = self.depth as nat;
        let ghost sp = self.split_pointer as int;
        let ghost old_records = pages_records(self.buckets@[spu as int]@);
        proof {
            assert forall|k: int| 0 <= k < old_records.len() implies record_ok(
                #[trigger] old_records[k],
                oldr.num_attrs,
            ) && (rec_hash(old_records[k], cv) as nat) % pow2(d) == sp by {
                assert(oldr.bucket_recs(spu as int).contains(old_records[k]));
                let h = rec_hash(old_records[k], cv);
                assert(address_of(h, d, sp) == spu);
                lemma_mod_pow2_split(h as nat, d);
                vstd::arithmetic::div_mod::lemma_small_mod(sp as nat, pow2(d));
                if (h as nat) % pow2(d) < sp {
                    assert(spu == (h as nat) % pow2(d + 1));
                    assert(((h as nat) % pow2(d + 1)) % pow2(d) == (h as nat) % pow2(d));
                    assert(false);
                }
            }
        }
        let mut ts = bucket_tuples(&self.buckets[spu]);
        let p_low = Page::empty();
        let p_high = Page::empty();
        let mut low_pages: Vec<Page> = Vec::new();
        low_pages.push(p_low);
        let mut high_pages: Vec<Page> = Vec::new();
        high_pages.push(p_high);
        let ghost mut i: int = 0;
        proof {
            assert(low_pages@ =~= seq![p_low]);
            assert(high_pages@ =~= seq![p_high]);
            assert(low_pages@.drop_last() =~= Seq::<Page>::empty());
            assert(high_pages@.drop_last() =~= Seq::<Page>::empty());
            assert(low_pages@.last() == p_low);
            assert(high_pages@.last() == p_high);
            assert(pages_records(low_pages@.drop_last()) =~~= Seq::<Seq<u8>>::empty());
            assert(pages_records(high_pages@.drop_last()) =~~= Seq::<Seq<u8>>::empty());
            assert(pages_records(low_pages@) =~~= Seq::<Seq<u8>>::empty());
            assert(pages_records(high_pages@) =~~= Seq::<Seq<u8>>::empty());
            assert(old_records.take(0) =~= Seq::<Seq<u8>>::empty());
            assert(pages_records(low_pages@).to_multiset().add(
                pages_records(high_pages@).to_multiset(),
            ) =~= old_records.take(0).to_multiset());
        }
        while ts.len() > 0
            invariant
                *self == oldr,
                oldr.wf(),
                cv == oldr.choice_vec.data@,
                d == oldr.depth as nat,
                sp == oldr.split_pointer as int,
                spu == oldr.split_pointer,
                0 <= i <= old_records.len(),
                ts@.len() == old_records.len() - i,
                forall|k: int|
                    0 <= k < ts@.len() ==> (#[trigger] ts@[k]).byte_values() == split_bytes(
                        old_records[i + k],
                        44,
                    ),
                forall|k: int|
                    0 <= k < old_records.len() ==> record_ok(
                        #[trigger] old_records[k],
                        oldr.num_attrs,
                    ) && (rec_hash(old_records[k], cv) as nat) % pow2(d) == sp,
                bucket_pages_ok(low_pages@),
                bucket_pages_ok(high_pages@),
                pages_records(low_pages@).to_multiset().add(
                    pages_records(high_pages@).to_multiset(),
                ) =~= old_records.take(i).to_multiset(),
                forall|rec: Seq<u8>|
                    pages_records(low_pages@).contains(rec) ==> old_records.contains(rec) && (
                    rec_hash(rec, cv) as nat) % pow2(d + 1) == sp,
                forall|rec: Seq<u8>|
                    pages_records(high_pages@).contains(rec) ==> old_records.contains(rec) && (
                    rec_hash(rec, cv) as nat) % pow2(d + 1) == sp + pow2(d),
            decreases ts@.len(),
        {
            let t = ts.remove(0);
            let ghost orec = old_records[i];
            proof {
                assert(t.byte_values() == split_bytes(orec, 44));
                assert(old_records.contains(orec));
                assert(record_ok(orec, oldr.num_attrs));
                assert(t.values@.len() == t.byte_values().len());
            }
            let fh = t.hash(&self.choice_vec);
            let rec = t.serialise();
            proof {
                crate::bytes::lemma_join_split(orec, 44);
                assert(rec@.drop_last() =~= orec);
                assert(forall|j: int| 0 <= j < rec@.len() - 1 ==> rec@[j] == orec[j]);
                assert(crate::page::wf_record(rec@)) by {
                    if exists|j: int| 0 <= j < rec@.len() - 1 && rec@[j] == 0 {
                        let j = choose|j: int| 0 <= j < rec@.len() - 1 && rec@[j] == 0;
                        assert(orec.contains(0u8));
                    }
                }
                assert(fh == rec_hash(orec, cv));
            }
            let route_low = crate::util::lower_bits(self.depth + 1, fh) == self.split_pointer;
            let ghost lp0 = low_pages@;
            let ghost hp0 = high_pages@;
            if route_low {
                add_record_to_bucket(&mut low_pages, rec.as_slice());
            } else {
                proof {
                    lemma_mod_pow2_split(fh as nat, d);
                }
                add_record_to_bucket(&mut high_pages, rec.as_slice());
            }
            proof {
                assert(old_records.take(i + 1) =~= old_records.take(i).push(orec));
                old_records.take(i).to_multiset_ensures();
                assert(old_records.take(i).push(orec).to_multiset() =~= old_records.take(
                    i,
                ).to_multiset().insert(orec));
                assert(old_records.take(i + 1).to_multiset() =~= old_records.take(
                    i,
                ).to_multiset().insert(orec));
                if route_low {
                    assert(pages_records(low_pages@).to_multiset() =~= pages_records(
                        lp0,
                    ).to_multiset().insert(orec));
                    assert forall|e: Seq<u8>|
                        pages_records(low_pages@).to_multiset().add(
                            pages_records(high_pages@).to_multiset(),
                        ).count(e) == old_records.take(i + 1).to_multiset().count(e) by {}
                    assert((rec_hash(orec, cv) as nat) % pow2(d + 1) == sp);
                    assert forall|rec2: Seq<u8>|
                        pages_records(low_pages@).contains(rec2) implies old_records.contains(
                        rec2,
                    ) && (rec_hash(rec2, cv) as nat) % pow2(d + 1) == sp by {
                        if rec2 != orec {
                            assert(pages_records(lp0).contains(rec2));
                        }
                    }
                } else {
                    assert(pages_records(high_pages@).to_multiset() =~= pages_records(
                        hp0,
                    ).to_multiset().insert(orec));
                    assert forall|e: Seq<u8>|
                        pages_records(low_pages@).to_multiset().add(
                            pages_records(high_pages@).to_multiset(),
                        ).count(e) == old_records.take(i + 1).to_multiset().count(e) by {}
                    assert((rec_hash(orec, cv) as nat) % pow2(d) == sp);
                    assert((rec_hash(orec, cv) as nat) % pow2(d + 1) == sp + pow2(d));
                    assert forall|rec2: Seq<u8>|
                        pages_records(high_pages@).contains(rec2) implies old_records.contains(
                        rec2,
                    ) && (rec_hash(rec2, cv) as nat) % pow2(d + 1) == sp + pow2(d) by {
                        if rec2 != orec {
                            assert(pages_records(hp0).contains(rec2));
                        }
                    }
                }
                i = i + 1;
            }
        }
        proof {
            assert(old_records.take(old_records.len() as int) =~= old_records);
        }
        let ghost pre = *self;
        let removed = self.buckets.remove(spu);
        self.buckets.insert(spu, low_pages);
        self.buckets.push(high_pages);
        self.num_pages = self.num_pages + 1;
        let ghost np_old = pre.num_pages as int;
        proof {
            assert(self.buckets@ =~= pre.buckets@.update(spu as int, low_pages).push(
                high_pages,
            ));
        }
        proof {
            vstd::bits::lemma_u32_pow2_no_overflow(d);
            vstd::bits::lemma_u32_shl_is_mul(1u32, self.depth as u32);
        }
        let at_wrap = self.split_pointer == (1u32 << (self.depth as u32)) - 1;
        if at_wrap {
            self.split_pointer = 0;
            self.depth = self.depth + 1;
        } else {
            self.split_pointer = self.split_pointer + 1;
        }
        proof {
            let d2 = self.depth as nat;
            let sp2 = self.split_pointer as int;
            vstd::arithmetic::power2::lemma_pow2_adds(d, 1);
            vstd::arithmetic::power2::lemma2_to64();
            assert((sp + 1 < pow2(d) && d2 == d && sp2 == sp + 1) || (sp + 1 == pow2(d) && d2 == d
                + 1 && sp2 == 0));
            assert(self.depth <= 31) by {
                if d2 == d + 1 {
                    assert(self.num_pages == pow2(d2));
                    assert(self.num_pages <= 0xffff_ffff);
                    if d2 > 31 {
                        vstd::arithmetic::power2::lemma_pow2_strictly_increases(31, d2);
                        assert(pow2(31) == 0x80000000);
                    }
                }
            }
            // the stored multiset is unchanged
            lemma_buckets_stored_update(pre.buckets@, spu as int, low_pages);
            lemma_buckets_stored_push(pre.buckets@.update(spu as int, low_pages), high_pages);
            assert forall|e: Seq<u8>|
                buckets_stored(self.buckets@).count(e) == buckets_stored(pre.buckets@).count(
                    e,
                ) by {
                assert(buckets_stored(pre.buckets@.update(spu as int, low_pages)).add(
                    pages_records(pre.buckets@[spu as int]@).to_multiset(),
                ).count(e) == buckets_stored(pre.buckets@).add(
                    pages_records(low_pages@).to_multiset(),
                ).count(e));
                assert(pages_records(low_pages@).to_multiset().add(
                    pages_records(high_pages@).to_multiset(),
                ).count(e) == old_records.to_multiset().count(e));
            }
            assert(self.stored() =~= pre.stored());
            assert(self.num_tuples == self.stored().len());
            // placement
            assert forall|b: int, rec2: Seq<u8>|
                0 <= b < self.buckets@.len() && (#[trigger] self.bucket_recs(b).contains(
                    rec2,
                )) implies record_ok(rec2, self.num_attrs) && address_of(
                rec_hash(rec2, cv),
                d2,
                sp2,
            ) == b by {
                let h = rec_hash(rec2, cv);
                if b == spu as int {
                    assert(pages_records(low_pages@).contains(rec2));
                    assert(old_records.contains(rec2));
                    assert(oldr.bucket_recs(spu as int).contains(rec2));
                    lemma_addr_split(h, d, sp, d2, sp2, sp);
                } else if b == np_old {
                    assert(self.buckets@[b] == high_pages);
                    assert(pages_records(high_pages@).contains(rec2));
                    assert(old_records.contains(rec2));
                    assert(oldr.bucket_recs(spu as int).contains(rec2));
                    lemma_addr_split(h, d, sp, d2, sp2, sp + pow2(d));
                } else {
                    assert(self.buckets@[b] == pre.buckets@[b]);
                    assert(oldr.bucket_recs(b).contains(rec2));
                    assert(address_of(h, d, sp) == b);
                    lemma_addr_other(h, d, sp, b, d2, sp2);
                }
            }
            assert forall|b: int| 0 <= b < self.buckets@.len() implies bucket_pages_ok(
                #[trigger] self.buckets@[b]@,
            ) by {
                if b != spu as int && b != np_old {
                    assert(self.buckets@[b] == pre.buckets@[b]);
                    assert(bucket_pages_ok(oldr.buckets@[b]@));
                }
            }
            assert forall|b: int|
                0 <= b < oldr.buckets@.len() && b != oldr.split_pointer implies self.buckets@[b]
                == oldr.buckets@[b] by {
                assert(self.buckets@[b] == pre.buckets@[b]);
            }
        }
    }

    /// Insert a tuple. The tuple's values must be free of commas and NUL
    /// bytes and their number must equal the relation's attribute count;
    /// a tuple whose serialized form exceeds a page's data region is
    /// rejected and nothing is stored. A record of exactly 1012 bytes (1011
    /// content bytes plus the NUL terminator) still fits an empty page and
    /// is accepted, matching the page's capacity rule.
    pub fn insert(&mut self, t: Tuple) -> (r: Result<(), RelError>)
        requires
            old(self).wf(),
            t.values@.len() == old(self).num_attrs,
            forall|i: int|
                0 <= i < t.byte_values().len() ==> !(#[trigger] t.byte_values()[i]).contains(44)
                    && !t.byte_values()[i].contains(0),
            old(self).num_tuples < 0xffff_ffff_ffff_ffff,
        ensures
            final (self).wf(),
            final (self).num_attrs == old(self).num_attrs,
            final (self).choice_vec == old(self).choice_vec,
            t.spec_content().len() >= 1012 ==> r == Err::<(), RelError>(RelError::TupleTooLarge)
                && final (self).num_tuples == old(self).num_tuples && final (self).stored()
                =~= old(self).stored(),
            t.spec_content().len() < 1012 ==> r == Ok::<(), RelError>(()) && final (
            self).num_tuples == old(self).num_tuples + 1 && final (self).stored() =~= old(
                self,
            ).stored().insert(t.spec_content()),
            old(self).grows_on_insert() ==> final (self).num_pages == old(self).num_pages + 1 && (
            old(self).split_pointer + 1 == pow2(old(self).depth as nat) ==> final (self).depth
                == old(self).depth + 1 && final (self).split_pointer == 0) && (old(
                self,
            ).split_pointer + 1 < pow2(old(self).depth as nat) ==> final (self).depth == old(
                self,
            ).depth && final (self).split_pointer == old(self).split_pointer + 1),
            !old(self).grows_on_insert() ==> final (self).num_pages == old(self).num_pages
                && final (self).depth == old(self).depth && final (self).split_pointer == old(
                self,
            ).split_pointer,
    {
        broadcast use vstd::seq_lib::group_to_multiset_ensures;

        let threshold = self.resize_threshold();
        if self.num_tuples == threshold && self.depth < 32 && self.num_pages < 0xffff_ffff {
            self.grow();
        }
        let full_hash = t.hash(&self.choice_vec);
        let rec = t.serialise();
        proof {
            crate::bytes::lemma_split_join(t.byte_values(), 44);
            crate::bytes::lemma_join_bytes_free_of(t.byte_values(), 44, 0);
            assert forall|i: int|
                0 <= i < t.byte_values().len() implies valid_utf8(
                #[trigger] t.byte_values()[i],
            ) by {
                vstd::utf8::encode_utf8_valid_utf8(t.values@[i]@);
            }
            crate::bytes::lemma_join_bytes_valid(t.byte_values(), 44);
            assert(rec@.drop_last() =~= t.spec_content());
            assert(forall|i: int|
                0 <= i < rec@.len() - 1 ==> rec@[i] == t.spec_content()[i]);
            assert(crate::page::wf_record(rec@)) by {
                if exists|i: int| 0 <= i < rec@.len() - 1 && rec@[i] == 0 {
                    let i = choose|i: int| 0 <= i < rec@.len() - 1 && rec@[i] == 0;
                    assert(t.spec_content().contains(0u8));
                }
            }
        }
        if rec.len() > crate::page::PAGE_DATA_SIZE {
            return Err(RelError::TupleTooLarge);
        }
        let ghost content = t.spec_content();
        let low = crate::util::lower_bits(self.depth, full_hash);
        let page_id: u32 = if low < self.split_pointer {
            crate::util::lower_bits(self.depth + 1, full_hash)
        } else {
            low
        };
        proof {
            lemma_mod_pow2_split(full_hash as nat, self.depth as nat);
            assert(page_id == address_of(
                full_hash,
                self.depth as nat,
                self.split_pointer as int,
            ));
            assert(page_id < self.num_pages);
            assert(full_hash == rec_hash(content, self.choice_vec.data@));
            assert(record_ok(content, self.num_attrs));
        }
        let bi = page_id as usize;
        let ghost oldbs = self.buckets@;
        let ghost mid = *self;
        add_record_to_bucket(&mut self.buckets[bi], rec.as_slice());
        self.num_tuples = self.num_tuples + 1;
        proof {
            let newb = self.buckets@[bi as int];
            assert(self.buckets@ =~= oldbs.update(bi as int, newb));
            lemma_buckets_stored_update(oldbs, bi as int, newb);
            assert forall|e: Seq<u8>|
                buckets_stored(self.buckets@).count(e) == buckets_stored(oldbs).insert(
                    content,
                ).count(e) by {
                assert(buckets_stored(self.buckets@).add(
                    pages_records(oldbs[bi as int]@).to_multiset(),
                ).count(e) == buckets_stored(oldbs).add(
                    pages_records(newb@).to_multiset(),
                ).count(e));
            }
            assert(self.stored() =~= mid.stored().insert(content));
            assert forall|b: int, rec2: Seq<u8>|
                0 <= b < self.buckets@.len() && (#[trigger] self.bucket_recs(b).contains(
                    rec2,
                )) implies record_ok(rec2, self.num_attrs) && address_of(
                rec_hash(rec2, self.choice_vec.data@),
                self.depth as nat,
                self.split_pointer as int,
            ) == b by {
                if b == bi as int {
                    assert(pages_records(newb@).contains(rec2));
                    if rec2 != content {
                        assert(pages_records(oldbs[bi as int]@).contains(rec2));
                        assert(mid.bucket_recs(b).contains(rec2));
                    }
                } else {
                    assert(self.buckets@[b] == oldbs[b]);
                    assert(mid.bucket_recs(b).contains(rec2));
                }
            }
            assert(self.num_tuples == self.stored().len());
        }
        Ok(())
    }
}

/// The select output's length is forced: there are a partial hash agreeing
/// with the query bit for bit and a sorted enumeration of exactly the
/// consistent buckets, and the output has one tuple per matching record of
/// those buckets.
pub open spec fn select_ids_ok(rel: Relation, q: Query, h: u32, m: u32, ids: Seq<u32>) -> bool {
    &&& (forall|i: int|
        0 <= i < 32 ==> #[trigger] crate::partial_hash::from_query_bit(
            q,
            rel.choice_vec,
            h,
            m,
            i,
        ))
    &&& (forall|k1: int, k2: int|
        #![trigger ids[k1], ids[k2]]
        0 <= k1 < k2 < ids.len() ==> ids[k1] < ids[k2])
    &&& (forall|k: int|
        0 <= k < ids.len() ==> crate::partial_hash::id_consistent(
            h,
            m,
            rel.num_pages as u32,
            #[trigger] ids[k],
        ))
    &&& (forall|b: u32|
        crate::partial_hash::id_consistent(h, m, rel.num_pages as u32, b) ==> ids.contains(b))
}

pub open spec fn select_len_exact(rel: Relation, q: Query, tuples: Seq<Tuple>) -> bool {
    exists|h: u32, m: u32, ids: Seq<u32>|
        #[trigger] select_ids_ok(rel, q, h, m, ids) && tuples.len() == sel_len_sum(
            rel.buckets@,
            ids,
            q.byte_matches(),
        )
}

/// The tuple is the parse of some stored record that matches the query.
pub open spec fn tuple_is_stored(rel: Relation, qb: Seq<Option<Seq<u8>>>, t: Tuple) -> bool {
    exists|rec: Seq<u8>|
        rel.stored().count(rec) > 0 && crate::page::rec_matches(rec, qb) && t.byte_values()
            == split_bytes(rec, 44)
}

/// Some yielded tuple is the parse of the record.
pub open spec fn yields_tuple_for(tuples: Seq<Tuple>, rec: Seq<u8>) -> bool {
    exists|k: int| 0 <= k < tuples.len() && (#[trigger] tuples[k]).byte_values() == split_bytes(rec, 44)
}

proof fn lemma_yields_append(a: Seq<Tuple>, b: Seq<Tuple>, rec: Seq<u8>)
    requires
        yields_tuple_for(a, rec),
    ensures
        yields_tuple_for(a + b, rec),
{
    let k = choose|k: int| 0 <= k < a.len() && (#[trigger] a[k]).byte_values() == split_bytes(rec, 44);
    assert((a + b)[k] == a[k]);
}

/// A single-pass cursor over the tuples a select produced, yielding them
/// from the front.
pub struct SelectIter {
    pub tuples: Vec<Tuple>,
}

impl SelectIter {
    /// Yield the next matching tuple, if any remain.
    pub fn next(&mut self) -> (r: Option<Tuple>)
        ensures
            old(self).tuples@.len() > 0 ==> r == Some(old(self).tuples@[0]) && final (
            self).tuples@ == old(self).tuples@.drop_first(),
            old(self).tuples@.len() == 0 ==> r is None && *final (self) == *old(self),
    {
        if self.tuples.len() > 0 {
            let t = self.tuples.remove(0);
            proof {
                assert(self.tuples@ =~= old(self).tuples@.drop_first());
            }
            Some(t)
        } else {
            None
        }
    }

    /// How many tuples remain.
    pub fn count(self) -> (r: usize)
        ensures
            r == self.tuples@.len(),
    {
        self.tuples.len()
    }
}

proof fn lemma_and_bit(x: u32, y: u32, j: u32)
    by (bit_vector)
    requires
        j < 32,
    ensures
        ((y >> j) & 1 == 1 ==> ((x & y) >> j) & 1 == (x >> j) & 1),
        ((y >> j) & 1 == 0 ==> ((x & y) >> j) & 1 == 0),
{
}

proof fn lemma_consistent_bits(fh: u32, h: u32, m: u32, bu: u32, mask: u32)
    by (bit_vector)
    requires
        fh & m == h,
        bu & mask == fh & mask,
    ensures
        ((bu ^ h) & m) & mask == 0,
{
}

/// A stored record that matches a query has a full hash agreeing with the
/// query's partial hash on every known bit.
proof fn lemma_match_hash_agrees(rec: Seq<u8>, q: Query, cv: ChoiceVec, h: u32, m: u32)
    requires
        cv.data@.len() == 32,
        forall|i: int|
            0 <= i < 32 ==> (#[trigger] cv.data@[i]).1 < 32 && (cv.data@[i].0 as int)
                < q.matches@.len(),
        forall|i: int|
            0 <= i < 32 ==> #[trigger] crate::partial_hash::from_query_bit(q, cv, h, m, i),
        crate::page::rec_matches(rec, q.byte_matches()),
        split_bytes(rec, 44).len() == q.matches@.len(),
    ensures
        rec_hash(rec, cv.data@) & m == h,
{
    let fh = rec_hash(rec, cv.data@);
    crate::tuple::lemma_ma_hash_bits(split_bytes(rec, 44), cv.data@);
    assert forall|j: u32| j < 32 implies #[trigger] crate::util::bit_at(fh & m, j)
        == crate::util::bit_at(h, j) by {
        lemma_and_bit(fh, m, j);
        assert(crate::partial_hash::from_query_bit(q, cv, h, m, j as int));
        let a = cv.data@[j as int].0 as int;
        let bb = cv.data@[j as int].1 as u32;
        assert(crate::util::bit_at(fh, j) == crate::util::bit_at(
            crate::util::hash_spec(split_bytes(rec, 44)[a]),
            bb,
        ));
        match q.byte_matches()[a] {
            Some(vb) => {
                assert(vb == split_bytes(rec, 44)[a]);
            },
            None => {},
        }
    }
    crate::util::lemma_bits_eq(fh & m, h);
}

/// A sorted, duplicate-free cover of `[0, np)` is the identity sequence.
proof fn lemma_ids_identity(ids: Seq<u32>, np: int)
    requires
        0 <= np <= 0xffff_ffff,
        forall|k1: int, k2: int| 0 <= k1 < k2 < ids.len() ==> ids[k1] < ids[k2],
        forall|k: int| 0 <= k < ids.len() ==> (#[trigger] ids[k]) < np,
        forall|b: u32| b < np ==> ids.contains(b),
    ensures
        ids.len() == np,
        forall|j: int| 0 <= j < ids.len() ==> ids[j] == j,
    decreases np,
{
    if np == 0 {
        if ids.len() > 0 {
            assert(ids[0] < 0);
        }
    } else {
        assert(ids.contains((np - 1) as u32));
        let k = choose|k: int| 0 <= k < ids.len() && ids[k] == (np - 1) as u32;
        assert(k == ids.len() - 1) by {
            if k < ids.len() - 1 {
                assert(ids[ids.len() - 1] > ids[k]);
            }
        }
        let pre = ids.drop_last();
        assert forall|b: u32| b < np - 1 implies pre.contains(b) by {
            assert(ids.contains(b));
            let kk = choose|kk: int| 0 <= kk < ids.len() && ids[kk] == b;
            assert(kk != ids.len() - 1);
            assert(pre[kk] == b);
        }
        assert forall|kk: int| 0 <= kk < pre.len() implies (#[trigger] pre[kk]) < np - 1 by {
            assert(ids[kk] < ids[ids.len() - 1]);
        }
        lemma_ids_identity(pre, np - 1);
        assert forall|j: int| 0 <= j < ids.len() implies ids[j] == j by {
            if j < ids.len() - 1 {
                assert(pre[j] == ids[j]);
                assert(pre[j] == j);
            } else {
                assert(ids[j] == (np - 1) as u32);
            }
        }
    }
}

/// The total length of the matching records over a prefix of bucket ids.
pub open spec fn sel_len_sum(bs: Seq<Vec<Page>>, ids: Seq<u32>, qb: Seq<Option<Seq<u8>>>) -> int
    decreases ids.len(),
{
    if ids.len() == 0 {
        0
    } else {
        sel_len_sum(bs, ids.drop_last(), qb) + crate::page::select_records(
            pages_records(bs[ids.last() as int]@),
            qb,
        ).len()
    }
}

/// Under a wildcard query, visiting every bucket once counts every stored
/// record once.
proof fn lemma_wildcard_sum(bs: Seq<Vec<Page>>, ids: Seq<u32>, qb: Seq<Option<Seq<u8>>>)
    requires
        forall|i: int| 0 <= i < qb.len() ==> (#[trigger] qb[i]) is None,
        ids.len() <= bs.len(),
        forall|j: int| 0 <= j < ids.len() ==> ids[j] == j,
    ensures
        sel_len_sum(bs, ids, qb) == buckets_stored(bs.take(ids.len() as int)).len(),
    decreases ids.len(),
{
    broadcast use vstd::seq_lib::group_to_multiset_ensures;

    if ids.len() == 0 {
        assert(bs.take(0) =~= Seq::<Vec<Page>>::empty());
    } else {
        let n = ids.len() as int;
        assert(forall|j: int| 0 <= j < ids.drop_last().len() ==> ids.drop_last()[j] == ids[j]);
        lemma_wildcard_sum(bs, ids.drop_last(), qb);
        crate::page::lemma_select_records_wildcard(pages_records(bs[n - 1]@), qb);
        assert(bs.take(n).drop_last() =~= bs.take(n - 1));
        assert(bs.take(n).last() == bs[n - 1]);
        assert(buckets_stored(bs.take(n)) == buckets_stored(bs.take(n - 1)).add(
            pages_records(bs[n - 1]@).to_multiset(),
        ));
        pages_records(bs[n - 1]@).to_multiset_ensures();
        assert(ids.last() == n - 1);
    }
}

/// Tuples of one bucket (main page and overflow chain) matching the query,
/// in storage order.
fn bucket_select(pages: &Vec<Page>, query: &Query) -> (r: Vec<Tuple>)
    requires
        bucket_pages_ok(pages@),
        forall|k: int|
            0 <= k < pages_records(pages@).len() ==> split_bytes(
                #[trigger] pages_records(pages@)[k],
                44,
            ).len() == query.matches@.len(),
    ensures
        r@.len() == crate::page::select_records(pages_records(pages@), query.byte_matches()).len(),
        forall|k: int|
            0 <= k < r@.len() ==> (#[trigger] r@[k]).byte_values() == split_bytes(
                crate::page::select_records(pages_records(pages@), query.byte_matches())[k],
                44,
            ),
{
    let ghost qb = query.byte_matches();
    let mut out: Vec<Tuple> = Vec::new();
    let mut p: usize = 0;
    proof {
        assert(pages_records(pages@.take(0)) =~~= Seq::<Seq<u8>>::empty());
    }
    while p < pages.len()
        invariant
            bucket_pages_ok(pages@),
            qb == query.byte_matches(),
            forall|k: int|
                0 <= k < pages_records(pages@).len() ==> split_bytes(
                    #[trigger] pages_records(pages@)[k],
                    44,
                ).len() == query.matches@.len(),
            0 <= p <= pages@.len(),
            out@.len() == crate::page::select_records(pages_records(pages@.take(p as int)), qb).len(),
            forall|k: int|
                0 <= k < out@.len() ==> (#[trigger] out@[k]).byte_values() == split_bytes(
                    crate::page::select_records(pages_records(pages@.take(p as int)), qb)[k],
                    44,
                ),
        decreases pages@.len() - p,
    {
        proof {
            assert forall|k: int|
                0 <= k < pages@[p as int].records().len() implies split_bytes(
                #[trigger] pages@[p as int].records()[k],
                44,
            ).len() == query.matches@.len() by {
                lemma_pages_records_member(pages@, p as int, k);
                let rec = pages@[p as int].records()[k];
                let j = choose|j: int|
                    0 <= j < pages_records(pages@).len() && pages_records(pages@)[j] == rec;
            }
        }
        let mut ms = pages[p].get_tuples_matching(query);
        let ghost pre_out = out@;
        let ghost ms0 = ms@;
        out.append(&mut ms);
        proof {
            assert(pages@.take(p + 1).drop_last() =~= pages@.take(p as int));
            assert(pages@.take(p + 1).last() == pages@[p as int]);
            assert(pages_records(pages@.take(p + 1)) =~~= pages_records(pages@.take(p as int))
                + pages@[p as int].records());
            crate::page::lemma_select_records_concat(
                pages_records(pages@.take(p as int)),
                pages@[p as int].records(),
                qb,
            );
            assert(out@ =~= pre_out + ms0);
        }
        p = p + 1;
    }
    proof {
        assert(pages@.take(pages@.len() as int) =~= pages@);
    }
    out
}

impl Relation {
    /// Select the stored tuples matching a query: derive the query's partial
    /// hash, visit exactly the buckets it may address, and filter each
    /// visited bucket's tuples. Every yielded tuple is a stored matching
    /// record; every stored matching record is yielded; a wildcard query
    /// yields exactly `num_tuples` tuples.
    #[verifier::rlimit(60)]
    pub fn select(&self, query: &Query) -> (r: SelectIter)
        requires
            self.wf(),
            query.matches@.len() == self.num_attrs,
        ensures
            forall|k: int|
                0 <= k < r.tuples@.len() ==> tuple_is_stored(
                    *self,
                    query.byte_matches(),
                    #[trigger] r.tuples@[k],
                ),
            forall|rec: Seq<u8>|
                #[trigger] self.stored().count(rec) > 0 && crate::page::rec_matches(
                    rec,
                    query.byte_matches(),
                ) ==> yields_tuple_for(r.tuples@, rec),
            select_len_exact(*self, *query, r.tuples@),
            (forall|i: int| 0 <= i < query.matches@.len() ==> (#[trigger] query.matches@[i]) is None)
                ==> r.tuples@.len() == self.num_tuples,
    {
        broadcast use vstd::seq_lib::group_to_multiset_ensures;

        let ghost qb = query.byte_matches();
        let ghost cv = self.choice_vec;
        let ph = crate::partial_hash::PartialHash::from_query(query, &self.choice_vec);
        let np32 = self.num_pages as u32;
        proof {
            vstd::arithmetic::power2::lemma_pow2_pos(self.depth as nat);
            vstd::arithmetic::power2::lemma_pow2_adds(self.depth as nat, 1);
            vstd::arithmetic::power2::lemma2_to64();
            assert(np32 == self.num_pages);
            assert(np32 >= 1);
            assert(pow2(self.depth as nat + 1) == pow2(self.depth as nat) * 2);
            crate::util::lemma_floor_log2_unique(np32 as nat, self.depth as nat);
        }
        let it = ph.matching_page_ids(np32);
        let ghost ids = it.ids@;
        let mut out: Vec<Tuple> = Vec::new();
        let mut j: usize = 0;
        while j < it.ids.len()
            invariant
                self.wf(),
                qb == query.byte_matches(),
                cv == self.choice_vec,
                query.matches@.len() == self.num_attrs,
                np32 == self.num_pages,
                ids == it.ids@,
                crate::partial_hash::page_depth(np32) == self.depth,
                crate::partial_hash::page_split(np32) == self.split_pointer,
                forall|k1: int, k2: int| 0 <= k1 < k2 < ids.len() ==> ids[k1] < ids[k2],
                forall|k: int|
                    0 <= k < ids.len() ==> crate::partial_hash::id_consistent(
                        ph.hash,
                        ph.mask,
                        np32,
                        #[trigger] ids[k],
                    ),
                forall|b: u32|
                    crate::partial_hash::id_consistent(ph.hash, ph.mask, np32, b) ==> ids.contains(
                        b,
                    ),
                ph.hash & ph.mask == ph.hash,
                forall|i: int|
                    0 <= i < 32 ==> #[trigger] crate::partial_hash::from_query_bit(
                        *query,
                        cv,
                        ph.hash,
                        ph.mask,
                        i,
                    ),
                0 <= j <= ids.len(),
                out@.len() == sel_len_sum(self.buckets@, ids.take(j as int), qb),
                forall|k: int|
                    0 <= k < out@.len() ==> tuple_is_stored(*self, qb, #[trigger] out@[k]),
                forall|rec: Seq<u8>, k: int|
                    0 <= k < j && (#[trigger] self.bucket_recs(ids[k] as int).contains(rec))
                        && crate::page::rec_matches(rec, qb) ==> yields_tuple_for(out@, rec),
            decreases ids.len() - j,
        {
            let id = it.ids[j];
            proof {
                assert(crate::partial_hash::id_consistent(ph.hash, ph.mask, np32, id));
                assert(id < self.num_pages);
                assert forall|k: int|
                    0 <= k < pages_records(self.buckets@[id as int]@).len() implies split_bytes(
                    #[trigger] pages_records(self.buckets@[id as int]@)[k],
                    44,
                ).len() == query.matches@.len() by {
                    assert(self.bucket_recs(id as int).contains(
                        pages_records(self.buckets@[id as int]@)[k],
                    ));
                }
            }
            let mut ms = bucket_select(&self.buckets[id as usize], query);
            let ghost pre_out = out@;
            let ghost ms0 = ms@;
            out.append(&mut ms);
            proof {
                let recs = pages_records(self.buckets@[id as int]@);
                let sel = crate::page::select_records(recs, qb);
                assert(out@ =~= pre_out + ms0);
                assert(ids.take(j + 1).drop_last() =~= ids.take(j as int));
                assert(ids.take(j + 1).last() == ids[j as int]);
                assert(ids[j as int] == id);
                assert(sel_len_sum(self.buckets@, ids.take(j + 1), qb) == sel_len_sum(
                    self.buckets@,
                    ids.take(j as int),
                    qb,
                ) + sel.len());
                crate::page::lemma_select_records_sound(recs, qb);
                assert forall|k: int|
                    0 <= k < out@.len() implies tuple_is_stored(
                    *self,
                    qb,
                    #[trigger] out@[k],
                ) by {
                    if k < pre_out.len() {
                        assert(out@[k] == pre_out[k]);
                        assert(tuple_is_stored(*self, qb, pre_out[k]));
                    } else {
                        let rec = sel[k - pre_out.len()];
                        assert(ms0[k - pre_out.len()].byte_values() == split_bytes(rec, 44));
                        assert(recs.contains(rec));
                        lemma_buckets_stored_count(self.buckets@, rec);
                        assert(self.stored().count(rec) > 0);
                        assert(out@[k].byte_values() == split_bytes(rec, 44));
                    }
                }
                assert forall|rec: Seq<u8>, k: int|
                    0 <= k < j + 1 && (#[trigger] self.bucket_recs(ids[k] as int).contains(rec))
                        && crate::page::rec_matches(rec, qb) implies yields_tuple_for(
                    out@,
                    rec,
                ) by {
                    if k < j {
                        assert(yields_tuple_for(pre_out, rec));
                        lemma_yields_append(pre_out, ms0, rec);
                        assert(out@ == pre_out + ms0);
                    } else {
                        assert(ids[k] == id);
                        let ri = choose|ri: int| 0 <= ri < recs.len() && recs[ri] == rec;
                        crate::page::lemma_select_records_complete(recs, qb, ri);
                        let si = choose|si: int| 0 <= si < sel.len() && sel[si] == rec;
                        assert(ms0[si].byte_values() == split_bytes(rec, 44));
                        assert((#[trigger] out@[pre_out.len() + si]).byte_values() == split_bytes(
                            rec,
                            44,
                        ));
                    }
                }
            }
            j = j + 1;
        }
        proof {
            assert(ids.take(ids.len() as int) =~= ids);
            assert(select_len_exact(*self, *query, out@)) by {
                assert(select_ids_ok(*self, *query, ph.hash, ph.mask, ids));
                assert(out@.len() == sel_len_sum(self.buckets@, ids, query.byte_matches()));
            }
            // completeness: a stored matching record's bucket is consistent
            // with the partial hash, so it was visited
            assert forall|rec: Seq<u8>|
                #[trigger] self.stored().count(rec) > 0 && crate::page::rec_matches(
                    rec,
                    qb,
                ) implies yields_tuple_for(out@, rec) by {
                lemma_buckets_stored_count(self.buckets@, rec);
                let b = choose|b: int|
                    0 <= b < self.buckets@.len() && pages_records(
                        #[trigger] self.buckets@[b]@,
                    ).contains(rec);
                assert(self.bucket_recs(b).contains(rec));
                let fh = rec_hash(rec, self.choice_vec.data@);
                assert(address_of(fh, self.depth as nat, self.split_pointer as int) == b);
                lemma_match_hash_agrees(rec, *query, cv, ph.hash, ph.mask);
                lemma_match_consistent(
                    fh,
                    ph.hash,
                    ph.mask,
                    np32,
                    b,
                    self.depth as nat,
                    self.split_pointer as int,
                );
                assert(ids.contains(b as u32));
                let k = choose|k: int| 0 <= k < ids.len() && ids[k] == b as u32;
                assert(self.bucket_recs(ids[k] as int).contains(rec));
            }
            // a wildcard query's mask is zero, so every bucket was visited
            // exactly once, yielding every stored record
            if forall|i: int|
                0 <= i < query.matches@.len() ==> (#[trigger] query.matches@[i]) is None {
                assert forall|jj: u32| jj < 32 implies #[trigger] crate::util::bit_at(
                    ph.mask,
                    jj,
                ) == 0 && crate::util::bit_at(ph.hash, jj) == 0 by {
                    assert(crate::partial_hash::from_query_bit(
                        *query,
                        cv,
                        ph.hash,
                        ph.mask,
                        jj as int,
                    ));
                    let a = cv.data@[jj as int].0 as int;
                    assert(query.matches@[a] is None);
                    assert(query.byte_matches()[a] is None);
                }
                assert(forall|jj: u32| jj < 32 ==> #[trigger] crate::util::bit_at(0u32, jj) == 0)
                    by (bit_vector);
                crate::util::lemma_bits_eq(ph.mask, 0);
                assert forall|b: u32| b < np32 implies crate::partial_hash::id_consistent(
                    ph.hash,
                    ph.mask,
                    np32,
                    b,
                ) by {
                    let mk = crate::util::mask32(crate::partial_hash::tag_width(np32, b));
                    assert((((b ^ ph.hash) & 0u32) & mk) == 0) by (bit_vector);
                }
                lemma_ids_identity(ids, np32 as int);
                lemma_wildcard_sum(self.buckets@, ids, qb);
                assert(self.buckets@.take(ids.len() as int) =~= self.buckets@);
            }
        }
        SelectIter { tuples: out }
    }

    /// Check the structural invariants at run time: the page count equation,
    /// the split-pointer bound, and that a wildcard select sees exactly
    /// `num_tuples` tuples. On a well-formed relation this always holds.
    pub fn is_sane(&self) -> (r: bool)
        requires
            self.wf(),
        ensures
            r,
    {
        if self.depth > 31 {
            return false;
        }
        proof {
            vstd::bits::lemma_u64_pow2_no_overflow(self.depth as nat);
            vstd::bits::lemma_u64_shl_is_mul(1u64, self.depth as u64);
        }
        let two_d = 1u64 << (self.depth as u64);
        if !(self.num_pages == two_d + (self.split_pointer as u64)) {
            return false;
        }
        if !((self.split_pointer as u64) < self.num_pages) {
            return false;
        }
        let q = Query::wildcard(self.num_attrs);
        let it = self.select(&q);
        (it.tuples.len() as u64) == self.num_tuples
    }
}

/// The serialized choice-vector entries: four big-endian bytes of attribute
/// index and one byte of bit position, per entry.
pub open spec fn cv_image(cv: Seq<ChoiceEntry>) -> Seq<u8>
    decreases cv.len(),
{
    if cv.len() == 0 {
        Seq::empty()
    } else {
        cv_image(cv.drop_last()) + crate::bytes::be32_bytes(cv.last().0) + seq![cv.last().1]
    }
}

/// The byte image of the metadata file.
pub open spec fn info_image(r: Relation) -> Seq<u8> {
    crate::bytes::be32_bytes(r.num_attrs) + seq![r.depth] + crate::bytes::be32_bytes(
        r.split_pointer,
    ) + crate::bytes::be64_bytes(r.num_pages) + crate::bytes::be64_bytes(r.num_tuples) + cv_image(
        r.choice_vec.data@,
    )
}

impl Relation {
    /// The byte image of the metadata file: attribute count, depth, split
    /// pointer, page count, tuple count and the choice vector, with all
    /// integers big-endian.
    pub fn info_bytes(&self) -> (r: Vec<u8>)
        requires
            self.wf(),
        ensures
            r@ == info_image(*self),
            r@.len() == 185,
    {
        let mut out: Vec<u8> = Vec::new();
        crate::bytes::push_be32(&mut out, self.num_attrs);
        out.push(self.depth);
        crate::bytes::push_be32(&mut out, self.split_pointer);
        crate::bytes::push_be64(&mut out, self.num_pages);
        crate::bytes::push_be64(&mut out, self.num_tuples);
        let ghost header = out@;
        proof {
            assert(cv_image(self.choice_vec.data@.take(0)) =~= Seq::<u8>::empty());
            assert(out@ =~= header + cv_image(self.choice_vec.data@.take(0)));
        }
        let mut i: usize = 0;
        while i < self.choice_vec.data.len()
            invariant
                self.wf(),
                header.len() == 25,
                0 <= i <= self.choice_vec.data@.len(),
                out@ =~= header + cv_image(self.choice_vec.data@.take(i as int)),
                out@.len() == 25 + 5 * i,
            decreases self.choice_vec.data@.len() - i,
        {
            let e = self.choice_vec.data[i];
            crate::bytes::push_be32(&mut out, e.0);
            out.push(e.1);
            proof {
                assert(self.choice_vec.data@.take(i + 1).drop_last() =~= self.choice_vec.data@.take(
                    i as int,
                ));
                assert(self.choice_vec.data@.take(i + 1).last() == self.choice_vec.data@[i as int]);
                assert(out@ =~= header + cv_image(self.choice_vec.data@.take(i + 1)));
            }
            i = i + 1;
        }
        proof {
            assert(self.choice_vec.data@.take(self.choice_vec.data@.len() as int)
                =~= self.choice_vec.data@);
        }
        out
    }

    /// The byte images of the data file and the overflow file. The data file
    /// is exactly `num_pages` blocks of 1024 bytes; overflow chains are laid
    /// out in bucket order. Fails exactly when the overflow file would need
    /// more page ids than fit beside the chain terminator.
    pub fn file_images(&self) -> (r: Result<(Vec<u8>, Vec<u8>), RelError>)
        requires
            self.wf(),
        ensures
            r is Ok <==> overflow_page_total(self.buckets@) <= 0xffff_fffe,
            r is Err ==> r == Err::<(Vec<u8>, Vec<u8>), RelError>(RelError::TooManyOverflowPages),
            r is Ok ==> {
                &&& r->Ok_0.0@.len() == self.num_pages * 1024
                &&& r->Ok_0.1@.len() == overflow_page_total(self.buckets@) * 1024
                &&& r->Ok_0.1@.len() % 1024 == 0
                &&& forall|bb: int|
                    0 <= bb < self.num_pages ==> #[trigger] bucket_in_images(
                        self.buckets@[bb]@,
                        r->Ok_0.0@.subrange(bb * 1024, bb * 1024 + 1024),
                        r->Ok_0.1@,
                    )
            },
    {
        let mut data_img: Vec<u8> = Vec::new();
        let mut ovflow_img: Vec<u8> = Vec::new();
        let mut ovflow_blocks: u64 = 0;
        let mut b: usize = 0;
        while b < self.buckets.len()
            invariant
                self.wf(),
                0 <= b <= self.buckets@.len(),
                data_img@.len() == 1024 * b,
                ovflow_img@.len() == 1024 * ovflow_blocks,
                ovflow_blocks == overflow_page_total(self.buckets@.take(b as int)),
                ovflow_blocks <= 0xffff_fffe,
                forall|bb: int|
                    0 <= bb < b ==> #[trigger] bucket_in_images(
                        self.buckets@[bb]@,
                        data_img@.subrange(bb * 1024, bb * 1024 + 1024),
                        ovflow_img@,
                    ),
            decreases self.buckets@.len() - b,
        {
            proof {
                assert(bucket_pages_ok(self.buckets@[b as int]@));
                assert(self.buckets@.take(b + 1).drop_last() =~= self.buckets@.take(b as int));
                assert(self.buckets@.take(b + 1).last() == self.buckets@[b as int]);
            }
            let chain_len = self.buckets[b].len();
            if chain_len > 1 && ((chain_len - 1) as u64) > 0xffff_fffe - ovflow_blocks {
                proof {
                    lemma_overflow_page_total_prefix(self.buckets@, b + 1);
                }
                return Err(RelError::TooManyOverflowPages);
            }
            let first_ovflow: u32 = if chain_len > 1 {
                ovflow_blocks as u32
            } else {
                crate::page::NO_OVFLOW
            };
            let ghost bpages = self.buckets@[b as int]@;
            let ghost b0 = ovflow_blocks;
            let ghost mut links: Seq<u32> = seq![first_ovflow];
            let ghost pre_data = data_img@;
            let mut block = page_block(&self.buckets[b], 0, first_ovflow);
            let ghost block0 = block@;
            data_img.append(&mut block);
            proof {
                assert forall|bb: int| 0 <= bb < b implies #[trigger] bucket_in_images(
                    self.buckets@[bb]@,
                    data_img@.subrange(bb * 1024, bb * 1024 + 1024),
                    ovflow_img@,
                ) by {
                    assert(data_img@.subrange(bb * 1024, bb * 1024 + 1024) =~= pre_data.subrange(
                        bb * 1024,
                        bb * 1024 + 1024,
                    ));
                    assert(bucket_in_images(
                        self.buckets@[bb]@,
                        pre_data.subrange(bb * 1024, bb * 1024 + 1024),
                        ovflow_img@,
                    ));
                }
                assert(data_img@.subrange(1024 * b as int, 1024 * b as int + 1024) =~= block0);
            }
            let mut k: usize = 1;
            while k < chain_len
                invariant
                    self.wf(),
                    0 <= b < self.buckets@.len(),
                    bpages == self.buckets@[b as int]@,
                    chain_len == bpages.len(),
                    chain_len >= 1,
                    1 <= k <= chain_len,
                    ovflow_blocks == b0 + k - 1,
                    b0 + chain_len - 1 <= 0xffff_fffe,
                    ovflow_img@.len() == 1024 * ovflow_blocks,
                    data_img@.len() == 1024 * (b + 1),
                    data_img@.subrange(1024 * b as int, 1024 * b as int + 1024)
                        == crate::page::page_image(bpages[0], first_ovflow),
                    links.len() == k,
                    forall|j: int|
                        0 <= j < k ==> #[trigger] links[j] == (if j < chain_len - 1 {
                            ((b0 + j) as u32)
                        } else {
                            crate::page::NO_OVFLOW
                        }),
                    forall|j: int|
                        1 <= j < k ==> #[trigger] crate::page::page_image(bpages[j], links[j])
                            == ovflow_img@.subrange(
                            (b0 + j - 1) * 1024,
                            (b0 + j - 1) * 1024 + 1024,
                        ),
                    forall|bb: int|
                        0 <= bb < b ==> #[trigger] bucket_in_images(
                            self.buckets@[bb]@,
                            data_img@.subrange(bb * 1024, bb * 1024 + 1024),
                            ovflow_img@,
                        ),
                decreases chain_len - k,
            {
                let next: u32 = if k + 1 < chain_len {
                    (ovflow_blocks + 1) as u32
                } else {
                    crate::page::NO_OVFLOW
                };
                let ghost pre_ov = ovflow_img@;
                let mut oblock = page_block(&self.buckets[b], k, next);
                let ghost oblock0 = oblock@;
                ovflow_img.append(&mut oblock);
                proof {
                    links = links.push(next);
                    vstd::arithmetic::div_mod::lemma_mod_multiples_basic(
                        (b0 + k - 1) as int,
                        1024,
                    );
                    assert(ovflow_img@.subrange(
                        (b0 + k - 1) * 1024,
                        (b0 + k - 1) * 1024 + 1024,
                    ) =~= oblock0);
                    assert forall|j: int|
                        1 <= j < k + 1 implies #[trigger] crate::page::page_image(
                        bpages[j],
                        links[j],
                    ) == ovflow_img@.subrange(
                        (b0 + j - 1) * 1024,
                        (b0 + j - 1) * 1024 + 1024,
                    ) by {
                        if j < k {
                            assert(ovflow_img@.subrange(
                                (b0 + j - 1) * 1024,
                                (b0 + j - 1) * 1024 + 1024,
                            ) =~= pre_ov.subrange(
                                (b0 + j - 1) * 1024,
                                (b0 + j - 1) * 1024 + 1024,
                            ));
                        }
                    }
                    assert forall|bb: int| 0 <= bb < b implies #[trigger] bucket_in_images(
                        self.buckets@[bb]@,
                        data_img@.subrange(bb * 1024, bb * 1024 + 1024),
                        ovflow_img@,
                    ) by {
                        let db = data_img@.subrange(bb * 1024, bb * 1024 + 1024);
                        assert(bucket_in_images(self.buckets@[bb]@, db, pre_ov));
                        let cl = choose|cl: Seq<u32>|
                            chain_in_images(self.buckets@[bb]@, db, pre_ov, cl);
                        assert(ovflow_img@.subrange(0, pre_ov.len() as int) =~= pre_ov);
                        assert(pre_ov.len() % 1024 == 0) by {
                            vstd::arithmetic::div_mod::lemma_mod_multiples_basic(
                                (b0 + k - 1) as int,
                                1024,
                            );
                        }
                        lemma_chain_extend(self.buckets@[bb]@, db, pre_ov, ovflow_img@, cl);
                    }
                }
                ovflow_blocks = ovflow_blocks + 1;
                k = k + 1;
            }
            proof {
                // the links recorded for this bucket describe its chain in
                // the images as they stand now
                vstd::arithmetic::div_mod::lemma_div_multiples_vanish(
                    ovflow_blocks as int,
                    1024,
                );
                assert(ovflow_img@.len() / 1024 == ovflow_blocks);
                let db = data_img@.subrange(1024 * b as int, 1024 * b as int + 1024);
                assert(chain_in_images(bpages, db, ovflow_img@, links)) by {
                    assert(links[0] == first_ovflow);
                    assert(crate::page::page_image(bpages[0], links[0]) == db);
                    assert forall|kk: int|
                        0 <= kk < links.len() - 1 implies ((#[trigger] links[kk]) as int)
                        < ovflow_img@.len() / 1024 by {
                        assert(links[kk] == (b0 + kk) as u32);
                    }
                    assert forall|kk: int|
                        #![trigger bpages[kk], links[kk]]
                        1 <= kk < bpages.len() implies crate::page::page_image(
                        bpages[kk],
                        links[kk],
                    ) == ovflow_img@.subrange(
                        (links[kk - 1] as int) * 1024,
                        (links[kk - 1] as int) * 1024 + 1024,
                    ) by {
                        assert(links[kk - 1] == (b0 + kk - 1) as u32);
                        assert(crate::page::page_image(bpages[kk], links[kk])
                            == ovflow_img@.subrange(
                            (b0 + kk - 1) * 1024,
                            (b0 + kk - 1) * 1024 + 1024,
                        ));
                    }
                }
                assert(bucket_in_images(bpages, db, ovflow_img@));
                assert(self.buckets@.take(b + 1).drop_last() =~= self.buckets@.take(b as int));
            }
            b = b + 1;
        }
        proof {
            vstd::arithmetic::div_mod::lemma_mod_multiples_basic(ovflow_blocks as int, 1024);
            assert(self.buckets@.take(self.buckets@.len() as int) =~= self.buckets@);
        }
        Ok((data_img, ovflow_img))
    }
}

/// The 1024-byte image of one page of a bucket.
fn page_block(pages: &Vec<Page>, k: usize, ovflow: u32) -> (r: Vec<u8>)
    requires
        bucket_pages_ok(pages@),
        k < pages@.len(),
    ensures
        r@.len() == 1024,
        r@ == crate::page::page_image(pages@[k as int], ovflow),
{
    pages[k].write(ovflow)
}

/// Bucket maps whose buckets hold the same records store the same multiset.
proof fn lemma_buckets_stored_congruent(bs1: Seq<Vec<Page>>, bs2: Seq<Vec<Page>>)
    requires
        bs1.len() == bs2.len(),
        forall|b: int|
            0 <= b < bs1.len() ==> pages_records(#[trigger] bs1[b]@) == pages_records(bs2[b]@),
    ensures
        buckets_stored(bs1) =~= buckets_stored(bs2),
    decreases bs1.len(),
{
    if bs1.len() > 0 {
        lemma_buckets_stored_congruent(bs1.drop_last(), bs2.drop_last());
        assert(forall|b: int| 0 <= b < bs1.len() - 1 ==> bs1.drop_last()[b] == bs1[b]);
        assert(pages_records(bs1.last()@) == pages_records(bs2.last()@));
        assert forall|e: Seq<u8>|
            buckets_stored(bs1).count(e) == buckets_stored(bs2).count(e) by {
            assert(buckets_stored(bs1).count(e) == buckets_stored(bs1.drop_last()).count(e)
                + pages_records(bs1.last()@).to_multiset().count(e));
            assert(buckets_stored(bs2).count(e) == buckets_stored(bs2.drop_last()).count(e)
                + pages_records(bs2.last()@).to_multiset().count(e));
        }
    }
}

/// A records-congruent copy of a prefix of the bucket map stores what the
/// prefix stores.
proof fn lemma_buckets_stored_congruent_prefix(bs1: Seq<Vec<Page>>, bs2: Seq<Vec<Page>>, j: int)
    requires
        0 <= j <= bs2.len(),
        bs1.len() == j,
        forall|bb: int|
            0 <= bb < j ==> pages_records(#[trigger] bs1[bb]@) == pages_records(bs2[bb]@),
    ensures
        buckets_stored(bs1) =~= buckets_stored(bs2.take(j)),
{
    assert(forall|bb: int| 0 <= bb < j ==> bs2.take(j)[bb] == bs2[bb]);
    lemma_buckets_stored_congruent(bs1, bs2.take(j));
}

/// A prefix of the bucket map stores no more than the whole.
proof fn lemma_buckets_stored_prefix_len(bs: Seq<Vec<Page>>, j: int)
    requires
        0 <= j <= bs.len(),
    ensures
        buckets_stored(bs.take(j)).len() <= buckets_stored(bs).len(),
    decreases bs.len() - j,
{
    if j < bs.len() {
        lemma_buckets_stored_prefix_len(bs, j + 1);
        assert(bs.take(j + 1).drop_last() =~= bs.take(j));
        assert(bs.take(j + 1).last() == bs[j]);
        assert(buckets_stored(bs.take(j + 1)).len() == buckets_stored(bs.take(j)).len()
            + pages_records(bs[j]@).to_multiset().len());
    } else {
        assert(bs.take(j) =~= bs);
    }
}

/// The fields and choice-vector entries a metadata image encodes are those
/// of the relation it was made from.
proof fn lemma_cv_image_entry(cv: Seq<ChoiceEntry>, i: int)
    requires
        0 <= i < cv.len(),
    ensures
        cv_image(cv).len() == 5 * cv.len(),
        cv_image(cv).subrange(5 * i, 5 * i + 4) =~= crate::bytes::be32_bytes(cv[i].0),
        cv_image(cv)[5 * i + 4] == cv[i].1,
    decreases cv.len(),
{
    lemma_cv_image_len(cv);
    if i == cv.len() - 1 {
        lemma_cv_image_len(cv.drop_last());
    } else {
        lemma_cv_image_entry(cv.drop_last(), i);
        lemma_cv_image_len(cv.drop_last());
        assert(cv.drop_last()[i] == cv[i]);
        assert(cv_image(cv).subrange(5 * i, 5 * i + 4) =~= cv_image(cv.drop_last()).subrange(
            5 * i,
            5 * i + 4,
        ));
    }
}

proof fn lemma_cv_image_len(cv: Seq<ChoiceEntry>)
    ensures
        cv_image(cv).len() == 5 * cv.len(),
    decreases cv.len(),
{
    if cv.len() > 0 {
        lemma_cv_image_len(cv.drop_last());
    }
}

/// Reading the fields back out of a relation's metadata image gives the
/// relation's fields.
proof fn lemma_info_image_fields(rel: Relation)
    requires
        rel.choice_vec.data@.len() == 32,
    ensures
        info_image(rel).len() == 185,
        crate::bytes::be32_val(info_image(rel).subrange(0, 4)) == rel.num_attrs,
        info_image(rel)[4] == rel.depth,
        crate::bytes::be32_val(info_image(rel).subrange(5, 9)) == rel.split_pointer,
        crate::bytes::be64_val(info_image(rel).subrange(9, 17)) == rel.num_pages,
        crate::bytes::be64_val(info_image(rel).subrange(17, 25)) == rel.num_tuples,
        forall|i: int|
            0 <= i < 32 ==> crate::bytes::be32_val(
                info_image(rel).subrange(25 + 5 * i, 25 + 5 * i + 4),
            ) == (#[trigger] rel.choice_vec.data@[i]).0 && info_image(rel)[25 + 5 * i + 4]
                == rel.choice_vec.data@[i].1,
{
    let img = info_image(rel);
    lemma_cv_image_len(rel.choice_vec.data@);
    assert(img.subrange(0, 4) =~= crate::bytes::be32_bytes(rel.num_attrs));
    assert(img.subrange(5, 9) =~= crate::bytes::be32_bytes(rel.split_pointer));
    assert(img.subrange(9, 17) =~= crate::bytes::be64_bytes(rel.num_pages));
    assert(img.subrange(17, 25) =~= crate::bytes::be64_bytes(rel.num_tuples));
    crate::bytes::lemma_be32_roundtrip(rel.num_attrs);
    crate::bytes::lemma_be32_roundtrip(rel.split_pointer);
    crate::bytes::lemma_be64_roundtrip(rel.num_pages);
    crate::bytes::lemma_be64_roundtrip(rel.num_tuples);
    assert forall|i: int|
        0 <= i < 32 implies crate::bytes::be32_val(
        img.subrange(25 + 5 * i, 25 + 5 * i + 4),
    ) == (#[trigger] rel.choice_vec.data@[i]).0 && img[25 + 5 * i + 4]
        == rel.choice_vec.data@[i].1 by {
        lemma_cv_image_entry(rel.choice_vec.data@, i);
        assert(img.subrange(25 + 5 * i, 25 + 5 * i + 4) =~= cv_image(
            rel.choice_vec.data@,
        ).subrange(5 * i, 5 * i + 4));
        crate::bytes::lemma_be32_roundtrip(rel.choice_vec.data@[i].0);
        assert(img[25 + 5 * i + 4] == cv_image(rel.choice_vec.data@)[5 * i + 4]);
    }
}

/// Total number of overflow pages across the buckets.
pub open spec fn overflow_page_total(bs: Seq<Vec<Page>>) -> int
    decreases bs.len(),
{
    if bs.len() == 0 {
        0
    } else {
        overflow_page_total(bs.drop_last()) + (bs.last()@.len() - 1)
    }
}

proof fn lemma_overflow_page_total_prefix(bs: Seq<Vec<Page>>, j: int)
    requires
        0 <= j <= bs.len(),
        forall|b: int| 0 <= b < bs.len() ==> (#[trigger] bs[b]@).len() >= 1,
    ensures
        overflow_page_total(bs.take(j)) <= overflow_page_total(bs),
    decreases bs.len() - j,
{
    if j < bs.len() {
        lemma_overflow_page_total_prefix(bs, j + 1);
        assert(bs.take(j + 1).drop_last() =~= bs.take(j));
        assert(bs.take(j + 1).last() == bs[j]);
    } else {
        assert(bs.take(j) =~= bs);
    }
}

/// The layout of one bucket in the file images: the main page's image is
/// the bucket's data block, and each overflow page's image sits at the
/// 1024-byte block its predecessor's header names; `links` lists those
/// header links, ending with `NO_OVFLOW`.
pub open spec fn chain_in_images(
    pages: Seq<Page>,
    dblock: Seq<u8>,
    ovimg: Seq<u8>,
    links: Seq<u32>,
) -> bool {
    &&& pages.len() >= 1
    &&& links.len() == pages.len()
    &&& crate::page::page_image(pages[0], links[0]) == dblock
    &&& (forall|k: int|
        0 <= k < links.len() - 1 ==> ((#[trigger] links[k]) as int) < ovimg.len() / 1024)
    &&& (forall|k: int|
        #![trigger pages[k], links[k]]
        1 <= k < pages.len() ==> crate::page::page_image(pages[k], links[k]) == ovimg.subrange(
            (links[k - 1] as int) * 1024,
            (links[k - 1] as int) * 1024 + 1024,
        ))
    &&& links[links.len() - 1] == crate::page::NO_OVFLOW
    &&& (forall|k: int| 0 <= k < links.len() - 1 ==> (#[trigger] links[k]) != crate::page::NO_OVFLOW)
    &&& pages.len() - 1 <= ovimg.len() / 1024
}

/// Bucket `pages` is laid out in the images under some chain of links.
pub open spec fn bucket_in_images(pages: Seq<Page>, dblock: Seq<u8>, ovimg: Seq<u8>) -> bool {
    exists|links: Seq<u32>| chain_in_images(pages, dblock, ovimg, links)
}

/// In a laid-out chain that has not reached its terminator, the next page
/// sits at the named block of the overflow image.
proof fn lemma_walk_not_done(
    gb: Seq<Page>,
    dblock: Seq<u8>,
    ovimg: Seq<u8>,
    glinks: Seq<u32>,
    steps: int,
)
    requires
        chain_in_images(gb, dblock, ovimg, glinks),
        0 <= steps,
        steps + 1 <= gb.len(),
        glinks[steps] != crate::page::NO_OVFLOW,
    ensures
        steps + 2 <= gb.len(),
        (glinks[steps] as int) < ovimg.len() / 1024,
        steps + 1 < ovimg.len() / 1024 + 1,
        crate::page::page_image(gb[steps + 1], glinks[steps + 1]) == ovimg.subrange(
            (glinks[steps] as int) * 1024,
            (glinks[steps] as int) * 1024 + 1024,
        ),
{
    if steps + 1 == gb.len() {
        assert(glinks[gb.len() - 1] == crate::page::NO_OVFLOW);
    }
    let gp = gb[steps + 1];
    let gl = glinks[steps + 1];
    assert(glinks[(steps + 1) - 1] == glinks[steps]);
    assert((glinks[steps] as int) < ovimg.len() / 1024);
    assert(gb.len() - 1 <= ovimg.len() / 1024);
}

/// Appending the page found at the chain's current link extends the walked
/// chain by one step.
#[verifier::rlimit(60)]
#[verifier::spinoff_prover]
proof fn lemma_walk_chain_extend(
    pages: Seq<Page>,
    dlinks: Seq<u32>,
    p: Page,
    l: u32,
    ov: u32,
    ovimg: Seq<u8>,
    n_ov: int,
    dblock: Seq<u8>,
)
    requires
        pages.len() == dlinks.len(),
        pages.len() >= 1,
        crate::page::page_image(pages[0], dlinks[0]) == dblock,
        forall|k: int|
            0 <= k < dlinks.len() - 1 ==> ((#[trigger] dlinks[k]) as int) < n_ov,
        forall|k: int|
            #![trigger pages[k], dlinks[k]]
            1 <= k < pages.len() ==> crate::page::page_image(pages[k], dlinks[k])
                == ovimg.subrange(
                (dlinks[k - 1] as int) * 1024,
                (dlinks[k - 1] as int) * 1024 + 1024,
            ),
        forall|k: int|
            0 <= k < dlinks.len() - 1 ==> (#[trigger] dlinks[k]) != crate::page::NO_OVFLOW,
        ov == dlinks[dlinks.len() - 1],
        ov != crate::page::NO_OVFLOW,
        (ov as int) < n_ov,
        crate::page::page_image(p, l) == ovimg.subrange(
            ov as int * 1024,
            ov as int * 1024 + 1024,
        ),
    ensures
        crate::page::page_image(pages.push(p)[0], dlinks.push(l)[0]) == dblock,
        forall|k: int|
            0 <= k < dlinks.push(l).len() - 1 ==> ((#[trigger] dlinks.push(l)[k]) as int) < n_ov,
        forall|k: int|
            #![trigger pages.push(p)[k], dlinks.push(l)[k]]
            1 <= k < pages.push(p).len() ==> crate::page::page_image(
                pages.push(p)[k],
                dlinks.push(l)[k],
            ) == ovimg.subrange(
                (dlinks.push(l)[k - 1] as int) * 1024,
                (dlinks.push(l)[k - 1] as int) * 1024 + 1024,
            ),
        forall|k: int|
            0 <= k < dlinks.push(l).len() - 1 ==> (#[trigger] dlinks.push(l)[k])
                != crate::page::NO_OVFLOW,
        l == dlinks.push(l)[dlinks.push(l).len() - 1],
{
    let n = pages.len();
    assert forall|k: int|
        0 <= k < dlinks.push(l).len() - 1 implies ((#[trigger] dlinks.push(l)[k]) as int)
        < n_ov by {
        if k < n - 1 {
            assert(dlinks.push(l)[k] == dlinks[k]);
            assert((dlinks[k] as int) < n_ov);
        } else {
            assert(dlinks.push(l)[k] == dlinks[n - 1]);
        }
    }
    assert forall|k: int|
        #![trigger pages.push(p)[k], dlinks.push(l)[k]]
        1 <= k < n + 1 implies crate::page::page_image(pages.push(p)[k], dlinks.push(l)[k])
        == ovimg.subrange(
        (dlinks.push(l)[k - 1] as int) * 1024,
        (dlinks.push(l)[k - 1] as int) * 1024 + 1024,
    ) by {
        if k < n {
            assert(dlinks.push(l)[k] == dlinks[k]);
            assert(dlinks.push(l)[k - 1] == dlinks[k - 1]);
            assert(pages.push(p)[k] == pages[k]);
            let pk = pages[k];
            let lk = dlinks[k];
        } else {
            assert(dlinks.push(l)[k] == l);
            assert(dlinks.push(l)[k - 1] == dlinks[n - 1]);
            assert(pages.push(p)[k] == p);
        }
    }
    assert forall|k: int|
        0 <= k < dlinks.push(l).len() - 1 implies (#[trigger] dlinks.push(l)[k])
        != crate::page::NO_OVFLOW by {
        if k < n - 1 {
            assert(dlinks.push(l)[k] == dlinks[k]);
        } else {
            assert(dlinks.push(l)[k] == dlinks[n - 1]);
        }
    }
}

/// Two well-formed pages with the same image are the same page with the
/// same overflow link.
proof fn lemma_same_image_same_page(gp: Page, gl: u32, p: Page, l: u32, block: Seq<u8>)
    requires
        gp.wf(),
        p.wf(),
        crate::page::page_image(gp, gl) == block,
        crate::page::page_image(p, l) == block,
    ensures
        l == gl,
        p.records() == gp.records(),
        p.free == gp.free,
{
    crate::page::lemma_image_determines_page(gp, gl, block);
    crate::page::lemma_image_determines_page(p, l, block);
    assert(p.content() =~= gp.content());
}

/// The images describe `rel`: the metadata file is its info image, the
/// data file holds its buckets' main pages block by block, and every
/// bucket's overflow chain is laid out in the overflow image.
pub open spec fn images_wf(rel: Relation, info: Seq<u8>, data: Seq<u8>, ovimg: Seq<u8>) -> bool {
    &&& rel.wf()
    &&& info == info_image(rel)
    &&& data.len() == rel.num_pages * 1024
    &&& ovimg.len() % 1024 == 0
    &&& ovimg.len() / 1024 <= 0xffff_fffe
    &&& forall|b: int|
        0 <= b < rel.num_pages ==> #[trigger] bucket_in_images(
            rel.buckets@[b]@,
            data.subrange(b * 1024, b * 1024 + 1024),
            ovimg,
        )
}

/// Some well-formed relation has exactly these file images.
pub open spec fn valid_images(info: Seq<u8>, data: Seq<u8>, ovimg: Seq<u8>) -> bool {
    exists|rel: Relation| images_wf(rel, info, data, ovimg)
}

/// A chain laid out in an overflow image stays laid out when the image is
/// extended at its tail.
#[verifier::rlimit(80)]
#[verifier::spinoff_prover]
proof fn lemma_chain_extend(
    pages: Seq<Page>,
    dblock: Seq<u8>,
    ov1: Seq<u8>,
    ov2: Seq<u8>,
    links: Seq<u32>,
)
    requires
        chain_in_images(pages, dblock, ov1, links),
        ov1.len() <= ov2.len(),
        ov2.subrange(0, ov1.len() as int) == ov1,
        ov1.len() % 1024 == 0,
    ensures
        chain_in_images(pages, dblock, ov2, links),
{
    vstd::arithmetic::div_mod::lemma_div_is_ordered(ov1.len() as int, ov2.len() as int, 1024);
    vstd::arithmetic::div_mod::lemma_fundamental_div_mod(ov1.len() as int, 1024);
    assert((ov1.len() / 1024) * 1024 == ov1.len());
    assert forall|k: int|
        0 <= k < links.len() - 1 implies ((#[trigger] links[k]) as int) < ov2.len()
        / 1024 by {
        assert((links[k] as int) < ov1.len() / 1024);
    }
    assert forall|k: int|
        #![trigger pages[k], links[k]]
        1 <= k < pages.len() implies crate::page::page_image(pages[k], links[k])
        == ov2.subrange(
        (links[k - 1] as int) * 1024,
        (links[k - 1] as int) * 1024 + 1024,
    ) by {
        let pk = pages[k];
        let lk = links[k];
        let l = links[k - 1] as int;
        let a = l * 1024;
        assert(l < ov1.len() / 1024);
        assert((l + 1) * 1024 <= (ov1.len() / 1024) * 1024);
        assert forall|i: int| a <= i < a + 1024 implies ov2[i] == ov1[i] by {
            assert(ov2.subrange(0, ov1.len() as int)[i] == ov2[i]);
        }
        assert(ov2.subrange(a, a + 1024) =~= ov1.subrange(a, a + 1024));
        assert(crate::page::page_image(pages[k], links[k]) == ov1.subrange(a, a + 1024));
    }
    assert(pages.len() >= 1);
    assert(links.len() == pages.len());
    assert(crate::page::page_image(pages[0], links[0]) == dblock);
    assert(links[links.len() - 1] == crate::page::NO_OVFLOW);
    assert(forall|k: int|
        0 <= k < links.len() - 1 ==> (#[trigger] links[k]) != crate::page::NO_OVFLOW);
    assert(pages.len() - 1 <= ov2.len() / 1024);
}

/// Every record of the bucket belongs there: well formed for the attribute
/// count and hashed to bucket `b`.
pub open spec fn bucket_records_at(
    pages: Seq<Page>,
    cv: Seq<ChoiceEntry>,
    num_attrs: u32,
    depth: nat,
    sp: int,
    b: int,
) -> bool {
    forall|rec: Seq<u8>|
        pages_records(pages).contains(rec) ==> record_ok(rec, num_attrs) && address_of(
            rec_hash(rec, cv),
            depth,
            sp,
        ) == b
}

/// Check that every record of a bucket belongs there: the right number of
/// attributes, small enough for a page, and hashed to this bucket's id.
/// Returns the number of records exactly when all checks pass.
fn check_bucket(
    pages: &Vec<Page>,
    choice_vec: &ChoiceVec,
    num_attrs: u32,
    depth: u8,
    sp: u32,
    b: u32,
) -> (r: Option<u64>)
    requires
        bucket_pages_ok(pages@),
        num_attrs >= 1,
        depth <= 31,
        choice_vec.valid_for(num_attrs),
    ensures
        r is Some ==> r->0 == pages_records(pages@).len() && bucket_records_at(
            pages@,
            choice_vec.data@,
            num_attrs,
            depth as nat,
            sp as int,
            b as int,
        ),
        bucket_records_at(pages@, choice_vec.data@, num_attrs, depth as nat, sp as int, b as int)
            ==> r is Some,
{
    let ghost records = pages_records(pages@);
    let ts = bucket_tuples(pages);
    let n = ts.len();
    let mut k: usize = 0;
    while k < n
        invariant
            bucket_pages_ok(pages@),
            num_attrs >= 1,
            depth <= 31,
            choice_vec.valid_for(num_attrs),
            records == pages_records(pages@),
            ts@.len() == n,
            n == records.len(),
            forall|j: int|
                0 <= j < n ==> (#[trigger] ts@[j]).byte_values() == split_bytes(records[j], 44),
            0 <= k <= n,
            forall|j: int|
                0 <= j < k ==> record_ok(#[trigger] records[j], num_attrs) && address_of(
                    rec_hash(records[j], choice_vec.data@),
                    depth as nat,
                    sp as int,
                ) == b,
        decreases n - k,
    {
        let t = &ts[k];
        let ghost rec = records[k as int];
        proof {
            if bucket_records_at(
                pages@,
                choice_vec.data@,
                num_attrs,
                depth as nat,
                sp as int,
                b as int,
            ) {
                assert(records.contains(rec));
                assert(record_ok(rec, num_attrs));
            }
        }
        if t.values.len() != num_attrs as usize {
            proof {
                assert(t.values@.len() == t.byte_values().len());
            }
            return None;
        }
        let text = t.to_string();
        if text.as_str().as_bytes().len() >= 1012 {
            proof {
                crate::bytes::lemma_join_split(rec, 44);
                assert(rec =~= t.spec_content());
            }
            return None;
        }
        proof {
            crate::bytes::lemma_join_split(rec, 44);
            assert(t.byte_values() == split_bytes(rec, 44));
            assert(rec =~= t.spec_content());
            assert(rec.len() < 1012);
            // the record came from some page, whose content it is a
            // NUL-free, valid piece of
            lemma_pages_records_origin(pages@, k as int);
            let p = choose|p: int|
                0 <= p < pages@.len() && (#[trigger] pages@[p].records()).contains(rec);
            let pk = choose|pk: int|
                0 <= pk < pages@[p].records().len() && pages@[p].records()[pk] == rec;
            crate::bytes::lemma_split_bytes_pieces_free(pages@[p].content(), 0);
            assert(split_bytes(pages@[p].content(), 0)[pk] == rec);
            assert(!rec.contains(0u8));
            assert(valid_utf8(rec));
        }
        let fh = t.hash(choice_vec);
        let low = crate::util::lower_bits(depth, fh);
        let addr: u32 = if low < sp {
            crate::util::lower_bits(depth + 1, fh)
        } else {
            low
        };
        proof {
            assert(fh == rec_hash(rec, choice_vec.data@));
            assert(addr == address_of(fh, depth as nat, sp as int));
        }
        if addr != b {
            return None;
        }
        k = k + 1;
    }
    proof {
        assert forall|rec: Seq<u8>|
            pages_records(pages@).contains(rec) implies record_ok(rec, num_attrs) && address_of(
            rec_hash(rec, choice_vec.data@),
            depth as nat,
            sp as int,
        ) == b by {
            let j = choose|j: int| 0 <= j < records.len() && records[j] == rec;
        }
    }
    Some(n as u64)
}

impl Relation {
    /// Rebuild a relation from the byte images of its three backing files,
    /// validating every invariant: the metadata equations, the choice
    /// vector's bounds, each page's integrity, each overflow chain's
    /// termination, and every record's size, attribute count and placement.
    /// It succeeds exactly on images that describe a well-formed relation,
    /// and the result is a relation those images describe.
    #[verifier::rlimit(100)]
    #[verifier::spinoff_prover]
    pub fn open_images(info: &[u8], data: &[u8], ovflow: &[u8]) -> (r: Result<Relation, RelError>)
        ensures
            r is Ok <==> valid_images(info@, data@, ovflow@),
            r is Ok ==> images_wf(r->Ok_0, info@, data@, ovflow@),
    {
        broadcast use vstd::seq_lib::group_to_multiset_ensures;

        let ghost gvalid = valid_images(info@, data@, ovflow@);
        let ghost grel: Relation = if gvalid {
            choose|rel: Relation| images_wf(rel, info@, data@, ovflow@)
        } else {
            vstd::pervasive::arbitrary()
        };
        proof {
            if gvalid {
                lemma_info_image_fields(grel);
            }
        }
        if info.len() != 185 {
            return Err(RelError::CorruptImage);
        }
        let num_attrs = crate::bytes::read_be32(info, 0);
        let depth = info[4];
        let sp = crate::bytes::read_be32(info, 5);
        let np = crate::bytes::read_be64(info, 9);
        let nt = crate::bytes::read_be64(info, 17);
        proof {
            if gvalid {
                assert(num_attrs == grel.num_attrs);
                assert(depth == grel.depth);
                assert(sp == grel.split_pointer);
                assert(np == grel.num_pages);
                assert(nt == grel.num_tuples);
            }
        }
        if num_attrs == 0 || depth > 31 {
            return Err(RelError::CorruptImage);
        }
        proof {
            vstd::bits::lemma_u64_pow2_no_overflow(depth as nat);
            vstd::bits::lemma_u64_shl_is_mul(1u64, depth as u64);
        }
        let two_d: u64 = 1u64 << (depth as u64);
        proof {
            vstd::arithmetic::power2::lemma2_to64();
            if depth < 31 {
                vstd::arithmetic::power2::lemma_pow2_strictly_increases(depth as nat, 31);
            }
            assert(two_d <= 0x8000_0000);
        }
        if !((sp as u64) < two_d) || np != two_d + (sp as u64) || np > 0xffff_ffff {
            return Err(RelError::CorruptImage);
        }
        let mut cvdata: Vec<ChoiceEntry> = Vec::new();
        let mut i: usize = 0;
        proof {
            assert(cv_image(cvdata@.take(0)) =~= Seq::<u8>::empty());
            assert(cv_image(cvdata@) =~= info@.subrange(25, 25 as int));
        }
        while i < 32
            invariant
                gvalid == valid_images(info@, data@, ovflow@),
                gvalid ==> images_wf(grel, info@, data@, ovflow@),
                gvalid ==> grel.choice_vec.data@.len() == 32 && num_attrs == grel.num_attrs,
                gvalid ==> forall|j: int|
                    0 <= j < 32 ==> crate::bytes::be32_val(
                        info@.subrange(25 + 5 * j, 25 + 5 * j + 4),
                    ) == (#[trigger] grel.choice_vec.data@[j]).0 && info@[25 + 5 * j + 4]
                        == grel.choice_vec.data@[j].1,
                info@.len() == 185,
                num_attrs >= 1,
                0 <= i <= 32,
                cvdata@.len() == i,
                forall|j: int|
                    0 <= j < i ==> (#[trigger] cvdata@[j]).0 < num_attrs && cvdata@[j].1 < 32,
                cv_image(cvdata@) =~= info@.subrange(25, 25 + 5 * i),
                gvalid ==> forall|j: int|
                    0 <= j < i ==> #[trigger] cvdata@[j] == grel.choice_vec.data@[j],
            decreases 32 - i,
        {
            let attr = crate::bytes::read_be32(info, 25 + 5 * i);
            let bitv = info[25 + 5 * i + 4];
            proof {
                if gvalid {
                    assert(attr == grel.choice_vec.data@[i as int].0);
                    assert(bitv == grel.choice_vec.data@[i as int].1);
                }
            }
            if attr >= num_attrs || bitv >= 32 {
                return Err(RelError::CorruptImage);
            }
            let ghost prev = cvdata@;
            cvdata.push((attr, bitv));
            proof {
                crate::bytes::lemma_be32_val_bytes(info@.subrange(25 + 5 * i, 25 + 5 * i + 4));
                assert(cvdata@.drop_last() =~= prev);
                assert(cvdata@.last() == (attr, bitv));
                assert(cv_image(cvdata@) =~= cv_image(prev) + crate::bytes::be32_bytes(attr)
                    + seq![bitv]);
                assert(crate::bytes::be32_bytes(attr) =~= info@.subrange(
                    25 + 5 * i,
                    25 + 5 * i + 4,
                ));
                assert(cv_image(cvdata@) =~= info@.subrange(25, 25 + 5 * i + 5));
            }
            i = i + 1;
        }
        let choice_vec = ChoiceVec { data: cvdata };
        if (data.len() as u64) != np * 1024 || ovflow.len() % 1024 != 0 {
            return Err(RelError::CorruptImage);
        }
        let n_ov = ovflow.len() / 1024;
        if (n_ov as u64) > 0xffff_fffe {
            return Err(RelError::CorruptImage);
        }
        let dlen = data.len();
        let olen = ovflow.len();
        proof {
            vstd::arithmetic::div_mod::lemma_fundamental_div_mod(olen as int, 1024);
        }
        let mut buckets: Vec<Vec<Page>> = Vec::new();
        let mut total: u64 = 0;
        let mut b: u64 = 0;
        while b < np
            invariant
                gvalid == valid_images(info@, data@, ovflow@),
                gvalid ==> images_wf(grel, info@, data@, ovflow@),
                gvalid ==> num_attrs == grel.num_attrs && depth == grel.depth && sp
                    == grel.split_pointer && np == grel.num_pages && nt == grel.num_tuples
                    && choice_vec.data@ =~= grel.choice_vec.data@,
                num_attrs >= 1,
                depth <= 31,
                choice_vec.valid_for(num_attrs),
                np <= 0xffff_ffff,
                data@.len() == np * 1024,
                ovflow@.len() == n_ov * 1024,
                dlen == data@.len(),
                olen == ovflow@.len(),
                n_ov == ovflow@.len() / 1024,
                0 <= b <= np,
                buckets@.len() == b,
                forall|bb: int| 0 <= bb < b ==> bucket_pages_ok(#[trigger] buckets@[bb]@),
                forall|bb: int, rec: Seq<u8>|
                    0 <= bb < b && (#[trigger] pages_records(buckets@[bb]@).contains(rec))
                        ==> record_ok(rec, num_attrs) && address_of(
                        rec_hash(rec, choice_vec.data@),
                        depth as nat,
                        sp as int,
                    ) == bb,
                total == buckets_stored(buckets@).len(),
                forall|bb: int|
                    0 <= bb < b ==> #[trigger] bucket_in_images(
                        buckets@[bb]@,
                        data@.subrange(bb * 1024, bb * 1024 + 1024),
                        ovflow@,
                    ),
                gvalid ==> forall|bb: int|
                    0 <= bb < b ==> pages_records(#[trigger] buckets@[bb]@) == pages_records(
                        grel.buckets@[bb]@,
                    ),
            decreases np - b,
        {
            proof {
                assert((b + 1) * 1024 <= np * 1024) by (nonlinear_arith)
                    requires
                        b < np,
                ;
                assert(b * 1024 <= np * 1024) by (nonlinear_arith)
                    requires
                        b < np,
                ;
            }
            let base = (b as usize) * 1024;
            let ghost dblock = data@.subrange(b as int * 1024, b as int * 1024 + 1024);
            let ghost gb = grel.buckets@[b as int]@;
            let ghost glinks: Seq<u32> = if gvalid {
                choose|l: Seq<u32>| chain_in_images(gb, dblock, ovflow@, l)
            } else {
                vstd::pervasive::arbitrary()
            };
            proof {
                if gvalid {
                    assert(bucket_in_images(gb, dblock, ovflow@));
                    assert(chain_in_images(gb, dblock, ovflow@, glinks));
                    assert(bucket_pages_ok(gb));
                }
            }
            let head = match Page::read(vstd::slice::slice_subrange(data, base, base + 1024)) {
                Some(x) => x,
                None => {
                    proof {
                        if gvalid {
                            assert(gb[0].wf() && crate::page::page_image(gb[0], glinks[0])
                                == dblock);
                            assert(crate::page::valid_block(dblock));
                        }
                    }
                    return Err(RelError::CorruptImage);
                },
            };
            let mut pages: Vec<Page> = Vec::new();
            pages.push(head.0);
            let ghost mut dlinks: Seq<u32> = seq![head.1];
            let mut ov = head.1;
            let mut steps: usize = 0;
            proof {
                assert(pages@ =~= seq![head.0]);
                assert(pages@.drop_last() =~= Seq::<Page>::empty());
                assert(pages_records(pages@.drop_last()) =~~= Seq::<Seq<u8>>::empty());
                assert(pages_records(pages@) =~~= head.0.records());
                if gvalid {
                    lemma_same_image_same_page(gb[0], glinks[0], head.0, head.1, dblock);
                    assert(gb.take(1).drop_last() =~= Seq::<Page>::empty());
                    assert(gb.take(1).last() == gb[0]);
                    assert(pages_records(gb.take(1)) =~~= gb[0].records());
                    assert(pages_records(pages@) == pages_records(gb.take(0int + 1)));
                }
            }
            while ov != crate::page::NO_OVFLOW
                invariant
                    0 <= b < np,
                    np <= 0xffff_ffff,
                    data@.len() == np * 1024,
                    gvalid == valid_images(info@, data@, ovflow@),
                    gvalid ==> bucket_pages_ok(gb),
                    olen == ovflow@.len(),
                    n_ov == ovflow@.len() / 1024,
                    ovflow@.len() == n_ov * 1024,
                    0 <= steps <= n_ov,
                    pages@.len() == steps + 1,
                    dlinks.len() == steps + 1,
                    forall|p: int| 0 <= p < pages@.len() ==> (#[trigger] pages@[p]).wf(),
                    crate::page::page_image(pages@[0], dlinks[0]) == data@.subrange(
                        b as int * 1024,
                        b as int * 1024 + 1024,
                    ),
                    forall|k: int|
                        0 <= k < dlinks.len() - 1 ==> ((#[trigger] dlinks[k]) as int) < n_ov,
                    forall|k: int|
                        #![trigger pages@[k], dlinks[k]]
                        1 <= k < pages@.len() ==> crate::page::page_image(pages@[k], dlinks[k])
                            == ovflow@.subrange(
                            (dlinks[k - 1] as int) * 1024,
                            (dlinks[k - 1] as int) * 1024 + 1024,
                        ),
                    forall|k: int|
                        0 <= k < dlinks.len() - 1 ==> (#[trigger] dlinks[k])
                            != crate::page::NO_OVFLOW,
                    ov == dlinks[dlinks.len() - 1],
                    gvalid ==> chain_in_images(
                        gb,
                        data@.subrange(b as int * 1024, b as int * 1024 + 1024),
                        ovflow@,
                        glinks,
                    ) && steps + 1 <= gb.len() && ov == glinks[steps as int] && pages_records(
                        pages@,
                    ) == pages_records(gb.take(steps as int + 1)),
                decreases n_ov - steps,
            {
                proof {
                    if gvalid {
                        lemma_walk_not_done(
                            gb,
                            data@.subrange(b as int * 1024, b as int * 1024 + 1024),
                            ovflow@,
                            glinks,
                            steps as int,
                        );
                        assert(gb.len() - 1 <= n_ov);
                    }
                }
                if steps >= n_ov || (ov as usize) >= n_ov {
                    return Err(RelError::CorruptImage);
                }
                proof {
                    assert(((ov as usize) + 1) * 1024 <= n_ov * 1024) by (nonlinear_arith)
                        requires
                            (ov as usize) < n_ov,
                    ;
                    assert((ov as usize) * 1024 <= n_ov * 1024) by (nonlinear_arith)
                        requires
                            (ov as usize) < n_ov,
                    ;
                }
                let obase = (ov as usize) * 1024;
                let ghost oblock = ovflow@.subrange(ov as int * 1024, ov as int * 1024 + 1024);
                let next = match Page::read(
                    vstd::slice::slice_subrange(ovflow, obase, obase + 1024),
                ) {
                    Some(x) => x,
                    None => {
                        proof {
                            if gvalid {
                                assert(crate::page::page_image(
                                    gb[steps + 1],
                                    glinks[steps + 1],
                                ) == oblock);
                                assert(gb[steps + 1].wf());
                                assert(crate::page::valid_block(oblock));
                            }
                        }
                        return Err(RelError::CorruptImage);
                    },
                };
                proof {
                    if gvalid {
                        assert(gb[steps + 1].wf());
                        lemma_same_image_same_page(
                            gb[steps + 1],
                            glinks[steps + 1],
                            next.0,
                            next.1,
                            oblock,
                        );
                        lemma_pages_records_push(pages@, next.0);
                        lemma_pages_records_push(gb.take(steps as int + 1), gb[steps + 1]);
                        assert(gb.take(steps as int + 2).drop_last() =~= gb.take(steps as int + 1));
                        assert(gb.take(steps as int + 2).last() == gb[steps + 1]);
                        assert(pages_records(gb.take(steps as int + 2)) =~~= pages_records(
                            gb.take(steps as int + 1),
                        ) + gb[steps + 1].records());
                        assert(pages_records(pages@.push(next.0)) =~~= pages_records(
                            gb.take(steps as int + 2),
                        ));
                    }
                }
                let ghost prev_pages = pages@;
                let ghost prev_links = dlinks;
                pages.push(next.0);
                proof {
                    assert(prev_pages.len() == prev_links.len());
                    assert(prev_pages.len() >= 1);
                    assert(crate::page::page_image(prev_pages[0], prev_links[0])
                        == data@.subrange(b as int * 1024, b as int * 1024 + 1024));
                    assert(forall|k: int|
                        0 <= k < prev_links.len() - 1 ==> ((#[trigger] prev_links[k]) as int)
                            < n_ov);
                    assert forall|k: int|
                        #![trigger prev_pages[k], prev_links[k]]
                        1 <= k < prev_pages.len() implies crate::page::page_image(
                        prev_pages[k],
                        prev_links[k],
                    ) == ovflow@.subrange(
                        (prev_links[k - 1] as int) * 1024,
                        (prev_links[k - 1] as int) * 1024 + 1024,
                    ) by {
                        let pk = prev_pages[k];
                        let lk = prev_links[k];
                    }
                    assert(forall|k: int|
                        0 <= k < prev_links.len() - 1 ==> (#[trigger] prev_links[k])
                            != crate::page::NO_OVFLOW);
                    assert(ov == prev_links[prev_links.len() - 1]);
                    assert(crate::page::page_image(next.0, next.1) == ovflow@.subrange(
                        ov as int * 1024,
                        ov as int * 1024 + 1024,
                    ));
                    lemma_walk_chain_extend(
                        prev_pages,
                        prev_links,
                        next.0,
                        next.1,
                        ov,
                        ovflow@,
                        n_ov as int,
                        data@.subrange(b as int * 1024, b as int * 1024 + 1024),
                    );
                    dlinks = dlinks.push(next.1);
                    assert(pages@ =~= prev_pages.push(next.0));
                    assert(forall|j: int| 0 <= j < prev_pages.len() ==> pages@[j] == prev_pages[j]);
                }
                ov = next.1;
                steps = steps + 1;
            }
            proof {
                if gvalid {
                    // the walk ended exactly at the chain's end
                    if steps + 1 < gb.len() {
                        assert(glinks[steps as int] != crate::page::NO_OVFLOW);
                        assert(false);
                    }
                    assert(gb.take(steps as int + 1) =~= gb);
                    assert(pages_records(pages@) == pages_records(gb));
                }
            }
            let cnt = match check_bucket(&pages, &choice_vec, num_attrs, depth, sp, b as u32) {
                Some(c) => c,
                None => {
                    proof {
                        if gvalid {
                            assert forall|rec: Seq<u8>|
                                pages_records(pages@).contains(rec) implies record_ok(
                                rec,
                                num_attrs,
                            ) && address_of(
                                rec_hash(rec, choice_vec.data@),
                                depth as nat,
                                sp as int,
                            ) == b as int by {
                                assert(pages_records(gb).contains(rec));
                                assert(grel.bucket_recs(b as int).contains(rec));
                            }
                            assert(bucket_records_at(
                                pages@,
                                choice_vec.data@,
                                num_attrs,
                                depth as nat,
                                sp as int,
                                b as int,
                            ));
                        }
                    }
                    return Err(RelError::CorruptImage);
                },
            };
            if cnt > 0xffff_ffff_ffff_ffffu64 - total {
                proof {
                    if gvalid {
                        lemma_buckets_stored_congruent_prefix(
                            buckets@,
                            grel.buckets@,
                            b as int,
                        );
                        lemma_buckets_stored_prefix_len(grel.buckets@, b as int + 1);
                        assert(grel.buckets@.take(b as int + 1).drop_last()
                            =~= grel.buckets@.take(b as int));
                        assert(grel.buckets@.take(b as int + 1).last()
                            == grel.buckets@[b as int]);
                        pages_records(gb).to_multiset_ensures();
                        assert(buckets_stored(grel.buckets@.take(b as int + 1)).len()
                            == buckets_stored(grel.buckets@.take(b as int)).len()
                            + pages_records(gb).len());
                        assert(total + cnt <= grel.num_tuples);
                    }
                }
                return Err(RelError::CorruptImage);
            }
            let ghost before = buckets@;
            total = total + cnt;
            buckets.push(pages);
            proof {
                lemma_buckets_stored_push(before, pages);
                pages_records(pages@).to_multiset_ensures();
                assert(buckets_stored(buckets@).len() == buckets_stored(before).len()
                    + pages_records(pages@).to_multiset().len());
                assert forall|bb: int, rec: Seq<u8>|
                    0 <= bb < b + 1 && (#[trigger] pages_records(buckets@[bb]@).contains(
                        rec,
                    )) implies record_ok(rec, num_attrs) && address_of(
                    rec_hash(rec, choice_vec.data@),
                    depth as nat,
                    sp as int,
                ) == bb by {
                    if bb < b {
                        assert(buckets@[bb] == before[bb]);
                        assert(pages_records(before[bb]@).contains(rec));
                    }
                }
                assert forall|bb: int| 0 <= bb < b + 1 implies bucket_pages_ok(
                    #[trigger] buckets@[bb]@,
                ) by {
                    if bb < b {
                        assert(buckets@[bb] == before[bb]);
                    }
                }
                // this bucket's chain, as walked, lies in the images
                assert forall|k: int|
                    0 <= k < dlinks.len() - 1 implies ((#[trigger] dlinks[k]) as int)
                    < ovflow@.len() / 1024 by {
                    assert((dlinks[k] as int) < n_ov);
                }
                assert forall|k: int|
                    #![trigger pages@[k], dlinks[k]]
                    1 <= k < pages@.len() implies crate::page::page_image(pages@[k], dlinks[k])
                    == ovflow@.subrange(
                    (dlinks[k - 1] as int) * 1024,
                    (dlinks[k - 1] as int) * 1024 + 1024,
                ) by {
                    let pk = pages@[k];
                    let lk = dlinks[k];
                }
                assert(chain_in_images(
                    pages@,
                    data@.subrange(b as int * 1024, b as int * 1024 + 1024),
                    ovflow@,
                    dlinks,
                ));
                assert forall|bb: int| 0 <= bb < b + 1 implies #[trigger] bucket_in_images(
                    buckets@[bb]@,
                    data@.subrange(bb * 1024, bb * 1024 + 1024),
                    ovflow@,
                ) by {
                    if bb < b {
                        assert(buckets@[bb] == before[bb]);
                        assert(bucket_in_images(
                            before[bb]@,
                            data@.subrange(bb * 1024, bb * 1024 + 1024),
                            ovflow@,
                        ));
                    }
                }
            }
            b = b + 1;
        }
        proof {
            if gvalid {
                lemma_buckets_stored_congruent_prefix(buckets@, grel.buckets@, np as int);
                assert(grel.buckets@.take(np as int) =~= grel.buckets@);
                assert(total == grel.stored().len());
            }
        }
        if total != nt {
            return Err(RelError::CorruptImage);
        }
        let rel = Relation {
            num_attrs,
            depth,
            split_pointer: sp,
            num_tuples: nt,
            num_pages: np,
            choice_vec,
            buckets,
        };
        proof {
            assert(rel.num_pages == pow2(rel.depth as nat) + rel.split_pointer);
            assert(rel.num_tuples == rel.stored().len());
            assert(rel.wf());
            // the rebuilt relation is one the images describe
            assert(info_image(rel) =~= info@) by {
                lemma_info_image_fields(rel);
                crate::bytes::lemma_be32_val_bytes(info@.subrange(0, 4));
                crate::bytes::lemma_be32_val_bytes(info@.subrange(5, 9));
                crate::bytes::lemma_be64_val_bytes(info@.subrange(9, 17));
                crate::bytes::lemma_be64_val_bytes(info@.subrange(17, 25));
                assert(info_image(rel).subrange(0, 4) =~= crate::bytes::be32_bytes(
                    rel.num_attrs,
                ));
                assert(info_image(rel).subrange(5, 9) =~= crate::bytes::be32_bytes(
                    rel.split_pointer,
                ));
                assert(info_image(rel).subrange(9, 17) =~= crate::bytes::be64_bytes(
                    rel.num_pages,
                ));
                assert(info_image(rel).subrange(17, 25) =~= crate::bytes::be64_bytes(
                    rel.num_tuples,
                ));
                assert(info_image(rel).subrange(25, 185) =~= cv_image(rel.choice_vec.data@));
                assert(cv_image(rel.choice_vec.data@) =~= info@.subrange(25, 185));
            }
            assert(images_wf(rel, info@, data@, ovflow@));
            assert(valid_images(info@, data@, ovflow@));
        }
        Ok(rel)
    }
}

/// A record addressed to bucket `b` is consistent with any partial hash its
/// full hash matches.
proof fn lemma_match_consistent(fh: u32, h: u32, m: u32, np: u32, b: int, d: nat, sp: int)
    requires
        np >= 1,
        fh & m == h,
        0 <= b < np,
        d <= 31,
        0 <= sp < pow2(d),
        np == pow2(d) + sp,
        address_of(fh, d, sp) == b,
    ensures
        crate::partial_hash::id_consistent(h, m, np, b as u32),
{
    vstd::arithmetic::power2::lemma_pow2_adds(d, 1);
    vstd::arithmetic::power2::lemma2_to64();
    crate::util::lemma_floor_log2_unique(np as nat, d);
    assert(crate::partial_hash::page_depth(np) == d);
    assert(crate::partial_hash::page_split(np) == sp);
    lemma_mod_pow2_split(fh as nat, d);
    vstd::arithmetic::power2::lemma_pow2_pos(d);
    vstd::arithmetic::div_mod::lemma_mod_division_less_than_divisor(fh as int, pow2(d) as int);
    vstd::arithmetic::div_mod::lemma_mod_division_less_than_divisor(
        fh as int,
        pow2(d + 1) as int,
    );
    let low = (fh as nat) % pow2(d);
    let w = crate::partial_hash::tag_width(np, b as u32);
    assert(w <= 32);
    if low < sp {
        assert(b == (fh as nat) % pow2(d + 1));
        assert(b < sp || b >= pow2(d)) by {
            if b == low + pow2(d) {
            } else {
                assert(b == low);
            }
        }
        assert(w == d + 1);
        crate::util::lemma_mask32_is_mod(b as u32, w);
        crate::util::lemma_mask32_is_mod(fh, w);
        vstd::arithmetic::div_mod::lemma_small_mod(b as nat, pow2(d + 1));
        assert((b as u32) & crate::util::mask32(w) == fh & crate::util::mask32(w));
    } else {
        assert(b == low);
        if b < sp || b >= pow2(d) {
            assert(false);
        }
        assert(w == d);
        crate::util::lemma_mask32_is_mod(b as u32, w);
        crate::util::lemma_mask32_is_mod(fh, w);
        vstd::arithmetic::div_mod::lemma_small_mod(b as nat, pow2(d));
        assert((b as u32) & crate::util::mask32(w) == fh & crate::util::mask32(w));
    }
    lemma_consistent_bits(fh, h, m, b as u32, crate::util::mask32(w));
}

} // verus!
