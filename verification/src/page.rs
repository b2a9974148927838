//! Fixed-size pages holding NUL-terminated serialized tuples, and their
//! 1024-byte on-disk images.

use vstd::prelude::*;

verus! {

use crate::bytes::{
    be32_bytes, count_byte, find_in, lemma_count_byte_bounds, lemma_split_append,
    lemma_split_bytes_count, lemma_split_bytes_first, lemma_split_bytes_len, push_be32,
    split_bytes,
};
use crate::query::{matches_spec, Query};
use crate::tuple::Tuple;
use vstd::utf8::valid_utf8;

/// Size in bytes of a page image on disk.
pub const PAGE_SIZE: usize = 1024;

/// Size in bytes of a page image's header: free offset, overflow id and
/// tuple count, 4 bytes each.
pub const PAGE_HEADER_SIZE: usize = 12;

/// Size in bytes of a page's data region.
pub const PAGE_DATA_SIZE: usize = 1012;

/// The overflow id that marks the end of an overflow chain.
pub const NO_OVFLOW: u32 = 0xffff_ffff;

/// An in-memory page: serialized tuples packed from offset 0 up to `free`,
/// zero bytes beyond.
#[derive(Debug)]
pub struct Page {
    pub free: u32,
    pub num_tuples: u32,
    pub data: Vec<u8>,
}

/// A well-formed serialized record: some NUL-free, valid UTF-8 content
/// followed by a single NUL terminator.
pub open spec fn wf_record(rec: Seq<u8>) -> bool {
    &&& rec.len() >= 1
    &&& rec.last() == 0
    &&& (forall|i: int| 0 <= i < rec.len() - 1 ==> rec[i] != 0)
    &&& valid_utf8(rec.drop_last())
}

/// Whether a stored record (without its NUL) matches a query's known bytes.
pub open spec fn rec_matches(rec: Seq<u8>, qb: Seq<Option<Seq<u8>>>) -> bool {
    matches_spec(qb, split_bytes(rec, 44))
}

/// The records of `records` that match the query, in order.
pub open spec fn select_records(records: Seq<Seq<u8>>, qb: Seq<Option<Seq<u8>>>) -> Seq<Seq<u8>>
    decreases records.len(),
{
    if records.len() == 0 {
        Seq::empty()
    } else {
        select_records(records.drop_last(), qb) + (if rec_matches(records.last(), qb) {
            seq![records.last()]
        } else {
            Seq::<Seq<u8>>::empty()
        })
    }
}

/// Every selected record is one of the records and matches the query.
pub proof fn lemma_select_records_sound(records: Seq<Seq<u8>>, qb: Seq<Option<Seq<u8>>>)
    ensures
        select_records(records, qb).len() <= records.len(),
        forall|k: int|
            0 <= k < select_records(records, qb).len() ==> records.contains(
                #[trigger] select_records(records, qb)[k],
            ) && rec_matches(select_records(records, qb)[k], qb),
    decreases records.len(),
{
    if records.len() > 0 {
        lemma_select_records_sound(records.drop_last(), qb);
        assert forall|k: int|
            0 <= k < select_records(records, qb).len() implies records.contains(
            #[trigger] select_records(records, qb)[k],
        ) && rec_matches(select_records(records, qb)[k], qb) by {
            let pre = select_records(records.drop_last(), qb);
            if k < pre.len() {
                assert(select_records(records, qb)[k] == pre[k]);
                assert(records.drop_last().contains(pre[k]));
                let j = choose|j: int|
                    0 <= j < records.drop_last().len() && records.drop_last()[j] == pre[k];
                assert(records[j] == pre[k]);
            } else {
                assert(select_records(records, qb)[k] == records.last());
                assert(records[records.len() - 1] == records.last());
            }
        }
    }
}

/// Every matching record appears among the selected ones.
pub proof fn lemma_select_records_complete(
    records: Seq<Seq<u8>>,
    qb: Seq<Option<Seq<u8>>>,
    k: int,
)
    requires
        0 <= k < records.len(),
        rec_matches(records[k], qb),
    ensures
        select_records(records, qb).contains(records[k]),
    decreases records.len(),
{
    if k == records.len() - 1 {
        let sel = select_records(records, qb);
        assert(sel[sel.len() - 1] == records.last());
    } else {
        lemma_select_records_complete(records.drop_last(), qb, k);
        let pre = select_records(records.drop_last(), qb);
        let j = choose|j: int| 0 <= j < pre.len() && pre[j] == records.drop_last()[k];
        assert(select_records(records, qb)[j] == records[k]);
    }
}

/// Selection distributes over concatenation of record sequences.
pub proof fn lemma_select_records_concat(a: Seq<Seq<u8>>, b: Seq<Seq<u8>>, qb: Seq<Option<Seq<u8>>>)
    ensures
        select_records(a + b, qb) =~~= select_records(a, qb) + select_records(b, qb),
    decreases b.len(),
{
    if b.len() == 0 {
        assert(a + b =~= a);
    } else {
        assert((a + b).drop_last() =~= a + b.drop_last());
        assert((a + b).last() == b.last());
        lemma_select_records_concat(a, b.drop_last(), qb);
    }
}

/// A wildcard query selects every record.
pub proof fn lemma_select_records_wildcard(records: Seq<Seq<u8>>, qb: Seq<Option<Seq<u8>>>)
    requires
        forall|i: int| 0 <= i < qb.len() ==> (#[trigger] qb[i]) is None,
    ensures
        select_records(records, qb) =~~= records,
    decreases records.len(),
{
    if records.len() > 0 {
        lemma_select_records_wildcard(records.drop_last(), qb);
    }
}

/// The records of a chain of pages, in page order.
pub open spec fn pages_records(pages: Seq<Page>) -> Seq<Seq<u8>>
    decreases pages.len(),
{
    if pages.len() == 0 {
        Seq::empty()
    } else {
        pages_records(pages.drop_last()) + pages.last().records()
    }
}

proof fn lemma_be32_image(v: u32, s: Seq<u8>, at: int)
    requires
        0 <= at,
        at + 4 <= s.len(),
        v == crate::bytes::be32_val(s.subrange(at, at + 4)),
    ensures
        forall|i: int| 0 <= i < 4 ==> crate::bytes::be32_bytes(v)[i] == s[at + i],
{
    crate::bytes::lemma_be32_val_bytes(s.subrange(at, at + 4));
}

/// The 1024-byte on-disk image of a page linked to overflow page `ovflow`.
pub open spec fn page_image(p: Page, ovflow: u32) -> Seq<u8> {
    be32_bytes(p.free) + be32_bytes(ovflow) + be32_bytes(p.num_tuples) + p.data@
}

/// Some well-formed page, with some overflow link, has exactly this image.
pub open spec fn valid_block(block: Seq<u8>) -> bool {
    exists|p: Page, ov: u32| p.wf() && page_image(p, ov) == block
}

/// A well-formed page's image determines the page: the header fields are
/// the big-endian reads of the image and the data region is its tail.
pub proof fn lemma_image_determines_page(p: Page, ov: u32, block: Seq<u8>)
    requires
        p.wf(),
        page_image(p, ov) == block,
    ensures
        block.len() == 1024,
        p.free == crate::bytes::be32_val(block.subrange(0, 4)),
        ov == crate::bytes::be32_val(block.subrange(4, 8)),
        p.num_tuples == crate::bytes::be32_val(block.subrange(8, 12)),
        p.data@ =~= block.subrange(12, 1024),
{
    assert(block.subrange(0, 4) =~= be32_bytes(p.free));
    assert(block.subrange(4, 8) =~= be32_bytes(ov));
    assert(block.subrange(8, 12) =~= be32_bytes(p.num_tuples));
    crate::bytes::lemma_be32_roundtrip(p.free);
    crate::bytes::lemma_be32_roundtrip(ov);
    crate::bytes::lemma_be32_roundtrip(p.num_tuples);
}

impl Page {
    /// The used part of the data region.
    pub open spec fn content(self) -> Seq<u8> {
        self.data@.take(self.free as int)
    }

    /// The stored records, without their NUL terminators.
    pub open spec fn records(self) -> Seq<Seq<u8>> {
        split_bytes(self.content(), 0).drop_last()
    }

    /// The page's data region is intact: records packed from offset 0 up to
    /// `free`, zeroes beyond, and the header fields consistent.
    pub open spec fn wf(self) -> bool {
        &&& self.data@.len() == 1012
        &&& self.free <= 1012
        &&& (self.free > 0 ==> self.data@[self.free - 1] == 0)
        &&& (forall|i: int| self.free <= i < 1012 ==> self.data@[i] == 0)
        &&& self.num_tuples == self.records().len()
        &&& forall|k: int|
            0 <= k < self.records().len() ==> valid_utf8(#[trigger] self.records()[k])
    }

    /// A fresh page holding no tuples.
    pub fn empty() -> (r: Page)
        ensures
            r.wf(),
            r.free == 0,
            r.num_tuples == 0,
            r.records() =~~= Seq::<Seq<u8>>::empty(),
    {
        let mut data: Vec<u8> = Vec::new();
        let mut i: usize = 0;
        while i < PAGE_DATA_SIZE
            invariant
                0 <= i <= 1012,
                data@.len() == i,
                forall|j: int| 0 <= j < i ==> data@[j] == 0,
            decreases 1012 - i,
        {
            data.push(0);
            i = i + 1;
        }
        let r = Page { free: 0, num_tuples: 0, data };
        proof {
            assert(r.content() =~= Seq::<u8>::empty());
            assert(r.records() =~~= Seq::<Seq<u8>>::empty());
        }
        r
    }

    /// Unused bytes of the data region.
    pub fn free_space(&self) -> (r: usize)
        requires
            self.wf(),
        ensures
            r == 1012 - self.free,
    {
        PAGE_DATA_SIZE - (self.free as usize)
    }

    /// Append a serialized record if it fits; report whether it was added.
    pub fn add_tuple(&mut self, tuple: &[u8]) -> (r: bool)
        requires
            old(self).wf(),
            wf_record(tuple@),
        ensures
            final (self).wf(),
            tuple@.len() <= 1012 - old(self).free ==> r && final (self).records()
                =~~= old(self).records().push(tuple@.drop_last()) && final (self).free == old(
                self,
            ).free + tuple@.len() && final (self).num_tuples == old(self).num_tuples + 1,
            tuple@.len() > 1012 - old(self).free ==> !r && *final (self) == *old(self),
    {
        let len = tuple.len();
        if PAGE_DATA_SIZE - (self.free as usize) < len {
            return false;
        }
        proof {
            lemma_split_bytes_count(old(self).content(), 0);
            lemma_count_byte_bounds(old(self).content(), 0);
        }
        let start = self.free as usize;
        let mut k: usize = 0;
        while k < len
            invariant
                0 <= k <= len,
                len == tuple@.len(),
                start + len <= 1012,
                self.data@.len() == 1012,
                start == self.free,
                self.num_tuples == old(self).num_tuples,
                self.free == old(self).free,
                forall|i: int| 0 <= i < start ==> self.data@[i] == old(self).data@[i],
                forall|i: int| 0 <= i < k ==> self.data@[start + i] == tuple@[i],
                forall|i: int| start + k <= i < 1012 ==> self.data@[i] == old(self).data@[i],
            decreases len - k,
        {
            self.data[start + k] = tuple[k];
            k = k + 1;
        }
        self.free = self.free + (len as u32);
        self.num_tuples = self.num_tuples + 1;
        proof {
            let oldc = old(self).content();
            assert(self.content() =~= oldc + tuple@);
            lemma_split_append(oldc, tuple@, 0);
            lemma_split_bytes_first(tuple@, 0, tuple@.len() - 1);
            lemma_split_bytes_len(tuple@, 0);
            assert(tuple@.skip(tuple@.len() as int - 1 + 1) =~= Seq::<u8>::empty());
            assert(split_bytes(tuple@, 0) =~~= seq![tuple@.take(tuple@.len() - 1)] + seq![
                Seq::<u8>::empty(),
            ]);
            assert(tuple@.take(tuple@.len() - 1) =~= tuple@.drop_last());
            assert(split_bytes(tuple@, 0).drop_last() =~~= seq![tuple@.drop_last()]);
            assert(self.records() =~~= split_bytes(oldc, 0).drop_last() + split_bytes(
                tuple@,
                0,
            ).drop_last()) by {
                lemma_split_bytes_len(tuple@, 0);
                assert(split_bytes(self.content(), 0) =~~= split_bytes(oldc, 0).drop_last()
                    + split_bytes(tuple@, 0));
            }
            assert(self.records() =~~= old(self).records().push(tuple@.drop_last()));
            assert forall|kk: int| 0 <= kk < self.records().len() implies valid_utf8(
                #[trigger] self.records()[kk],
            ) by {
                if kk < old(self).records().len() {
                    assert(self.records()[kk] == old(self).records()[kk]);
                } else {
                    assert(self.records()[kk] == tuple@.drop_last());
                }
            }
        }
        true
    }

    /// All stored tuples, parsed, in storage order.
    pub fn get_tuple_list(&self) -> (r: Vec<Tuple>)
        requires
            self.wf(),
        ensures
            r@.len() == self.records().len(),
            forall|k: int|
                0 <= k < r@.len() ==> (#[trigger] r@[k]).byte_values() == split_bytes(
                    self.records()[k],
                    44,
                ),
    {
        let mut out: Vec<Tuple> = Vec::new();
        let mut pos: usize = 0;
        let free = self.free as usize;
        let ghost records = self.records();
        proof {
            assert(self.content().skip(0) =~= self.content());
            assert(split_bytes(self.content(), 0).drop_last() =~~= records.skip(0));
        }
        while pos < free
            invariant
                self.wf(),
                records == self.records(),
                free == self.free,
                0 <= pos <= free,
                out@.len() <= records.len(),
                split_bytes(self.content().skip(pos as int), 0).drop_last() =~~= records.skip(
                    out@.len() as int,
                ),
                pos == free ==> out@.len() == records.len(),
                forall|k: int|
                    0 <= k < out@.len() ==> (#[trigger] out@[k]).byte_values() == split_bytes(
                        records[k],
                        44,
                    ),
            decreases free - pos,
        {
            let ghost rem = self.content().skip(pos as int);
            let z = find_in(self.data.as_slice(), pos, free, 0);
            proof {
                assert(forall|i: int| 0 <= i < rem.len() ==> rem[i] == self.data@[pos + i]);
                if z == free {
                    assert(rem[free - 1 - pos] == 0);
                    assert(false);
                }
                lemma_split_bytes_first(rem, 0, z - pos);
                lemma_split_bytes_len(self.content().skip(z + 1), 0);
                assert(rem.take(z - pos) =~= self.content().subrange(pos as int, z as int));
                assert(rem.skip(z - pos + 1) =~= self.content().skip(z + 1));
                assert(split_bytes(rem, 0).drop_last() =~~= seq![
                    self.content().subrange(pos as int, z as int),
                ] + split_bytes(self.content().skip(z + 1), 0).drop_last());
                assert(records.skip(out@.len() as int)[0] == records[out@.len() as int]);
                assert(records[out@.len() as int] == self.content().subrange(
                    pos as int,
                    z as int,
                ));
                assert(records.skip(out@.len() as int).drop_first() =~= records.skip(
                    out@.len() as int + 1,
                ));
                assert((seq![self.content().subrange(pos as int, z as int)] + split_bytes(
                    self.content().skip(z + 1),
                    0,
                ).drop_last()).drop_first() =~~= split_bytes(
                    self.content().skip(z + 1),
                    0,
                ).drop_last());
                assert(split_bytes(self.content().skip(z + 1), 0).drop_last() =~~= records.skip(
                    out@.len() as int + 1,
                ));
                assert(self.content().subrange(pos as int, z as int) =~= self.data@.subrange(
                    pos as int,
                    z as int,
                ));
                assert(valid_utf8(records[out@.len() as int]));
            }
            let chunk = vstd::slice::slice_subrange(self.data.as_slice(), pos, z);
            let t = Tuple::parse_bytes(chunk);
            proof {
                crate::bytes::lemma_split_bytes_len(self.content().skip(z + 1), 0);
            }
            out.push(t);
            pos = z + 1;
            proof {
                if pos == free {
                    assert(self.content().skip(pos as int) =~= Seq::<u8>::empty());
                    assert(split_bytes(Seq::<u8>::empty(), 0).drop_last() =~~= Seq::<
                        Seq<u8>,
                    >::empty());
                    assert(records.skip(out@.len() as int).len() == 0);
                }
            }
        }
        proof {
            if pos == free && free == 0 {
                assert(out@.len() == records.len());
            }
        }
        out
    }

    /// The stored tuples that match the query, in storage order.
    pub fn get_tuples_matching(&self, query: &Query) -> (r: Vec<Tuple>)
        requires
            self.wf(),
            forall|k: int|
                0 <= k < self.records().len() ==> split_bytes(
                    #[trigger] self.records()[k],
                    44,
                ).len() == query.matches@.len(),
        ensures
            r@.len() == select_records(self.records(), query.byte_matches()).len(),
            forall|k: int|
                0 <= k < r@.len() ==> (#[trigger] r@[k]).byte_values() == split_bytes(
                    select_records(self.records(), query.byte_matches())[k],
                    44,
                ),
    {
        let ghost records = self.records();
        let ghost qb = query.byte_matches();
        let mut ts = self.get_tuple_list();
        let ghost all = ts@;
        let mut out: Vec<Tuple> = Vec::new();
        let ghost mut i: int = 0;
        proof {
            assert(records.take(0) =~= Seq::<Seq<u8>>::empty());
        }
        while ts.len() > 0
            invariant
                records == self.records(),
                qb == query.byte_matches(),
                self.wf(),
                0 <= i <= records.len(),
                all.len() == records.len(),
                forall|k: int|
                    0 <= k < all.len() ==> (#[trigger] all[k]).byte_values() == split_bytes(
                        records[k],
                        44,
                    ),
                ts@ =~= all.skip(i),
                out@.len() == select_records(records.take(i), qb).len(),
                forall|k: int|
                    0 <= k < out@.len() ==> (#[trigger] out@[k]).byte_values() == split_bytes(
                        select_records(records.take(i), qb)[k],
                        44,
                    ),
                forall|k: int|
                    0 <= k < records.len() ==> split_bytes(#[trigger] records[k], 44).len()
                        == query.matches@.len(),
            decreases ts@.len(),
        {
            let t = ts.remove(0);
            proof {
                assert(t == all[i]);
                assert(ts@ =~= all.skip(i + 1));
                assert(t.byte_values() == split_bytes(records[i], 44));
                assert(t.byte_values().len() == t.values@.len());
            }
            let m = query.matches_tuple(&t);
            proof {
                assert(records.take(i + 1).drop_last() =~= records.take(i));
                assert(records.take(i + 1).last() == records[i]);
                assert(m == matches_spec(qb, t.byte_values()));
                assert(matches_spec(qb, t.byte_values()) == matches_spec(
                    qb,
                    split_bytes(records[i], 44),
                ));
                assert(m == rec_matches(records[i], qb));
            }
            if m {
                out.push(t);
            }
            proof {
                i = i + 1;
            }
        }
        proof {
            assert(records.take(records.len() as int) =~= records);
        }
        out
    }

    /// Parse a 1024-byte on-disk image into a page and its overflow link,
    /// validating every well-formedness condition: header bounds, a NUL at
    /// the end of the used region, zeroes beyond it, a matching tuple count
    /// and valid UTF-8 in every record.
    pub fn read(block: &[u8]) -> (r: Option<(Page, u32)>)
        requires
            block@.len() == 1024,
        ensures
            r is Some <==> valid_block(block@),
            r is Some ==> {
                let (p, ov) = r->0;
                &&& p.wf()
                &&& page_image(p, ov) == block@
            },
    {
        let free = crate::bytes::read_be32(block, 0);
        let ovflow = crate::bytes::read_be32(block, 4);
        let num_tuples = crate::bytes::read_be32(block, 8);
        if free > 1012 {
            proof {
                if valid_block(block@) {
                    let (p, ov) = choose|p: Page, ov: u32|
                        p.wf() && page_image(p, ov) == block@;
                    lemma_image_determines_page(p, ov, block@);
                }
            }
            return None;
        }
        let data = vstd::slice::slice_to_vec(vstd::slice::slice_subrange(block, 12, 1024));
        let freeu = free as usize;
        if free > 0 && data[freeu - 1] != 0 {
            proof {
                if valid_block(block@) {
                    let (p, ov) = choose|p: Page, ov: u32|
                        p.wf() && page_image(p, ov) == block@;
                    lemma_image_determines_page(p, ov, block@);
                    assert(p.data@[freeu - 1] == data@[freeu - 1]);
                }
            }
            return None;
        }
        let mut z: usize = freeu;
        while z < PAGE_DATA_SIZE
            invariant
                block@.len() == 1024,
                data@ == block@.subrange(12, 1024),
                data@.len() == 1012,
                freeu == free,
                free == crate::bytes::be32_val(block@.subrange(0, 4)),
                freeu <= z <= 1012,
                forall|i: int| freeu <= i < z ==> data@[i] == 0,
            decreases 1012 - z,
        {
            if data[z] != 0 {
                proof {
                    if valid_block(block@) {
                        let (p, ov) = choose|p: Page, ov: u32|
                            p.wf() && page_image(p, ov) == block@;
                        lemma_image_determines_page(p, ov, block@);
                        assert(p.data@[z as int] == data@[z as int]);
                    }
                }
                return None;
            }
            z = z + 1;
        }
        // walk the records, checking the count and that each is valid text
        let ghost content = data@.take(free as int);
        let mut pos: usize = 0;
        let mut count: u32 = 0;
        let ghost records = split_bytes(content, 0).drop_last();
        proof {
            assert(content.skip(0) =~= content);
            assert(split_bytes(content, 0).drop_last() =~~= records.skip(0));
            lemma_split_bytes_count(content, 0);
            lemma_count_byte_bounds(content, 0);
        }
        while pos < freeu
            invariant
                block@.len() == 1024,
                data@ == block@.subrange(12, 1024),
                data@.len() == 1012,
                freeu <= 1012,
                freeu > 0 ==> data@[freeu - 1] == 0,
                content == data@.take(free as int),
                freeu == free,
                records == split_bytes(content, 0).drop_last(),
                records.len() <= 1012,
                free == crate::bytes::be32_val(block@.subrange(0, 4)),
                num_tuples == crate::bytes::be32_val(block@.subrange(8, 12)),
                0 <= pos <= freeu,
                count <= records.len(),
                split_bytes(content.skip(pos as int), 0).drop_last() =~~= records.skip(
                    count as int,
                ),
                pos == freeu ==> count == records.len(),
                forall|k: int| 0 <= k < count ==> valid_utf8(#[trigger] records[k]),
            decreases freeu - pos,
        {
            let ghost rem = content.skip(pos as int);
            let z2 = find_in(vstd::slice::slice_subrange(block, 12, 1024), pos, freeu, 0);
            proof {
                assert(forall|i: int| 0 <= i < rem.len() ==> rem[i] == data@[pos + i]);
                if z2 == freeu {
                    assert(rem[freeu - 1 - pos] == 0);
                    assert(false);
                }
                lemma_split_bytes_first(rem, 0, z2 - pos);
                lemma_split_bytes_len(content.skip(z2 + 1), 0);
                assert(rem.take(z2 - pos) =~= content.subrange(pos as int, z2 as int));
                assert(rem.skip(z2 - pos + 1) =~= content.skip(z2 + 1));
                assert(split_bytes(rem, 0).drop_last() =~~= seq![
                    content.subrange(pos as int, z2 as int),
                ] + split_bytes(content.skip(z2 + 1), 0).drop_last());
                assert(records.skip(count as int)[0] == records[count as int]);
                assert(records[count as int] == content.subrange(pos as int, z2 as int));
                assert(records.skip(count as int).drop_first() =~= records.skip(count as int + 1));
                assert((seq![content.subrange(pos as int, z2 as int)] + split_bytes(
                    content.skip(z2 + 1),
                    0,
                ).drop_last()).drop_first() =~~= split_bytes(content.skip(z2 + 1), 0).drop_last());
                assert(content.subrange(pos as int, z2 as int) =~= data@.subrange(
                    pos as int,
                    z2 as int,
                ));
            }
            let chunk = vstd::slice::slice_subrange(
                vstd::slice::slice_subrange(block, 12, 1024),
                pos,
                z2,
            );
            if !crate::bytes::is_valid_utf8(chunk) {
                proof {
                    if valid_block(block@) {
                        let (p, ov) = choose|p: Page, ov: u32|
                            p.wf() && page_image(p, ov) == block@;
                        lemma_image_determines_page(p, ov, block@);
                        assert(p.content() =~= content);
                        assert(p.records() == records);
                        assert(valid_utf8(records[count as int]));
                    }
                }
                return None;
            }
            count = count + 1;
            pos = z2 + 1;
            proof {
                if pos == freeu {
                    assert(content.skip(pos as int) =~= Seq::<u8>::empty());
                    assert(split_bytes(Seq::<u8>::empty(), 0).drop_last() =~~= Seq::<
                        Seq<u8>,
                    >::empty());
                    assert(records.skip(count as int).len() == 0);
                }
            }
        }
        proof {
            if freeu == 0 {
                assert(count == records.len());
            }
        }
        if count != num_tuples {
            proof {
                if valid_block(block@) {
                    let (p, ov) = choose|p: Page, ov: u32|
                        p.wf() && page_image(p, ov) == block@;
                    lemma_image_determines_page(p, ov, block@);
                    assert(p.content() =~= content);
                    assert(p.records() == records);
                    assert(p.num_tuples == count);
                }
            }
            return None;
        }
        let p = Page { free, num_tuples, data };
        proof {
            assert(p.content() == content);
            assert(p.records() == records);
            assert(page_image(p, ovflow) =~= block@) by {
                assert(block@.subrange(12, 1024) =~= p.data@);
                assert(forall|i: int|
                    0 <= i < 4 ==> crate::bytes::be32_bytes(p.free)[i] == block@[i]) by {
                    lemma_be32_image(p.free, block@, 0);
                }
                assert(forall|i: int|
                    0 <= i < 4 ==> crate::bytes::be32_bytes(ovflow)[i] == block@[4 + i]) by {
                    lemma_be32_image(ovflow, block@, 4);
                }
                assert(forall|i: int|
                    0 <= i < 4 ==> crate::bytes::be32_bytes(p.num_tuples)[i] == block@[8 + i])
                    by {
                    lemma_be32_image(p.num_tuples, block@, 8);
                }
            }
            assert(valid_block(block@)) by {
                assert(p.wf() && page_image(p, ovflow) == block@);
            }
        }
        Some((p, ovflow))
    }

    /// The 1024-byte image of this page, naming `ovflow` as its overflow
    /// page (or `NO_OVFLOW`).
    pub fn write(&self, ovflow: u32) -> (r: Vec<u8>)
        requires
            self.wf(),
        ensures
            r@ == page_image(*self, ovflow),
            r@.len() == 1024,
    {
        let mut out: Vec<u8> = Vec::new();
        push_be32(&mut out, self.free);
        push_be32(&mut out, ovflow);
        push_be32(&mut out, self.num_tuples);
        let mut k: usize = 0;
        let ghost header = out@;
        while k < PAGE_DATA_SIZE
            invariant
                self.data@.len() == 1012,
                0 <= k <= 1012,
                out@ =~= header + self.data@.take(k as int),
            decreases 1012 - k,
        {
            let b = self.data[k];
            out.push(b);
            proof {
                assert(self.data@.take(k + 1) =~= self.data@.take(k as int).push(
                    self.data@[k as int],
                ));
                assert(out@ =~= header + self.data@.take(k + 1));
            }
            k = k + 1;
        }
        proof {
            assert(self.data@.take(1012) =~= self.data@);
            assert(out@ =~= page_image(*self, ovflow));
        }
        out
    }
}

} // verus!
