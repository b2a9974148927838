//! The choice vector: for each of the 32 output hash bits, which attribute
//! and which bit of that attribute's hash supplies it.

use vstd::prelude::*;

verus! {

use crate::bytes::{
    all_digits, digits_val, find_in, lemma_split_bytes_first, lemma_split_bytes_len, parse_u32,
    split_bytes,
};
use vstd::set_lib::{lemma_int_range, set_int_range};
use vstd::string::StringSliceAdditionalSpecFns;

/// One entry: `(attribute index, bit of that attribute's hash)`.
pub type ChoiceEntry = (u32, u8);

/// A choice vector with exactly 32 entries; entry `i` supplies bit `i` of a
/// tuple's multi-attribute hash.
#[derive(Debug, Clone)]
pub struct ChoiceVec {
    pub data: Vec<ChoiceEntry>,
}

/// Why a choice-vector string failed to parse.
#[derive(Debug)]
pub enum ParseError {
    NumberUnparsable,
    TooManyTuples,
    InvalidEntry,
    InvalidAttr(u32),
    InvalidBit(u8),
}

impl ChoiceVec {
    /// Entries are present for all 32 hash bits and name valid hash bits.
    pub open spec fn wf(self) -> bool {
        &&& self.data@.len() == 32
        &&& forall|i: int| 0 <= i < 32 ==> (#[trigger] self.data@[i]).1 < 32
    }

    /// Well-formed, and every entry's attribute index is in range for a
    /// relation with `num_attrs` attributes.
    pub open spec fn valid_for(self, num_attrs: u32) -> bool {
        &&& self.wf()
        &&& forall|i: int| 0 <= i < 32 ==> (#[trigger] self.data@[i]).0 < num_attrs
    }
}

/// Entry `i` of `data` was generated rather than given: it is in range and
/// differs from every earlier entry.
pub open spec fn generated_ok(data: Seq<ChoiceEntry>, i: int, num_attrs: u32) -> bool {
    &&& data[i].0 < num_attrs
    &&& data[i].1 < 32
    &&& forall|j: int| 0 <= j < i ==> data[j] != data[i]
}

/// The parse of one `attr,bit` entry.
pub open spec fn entry_spec(e: Seq<u8>, num_attrs: u32) -> Result<ChoiceEntry, ParseError> {
    let parts = split_bytes(e, 44);
    if parts.len() != 2 {
        Err(ParseError::InvalidEntry)
    } else if !all_digits(parts[0]) || digits_val(parts[0]) > u32::MAX {
        Err(ParseError::NumberUnparsable)
    } else if !all_digits(parts[1]) || digits_val(parts[1]) > u8::MAX {
        Err(ParseError::NumberUnparsable)
    } else if digits_val(parts[0]) >= num_attrs {
        Err(ParseError::InvalidAttr(digits_val(parts[0]) as u32))
    } else if digits_val(parts[1]) >= 32 {
        Err(ParseError::InvalidBit(digits_val(parts[1]) as u8))
    } else {
        Ok((digits_val(parts[0]) as u32, digits_val(parts[1]) as u8))
    }
}

/// The parse of a sequence of entries, stopping with `TooManyTuples` once
/// `budget` entries have been consumed and more remain.
pub open spec fn cv_parse(entries: Seq<Seq<u8>>, num_attrs: u32, budget: int) -> Result<
    Seq<ChoiceEntry>,
    ParseError,
>
    decreases entries.len(),
{
    if entries.len() == 0 {
        Ok(Seq::empty())
    } else if budget <= 0 {
        Err(ParseError::TooManyTuples)
    } else {
        match entry_spec(entries[0], num_attrs) {
            Err(e) => Err(e),
            Ok(p) => match cv_parse(entries.drop_first(), num_attrs, budget - 1) {
                Err(e) => Err(e),
                Ok(rest) => Ok(seq![p] + rest),
            },
        }
    }
}

/// What parsing a whole choice-vector string yields: the given prefix of
/// entries, or the first error.
pub open spec fn cv_parse_result(input: Seq<u8>, num_attrs: u32) -> Result<
    Seq<ChoiceEntry>,
    ParseError,
> {
    cv_parse(split_bytes(input, 58), num_attrs, 32)
}

/// Every entry of a successfully parsed prefix is in range.
proof fn lemma_cv_parse_bounded(entries: Seq<Seq<u8>>, num_attrs: u32, budget: int)
    requires
        cv_parse(entries, num_attrs, budget) is Ok,
    ensures
        cv_parse(entries, num_attrs, budget)->Ok_0.len() == entries.len(),
        forall|i: int|
            0 <= i < entries.len() ==> {
                let p = #[trigger] cv_parse(entries, num_attrs, budget)->Ok_0[i];
                p.0 < num_attrs && p.1 < 32
            },
    decreases entries.len(),
{
    if entries.len() > 0 {
        lemma_cv_parse_bounded(entries.drop_first(), num_attrs, budget - 1);
        let p = entry_spec(entries[0], num_attrs)->Ok_0;
        let rest = cv_parse(entries.drop_first(), num_attrs, budget - 1)->Ok_0;
        assert forall|i: int|
            0 <= i < entries.len() implies {
            let q = #[trigger] cv_parse(entries, num_attrs, budget)->Ok_0[i];
            q.0 < num_attrs && q.1 < 32
        } by {
            if i > 0 {
                assert(cv_parse(entries, num_attrs, budget)->Ok_0[i] == rest[i - 1]);
            } else {
                let parts = split_bytes(entries[0], 44);
                crate::bytes::lemma_digits_val_nonneg(parts[0]);
                crate::bytes::lemma_digits_val_nonneg(parts[1]);
            }
        }
    }
}

/// Relies on rand::random: an arbitrary `u32`; nothing is assumed of it.
#[verifier::external_body]
fn random_u32() -> u32 {
    rand::random::<u32>()
}

/// Whether `data` already holds the entry `(attr, bit)`.
fn contains_entry(data: &Vec<ChoiceEntry>, attr: u32, bit: u8) -> (r: bool)
    ensures
        r <==> exists|j: int| 0 <= j < data@.len() && data@[j] == (attr, bit),
{
    let mut i: usize = 0;
    while i < data.len()
        invariant
            0 <= i <= data@.len(),
            forall|j: int| 0 <= j < i ==> data@[j] != (attr, bit),
        decreases data@.len() - i,
    {
        let e = data[i];
        if e.0 == attr && e.1 == bit {
            return true;
        }
        i = i + 1;
    }
    false
}

/// The set of bit positions below 32 that are set in `u`.
spec fn used_bits(u: u32) -> Set<int> {
    Set::new(|c: int| 0 <= c < 32 && (u >> (c as u32)) & 1 == 1)
}

proof fn lemma_or_bit_at(u: u32, b: u32, c: u32)
    by (bit_vector)
    requires
        b < 32,
        c < 32,
    ensures
        ((u | (1u32 << b)) >> c) & 1 == 1 <==> ((u >> c) & 1 == 1 || c == b),
{
}

proof fn lemma_low_ones_step(u: u32, b: u32)
    by (bit_vector)
    requires
        b < 32,
        u & (((1u32 << b) - 1) as u32) == ((1u32 << b) - 1) as u32,
        (u >> b) & 1 == 1,
    ensures
        b + 1 < 32 ==> u & (((1u32 << ((b + 1) as u32)) - 1) as u32) == ((1u32 << ((b + 1) as u32)) - 1) as u32,
        b + 1 == 32 ==> u == 0xffff_ffffu32,
{
}

/// Pick an entry that does not yet occur in `data`: usually by rejection
/// sampling with random draws, with a deterministic search as a fallback so
/// that the function always terminates. Fewer than 32 entries are present,
/// so a fresh pair of the form `(0, bit)` always exists.
fn generate_entry(data: &Vec<ChoiceEntry>, num_attrs: u32) -> (r: ChoiceEntry)
    requires
        num_attrs > 0,
        data@.len() < 32,
    ensures
        r.0 < num_attrs,
        r.1 < 32,
        forall|j: int| 0 <= j < data@.len() ==> data@[j] != r,
{
    let mut tries: usize = 0;
    while tries < 64
        invariant
            num_attrs > 0,
        decreases 64 - tries,
    {
        let attr = random_u32() % num_attrs;
        let bit = (random_u32() % 32) as u8;
        if !contains_entry(data, attr, bit) {
            return (attr, bit);
        }
        tries = tries + 1;
    }
    // Fallback: record which bits are paired with attribute 0, then take a
    // bit that is not. Fewer than 32 entries cannot cover all 32 bits.
    let mut used: u32 = 0;
    let mut i: usize = 0;
    proof {
        lemma_int_range(0, 32);
        assert(forall|c: u32| c < 32 ==> (0u32 >> c) & 1 == 0) by (bit_vector);
        assert(used_bits(0u32) =~= Set::<int>::empty());
    }
    while i < data.len()
        invariant
            0 <= i <= data@.len() < 32,
            used_bits(used).finite(),
            used_bits(used).len() <= i,
            forall|j: int|
                0 <= j < i && (#[trigger] data@[j]).0 == 0 && data@[j].1 < 32 ==> (used >> (
                data@[j].1 as u32)) & 1 == 1,
        decreases data@.len() - i,
    {
        let e = data[i];
        if e.0 == 0 && e.1 < 32 {
            let bb = e.1 as u32;
            let u2 = used | (1u32 << bb);
            proof {
                assert(used_bits(u2) =~= used_bits(used).insert(bb as int)) by {
                    assert forall|c: int| 0 <= c < 32 implies ((#[trigger] (u2 >> (c as u32))) & 1
                        == 1 <==> ((used >> (c as u32)) & 1 == 1 || c == bb as int)) by {
                        lemma_or_bit_at(used, bb, c as u32);
                    }
                }
                assert forall|j: int|
                    0 <= j < i + 1 && (#[trigger] data@[j]).0 == 0 && data@[j].1 < 32 implies (u2
                    >> (data@[j].1 as u32)) & 1 == 1 by {
                    if j < i {
                        assert((used >> (data@[j].1 as u32)) & 1 == 1);
                    }
                    lemma_or_bit_at(used, bb, data@[j].1 as u32);
                }
            }
            used = u2;
        }
        i = i + 1;
    }
    proof {
        if used == 0xffff_ffffu32 {
            assert(forall|c: u32| c < 32 ==> (0xffff_ffffu32 >> c) & 1 == 1) by (bit_vector);
            assert(used_bits(used) =~= set_int_range(0, 32));
            lemma_int_range(0, 32);
        }
    }
    let mut b: u8 = 0;
    proof {
        assert(used & (((1u32 << 0u32) - 1) as u32) == ((1u32 << 0u32) - 1) as u32)
            by (bit_vector);
    }
    while b < 32
        invariant
            num_attrs > 0,
            used != 0xffff_ffffu32,
            b <= 32,
            b < 32 ==> used & (((1u32 << (b as u32)) - 1) as u32) == ((1u32 << (b as u32)) - 1) as u32,
            b == 32 ==> used == 0xffff_ffffu32,
            i == data@.len(),
            forall|j: int|
                0 <= j < i && (#[trigger] data@[j]).0 == 0 && data@[j].1 < 32 ==> (used >> (
                data@[j].1 as u32)) & 1 == 1,
        decreases 32 - b,
    {
        if (used >> (b as u32)) & 1 == 0 {
            proof {
                assert forall|j: int| 0 <= j < data@.len() implies data@[j] != (0u32, b) by {
                    if data@[j].0 == 0 && data@[j].1 < 32 {
                        assert((used >> (data@[j].1 as u32)) & 1 == 1);
                    }
                }
            }
            return (0u32, b);
        }
        proof {
            assert((used >> (b as u32)) & 1 == 1) by (bit_vector)
                requires
                    (used >> (b as u32)) & 1 != 0,
            ;
            lemma_low_ones_step(used, b as u32);
        }
        b = b + 1;
    }
    proof {
        assert(false);
    }
    (0u32, 0u8)
}

impl ChoiceVec {
    /// Build a choice vector from a given prefix of entries, generating the
    /// remaining ones pseudorandomly so that each generated entry differs
    /// from every entry before it.
    pub fn new(given_bits: Vec<ChoiceEntry>, num_attrs: u32) -> (r: ChoiceVec)
        requires
            given_bits@.len() <= 32,
            num_attrs > 0,
        ensures
            r.data@.len() == 32,
            forall|i: int| 0 <= i < given_bits@.len() ==> r.data@[i] == given_bits@[i],
            forall|i: int|
                given_bits@.len() <= i < 32 ==> #[trigger] generated_ok(r.data@, i, num_attrs),
            (forall|i: int|
                0 <= i < given_bits@.len() ==> (#[trigger] given_bits@[i]).0 < num_attrs
                    && given_bits@[i].1 < 32) ==> r.valid_for(num_attrs),
    {
        let ghost g = given_bits@;
        let mut data = given_bits;
        while data.len() < 32
            invariant
                num_attrs > 0,
                g.len() <= data@.len() <= 32,
                forall|i: int| 0 <= i < g.len() ==> data@[i] == g[i],
                forall|i: int|
                    g.len() <= i < data@.len() ==> #[trigger] generated_ok(data@, i, num_attrs),
            decreases 32 - data@.len(),
        {
            let ghost prev = data@;
            let e = generate_entry(&data, num_attrs);
            data.push(e);
            proof {
                assert forall|i: int| g.len() <= i < data@.len() implies #[trigger] generated_ok(
                    data@,
                    i,
                    num_attrs,
                ) by {
                    if i < prev.len() {
                        assert(generated_ok(prev, i, num_attrs));
                        assert(forall|j: int| 0 <= j <= i ==> data@[j] == prev[j]);
                    }
                }
            }
        }
        let r = ChoiceVec { data };
        proof {
            if forall|i: int|
                0 <= i < g.len() ==> (#[trigger] g[i]).0 < num_attrs && g[i].1 < 32 {
                assert forall|i: int| 0 <= i < 32 implies (#[trigger] r.data@[i]).0 < num_attrs
                    && r.data@[i].1 < 32 by {
                    if i < g.len() {
                        assert(r.data@[i] == g[i]);
                        assert(g[i].0 < num_attrs && g[i].1 < 32);
                    } else {
                        assert(generated_ok(r.data@, i, num_attrs));
                    }
                }
            }
        }
        r
    }

    /// Parse a colon-separated list of `attr,bit` entries and complete the
    /// vector with generated entries.
    pub fn parse(input: &str, num_attrs: u32) -> (r: Result<ChoiceVec, ParseError>)
        ensures
            match r {
                Ok(cv) => {
                    &&& cv_parse_result(input.spec_bytes(), num_attrs) is Ok
                    &&& cv.data@.len() == 32
                    &&& cv.valid_for(num_attrs)
                    &&& {
                        let given = cv_parse_result(input.spec_bytes(), num_attrs)->Ok_0;
                        &&& given.len() <= 32
                        &&& forall|i: int| 0 <= i < given.len() ==> cv.data@[i] == given[i]
                        &&& forall|i: int|
                            given.len() <= i < 32 ==> #[trigger] generated_ok(
                                cv.data@,
                                i,
                                num_attrs,
                            )
                    }
                },
                Err(e) => cv_parse_result(input.spec_bytes(), num_attrs) == Err::<
                    Seq<ChoiceEntry>,
                    ParseError,
                >(e),
            },
    {
        let bytes = input.as_bytes();
        let n = bytes.len();
        let ghost entries0 = split_bytes(bytes@, 58);
        let mut given: Vec<ChoiceEntry> = Vec::new();
        let mut start: usize = 0;
        let mut more = true;
        proof {
            assert(bytes@.skip(0) =~= bytes@);
        }
        while more
            invariant
                bytes@ == input.spec_bytes(),
                n == bytes@.len(),
                0 <= start <= n,
                given@.len() <= 32,
                entries0 == split_bytes(bytes@, 58),
                more ==> {
                    let tail = cv_parse(
                        split_bytes(bytes@.skip(start as int), 58),
                        num_attrs,
                        32 - given@.len(),
                    );
                    cv_parse(entries0, num_attrs, 32) == match tail {
                        Ok(s) => Ok::<Seq<ChoiceEntry>, ParseError>(given@ + s),
                        Err(e) => Err::<Seq<ChoiceEntry>, ParseError>(e),
                    }
                },
                !more ==> cv_parse(entries0, num_attrs, 32) == Ok::<Seq<ChoiceEntry>, ParseError>(
                    given@,
                ),
                forall|i: int|
                    0 <= i < given@.len() ==> (#[trigger] given@[i]).0 < num_attrs && given@[i].1
                        < 32,
            decreases n - start + (if more {
                1int
            } else {
                0int
            }),
        {
            let ghost rem = bytes@.skip(start as int);
            let e = find_in(bytes, start, n, 58);
            let ghost chunk = bytes@.subrange(start as int, e as int);
            let ghost rest_entries = if e < n {
                split_bytes(bytes@.skip(e + 1), 58)
            } else {
                Seq::<Seq<u8>>::empty()
            };
            proof {
                assert(forall|k: int| 0 <= k < rem.len() ==> rem[k] == bytes@[start + k]);
                lemma_split_bytes_first(rem, 58, e - start);
                if e < n {
                    assert(rem.skip(e - start + 1) =~= bytes@.skip(e + 1));
                }
                assert(rem.take(e - start) =~= chunk);
                assert(split_bytes(rem, 58) =~~= seq![chunk] + rest_entries);
                lemma_split_bytes_len(rem, 58);
            }
            if given.len() == 32 {
                return Err(ParseError::TooManyTuples);
            }
            let ghost budget = 32 - given@.len();
            let entry = parse_entry(bytes, start, e, num_attrs);
            proof {
                assert((seq![chunk] + rest_entries)[0] == chunk);
                assert((seq![chunk] + rest_entries).drop_first() =~~= rest_entries);
                assert(cv_parse(split_bytes(rem, 58), num_attrs, budget) == match entry_spec(
                    chunk,
                    num_attrs,
                ) {
                    Err(er) => Err::<Seq<ChoiceEntry>, ParseError>(er),
                    Ok(pp) => match cv_parse(rest_entries, num_attrs, budget - 1) {
                        Err(er) => Err::<Seq<ChoiceEntry>, ParseError>(er),
                        Ok(rest) => Ok::<Seq<ChoiceEntry>, ParseError>(seq![pp] + rest),
                    },
                });
            }
            let p = match entry {
                Ok(p) => p,
                Err(err) => {
                    return Err(err);
                },
            };
            let ghost prevg = given@;
            given.push(p);
            proof {
                assert(given@ =~= prevg + seq![p]);
                assert forall|i: int|
                    0 <= i < given@.len() implies (#[trigger] given@[i]).0 < num_attrs
                        && given@[i].1 < 32 by {
                    if i < prevg.len() {
                        assert(given@[i] == prevg[i]);
                    }
                }
            }
            if e < n {
                start = e + 1;
                proof {
                    let tail_new = cv_parse(rest_entries, num_attrs, budget - 1);
                    match tail_new {
                        Ok(s) => {
                            assert(prevg + (seq![p] + s) =~= given@ + s);
                        },
                        Err(_) => {},
                    }
                }
            } else {
                proof {
                    assert(cv_parse(rest_entries, num_attrs, budget - 1) == Ok::<
                        Seq<ChoiceEntry>,
                        ParseError,
                    >(Seq::empty()));
                    assert(prevg + (seq![p] + Seq::<ChoiceEntry>::empty()) =~= given@);
                }
                more = false;
            }
        }
        proof {
            lemma_split_bytes_len(bytes@, 58);
            if given@.len() == 0 {
                lemma_cv_parse_bounded(entries0, num_attrs, 32);
            }
            assert(given@.len() >= 1);
            assert(given@[0].0 < num_attrs);
        }
        Ok(ChoiceVec::new(given, num_attrs))
    }

    /// Iterate over the 32 entries.
    pub fn iter(&self) -> (r: std::slice::Iter<'_, ChoiceEntry>)
        ensures
            vstd::std_specs::slice::into_iter_elts(r) == self.data@,
    {
        self.data.as_slice().iter()
    }
}

/// Parse the single `attr,bit` entry in `bytes[start..end]`.
fn parse_entry(bytes: &[u8], start: usize, end: usize, num_attrs: u32) -> (r: Result<
    ChoiceEntry,
    ParseError,
>)
    requires
        start <= end <= bytes@.len(),
    ensures
        r == entry_spec(bytes@.subrange(start as int, end as int), num_attrs),
        r is Ok ==> r->Ok_0.0 < num_attrs && r->Ok_0.1 < 32,
{
    let ghost chunk = bytes@.subrange(start as int, end as int);
    let c = find_in(bytes, start, end, 44);
    if c == end {
        proof {
            assert(forall|k: int| 0 <= k < chunk.len() ==> chunk[k] == bytes@[start + k]);
            lemma_split_bytes_first(chunk, 44, chunk.len() as int);
        }
        return Err(ParseError::InvalidEntry);
    }
    let ghost left = bytes@.subrange(start as int, c as int);
    let ghost right = bytes@.subrange(c + 1, end as int);
    proof {
        assert(forall|k: int| 0 <= k < chunk.len() ==> chunk[k] == bytes@[start + k]);
        lemma_split_bytes_first(chunk, 44, c - start);
        assert(chunk.take(c - start) =~= left);
        assert(chunk.skip(c - start + 1) =~= right);
    }
    let c2 = find_in(bytes, c + 1, end, 44);
    if c2 < end {
        proof {
            assert(forall|k: int| 0 <= k < right.len() ==> right[k] == bytes@[c + 1 + k]);
            lemma_split_bytes_first(right, 44, c2 - c - 1);
            lemma_split_bytes_len(right.skip(c2 - c), 44);
            assert(split_bytes(chunk, 44).len() >= 3);
        }
        return Err(ParseError::InvalidEntry);
    }
    proof {
        assert(forall|k: int| 0 <= k < right.len() ==> right[k] == bytes@[c + 1 + k]);
        lemma_split_bytes_first(right, 44, right.len() as int);
        assert(split_bytes(chunk, 44) =~~= seq![left, right]);
    }
    let l = match parse_u32(vstd::slice::slice_subrange(bytes, start, c)) {
        Some(v) => v,
        None => {
            return Err(ParseError::NumberUnparsable);
        },
    };
    let rv = match parse_u32(vstd::slice::slice_subrange(bytes, c + 1, end)) {
        Some(v) => v,
        None => {
            return Err(ParseError::NumberUnparsable);
        },
    };
    if rv > 255 {
        return Err(ParseError::NumberUnparsable);
    }
    if l >= num_attrs {
        return Err(ParseError::InvalidAttr(l));
    }
    if rv >= 32 {
        return Err(ParseError::InvalidBit(rv as u8));
    }
    Ok((l, rv as u8))
}

} // verus!
