//! Tuples: fixed-width sequences of opaque text values, serialized as
//! comma-joined UTF-8 bytes with a trailing NUL.

use vstd::prelude::*;

verus! {

use crate::bytes::{
    find_in, join_bytes, lemma_encode_utf8_concat, split_bytes, split_str, utf8_to_string,
};
use crate::choice_vec::ChoiceVec;
use crate::util::{bit, bit_at, hash, hash_spec};
use vstd::string::StringSliceAdditionalSpecFns;
use vstd::string::StrSliceExecFns;
use vstd::string::StringExecFns;
use vstd::utf8::{encode_utf8, valid_utf8};

/// The multi-attribute hash built from the low `i` output bits: bit `j` of
/// the result is bit `b_j` of the hash of attribute `a_j`, as entry `j` of
/// the choice vector directs.
pub open spec fn ma_hash_upto(bvals: Seq<Seq<u8>>, cv: Seq<crate::choice_vec::ChoiceEntry>, i: nat) -> u32
    decreases i,
{
    if i == 0 {
        0u32
    } else {
        let j = (i - 1) as int;
        ma_hash_upto(bvals, cv, (i - 1) as nat) | (bit_at(
            hash_spec(bvals[cv[j].0 as int]),
            cv[j].1 as u32,
        ) << ((i - 1) as u32))
    }
}

/// The full 32-bit multi-attribute hash of a tuple's values.
pub open spec fn ma_hash_of(bvals: Seq<Seq<u8>>, cv: Seq<crate::choice_vec::ChoiceEntry>) -> u32 {
    ma_hash_upto(bvals, cv, 32)
}

/// Bit `i` of the multi-attribute hash is the chosen bit of the chosen
/// attribute's hash.
pub proof fn lemma_ma_hash_bits(bvals: Seq<Seq<u8>>, cv: Seq<crate::choice_vec::ChoiceEntry>)
    requires
        cv.len() == 32,
        forall|i: int| 0 <= i < 32 ==> (#[trigger] cv[i]).1 < 32,
    ensures
        forall|i: int|
            0 <= i < 32 ==> #[trigger] bit_at(ma_hash_of(bvals, cv), i as u32) == bit_at(
                hash_spec(bvals[cv[i].0 as int]),
                cv[i].1 as u32,
            ),
{
    lemma_ma_hash_upto_bits(bvals, cv, 32);
}

proof fn lemma_ma_hash_upto_bits(
    bvals: Seq<Seq<u8>>,
    cv: Seq<crate::choice_vec::ChoiceEntry>,
    n: nat,
)
    requires
        n <= 32,
        cv.len() == 32,
        forall|i: int| 0 <= i < 32 ==> (#[trigger] cv[i]).1 < 32,
    ensures
        forall|i: int|
            0 <= i < n ==> #[trigger] bit_at(ma_hash_upto(bvals, cv, n), i as u32) == bit_at(
                hash_spec(bvals[cv[i].0 as int]),
                cv[i].1 as u32,
            ),
        forall|i: int|
            n <= i < 32 ==> #[trigger] bit_at(ma_hash_upto(bvals, cv, n), i as u32) == 0,
    decreases n,
{
    if n == 0 {
        assert(forall|j: u32| j < 32 ==> #[trigger] bit_at(0u32, j) == 0) by (bit_vector);
    } else {
        lemma_ma_hash_upto_bits(bvals, cv, (n - 1) as nat);
        let prev = ma_hash_upto(bvals, cv, (n - 1) as nat);
        let b = bit_at(hash_spec(bvals[cv[n - 1].0 as int]), cv[n - 1].1 as u32);
        assert(b == 0 || b == 1) by {
            assert(forall|v: u32, j: u32| #[trigger] bit_at(v, j) == 0 || bit_at(v, j) == 1)
                by (bit_vector);
        }
        assert(bit_at(prev, (n - 1) as u32) == 0);
        assert forall|i: int| 0 <= i < 32 implies #[trigger] bit_at(
            ma_hash_upto(bvals, cv, n),
            i as u32,
        ) == (if i == n - 1 {
            b
        } else {
            bit_at(prev, i as u32)
        }) by {
            lemma_set_bit(prev, b, (n - 1) as u32, i as u32);
        }
    }
}

/// A stored record: one text value per attribute.
#[derive(Clone, PartialEq, Eq, Debug)]
pub struct Tuple {
    pub values: Vec<String>,
}

impl Tuple {
    /// The UTF-8 bytes of each value.
    pub open spec fn byte_values(self) -> Seq<Seq<u8>> {
        Seq::new(self.values@.len(), |i: int| encode_utf8(self.values@[i]@))
    }

    /// The serialized bytes without the trailing NUL: the values' bytes
    /// joined with commas.
    pub open spec fn spec_content(self) -> Seq<u8> {
        join_bytes(self.byte_values(), 44)
    }

    /// The full serialized record: content followed by a NUL terminator.
    pub open spec fn spec_record(self) -> Seq<u8> {
        self.spec_content() + seq![0u8]
    }

    /// Compute the 32-bit multi-attribute hash of this tuple: bit `i` of the
    /// result is the chosen bit of the chosen attribute's hash, as directed
    /// by entry `i` of the choice vector.
    pub fn hash(&self, choice_vec: &ChoiceVec) -> (r: u32)
        requires
            choice_vec.data@.len() == 32,
            forall|i: int|
                0 <= i < 32 ==> ((#[trigger] choice_vec.data@[i]).0 as int)
                    < self.values@.len() && choice_vec.data@[i].1 < 32,
        ensures
            forall|i: int|
                0 <= i < 32 ==> #[trigger] bit_at(r, i as u32) == bit_at(
                    hash_spec(self.byte_values()[choice_vec.data@[i].0 as int]),
                    choice_vec.data@[i].1 as u32,
                ),
            r == ma_hash_of(self.byte_values(), choice_vec.data@),
    {
        let mut value_hashes: Vec<u32> = Vec::new();
        let mut k: usize = 0;
        while k < self.values.len()
            invariant
                0 <= k <= self.values@.len(),
                value_hashes@.len() == k,
                forall|j: int|
                    0 <= j < k ==> #[trigger] value_hashes@[j] == hash_spec(
                        encode_utf8(self.values@[j]@),
                    ),
            decreases self.values@.len() - k,
        {
            value_hashes.push(hash(self.values[k].as_str()));
            k = k + 1;
        }
        let mut result: u32 = 0;
        let mut i: usize = 0;
        proof {
            assert(forall|j: u32| j < 32 ==> #[trigger] bit_at(0u32, j) == 0) by (bit_vector);
        }
        while i < 32
            invariant
                0 <= i <= 32,
                value_hashes@.len() == self.values@.len(),
                forall|j: int|
                    0 <= j < value_hashes@.len() ==> #[trigger] value_hashes@[j] == hash_spec(
                        encode_utf8(self.values@[j]@),
                    ),
                choice_vec.data@.len() == 32,
                forall|j: int|
                    0 <= j < 32 ==> ((#[trigger] choice_vec.data@[j]).0 as int)
                        < self.values@.len() && choice_vec.data@[j].1 < 32,
                forall|j: int|
                    0 <= j < i ==> #[trigger] bit_at(result, j as u32) == bit_at(
                        hash_spec(encode_utf8(self.values@[choice_vec.data@[j].0 as int]@)),
                        choice_vec.data@[j].1 as u32,
                    ),
                forall|j: int| i <= j < 32 ==> #[trigger] bit_at(result, j as u32) == 0,
                result == ma_hash_upto(self.byte_values(), choice_vec.data@, i as nat),
            decreases 32 - i,
        {
            let entry = choice_vec.data[i];
            let b = bit(entry.1, value_hashes[entry.0 as usize]);
            let ghost old_result = result;
            result = result | (b << (i as u32));
            proof {
                assert(bit_at(old_result, i as u32) == 0);
                assert forall|j: u32| j < 32 implies #[trigger] bit_at(
                    old_result | (b << (i as u32)),
                    j,
                ) == (if j == i as u32 {
                    b
                } else {
                    bit_at(old_result, j)
                }) by {
                    lemma_set_bit(old_result, b, i as u32, j);
                }
                assert(result == ma_hash_upto(self.byte_values(), choice_vec.data@, (i + 1) as nat))
                    by {
                    assert(b == bit_at(
                        hash_spec(self.byte_values()[choice_vec.data@[i as int].0 as int]),
                        choice_vec.data@[i as int].1 as u32,
                    ));
                }
            }
            i = i + 1;
        }
        result
    }

    /// Parse a string into a tuple, rejecting question marks, NUL bytes,
    /// and a wrong number of attributes.
    pub fn parse(s: &str, num_attrs: u32) -> (r: Option<Tuple>)
        ensures
            r is Some <==> !s.spec_bytes().contains(63u8) && !s.spec_bytes().contains(0u8)
                && split_bytes(s.spec_bytes(), 44).len() == num_attrs,
            r is Some ==> {
                let t = r->0;
                &&& t.values@.len() == num_attrs
                &&& t.byte_values() =~= split_bytes(s.spec_bytes(), 44)
            },
    {
        let bytes = s.as_bytes();
        let n = bytes.len();
        let q = find_in(bytes, 0, n, 63);
        if q < n {
            proof {
                assert(s.spec_bytes()[q as int] == 63u8);
            }
            return None;
        }
        let z = find_in(bytes, 0, n, 0);
        if z < n {
            proof {
                assert(s.spec_bytes()[z as int] == 0u8);
            }
            return None;
        }
        proof {
            assert(!s.spec_bytes().contains(63u8));
            assert(!s.spec_bytes().contains(0u8));
        }
        let t = Tuple::parse_str(s);
        if t.values.len() == num_attrs as usize {
            Some(t)
        } else {
            None
        }
    }

    /// Split a string at commas into a tuple, one value per piece.
    pub fn parse_str(s: &str) -> (t: Tuple)
        ensures
            t.values@.len() == split_bytes(s.spec_bytes(), 44).len(),
            t.byte_values() =~= split_bytes(s.spec_bytes(), 44),
    {
        let values = split_str(s, 44);
        let t = Tuple { values };
        proof {
            assert(t.byte_values() =~= split_bytes(s.spec_bytes(), 44));
        }
        t
    }

    /// Parse serialized bytes (without the trailing NUL) back into a tuple.
    /// The bytes must be valid UTF-8, as stored records are.
    pub fn parse_bytes(bytes: &[u8]) -> (t: Tuple)
        requires
            valid_utf8(bytes@),
        ensures
            t.values@.len() == split_bytes(bytes@, 44).len(),
            t.byte_values() =~= split_bytes(bytes@, 44),
    {
        let s = utf8_to_string(bytes);
        Tuple::parse_str(s.as_str())
    }

    /// The comma-joined textual form of the tuple.
    pub fn to_string(&self) -> (r: String)
        ensures
            encode_utf8(r@) == self.spec_content(),
    {
        let mut s = String::new();
        let mut i: usize = 0;
        let ghost bv = self.byte_values();
        proof {
            proof_comma_str();
        }
        while i < self.values.len()
            invariant
                0 <= i <= self.values@.len(),
                bv == self.byte_values(),
                bv.len() == self.values@.len(),
                i == 0 ==> s@ == Seq::<char>::empty(),
                i > 0 ==> encode_utf8(s@) == join_bytes(bv.take(i as int), 44),
            decreases self.values@.len() - i,
        {
            let ghost prev = s@;
            if i > 0 {
                s.append(",");
                proof {
                    lemma_encode_utf8_concat(prev, ","@);
                    proof_comma_str();
                }
            }
            let ghost mid = s@;
            s.append(self.values[i].as_str());
            proof {
                lemma_encode_utf8_concat(mid, self.values@[i as int]@);
                assert(bv.take(i + 1).drop_last() =~= bv.take(i as int));
                assert(bv.take(i + 1).last() == bv[i as int]);
                if i == 0 {
                    assert(encode_utf8(mid) =~= Seq::<u8>::empty());
                    assert(join_bytes(bv.take(1), 44) == bv[0]);
                    assert(encode_utf8(s@) =~= bv[0]);
                } else {
                    lemma_join_bytes_snoc(bv.take(i + 1), 44);
                    assert(encode_utf8(s@) =~= join_bytes(bv.take(i + 1), 44));
                }
            }
            i = i + 1;
        }
        proof {
            if self.values@.len() == 0 {
                assert(encode_utf8(s@) =~= join_bytes(bv, 44));
            } else {
                assert(bv.take(bv.len() as int) =~= bv);
            }
        }
        s
    }

    /// The serialized record: the comma-joined values' bytes followed by a
    /// single NUL byte.
    pub fn serialise(&self) -> (r: Vec<u8>)
        ensures
            r@ == self.spec_record(),
    {
        let s = self.to_string();
        let mut result = s.as_str().as_bytes_vec();
        result.push(0);
        proof {
            assert(result@ =~= self.spec_record());
        }
        result
    }
}

/// Serialization and parsing are inverse on tuples: parsing the serialized
/// form (less its trailing NUL) recovers exactly the values, provided no
/// value contains a comma.
pub proof fn lemma_serialise_parse_roundtrip(t: Tuple)
    requires
        t.values@.len() >= 1,
        forall|i: int|
            0 <= i < t.byte_values().len() ==> !(#[trigger] t.byte_values()[i]).contains(44),
    ensures
        split_bytes(t.spec_content(), 44) == t.byte_values(),
        t.spec_record().drop_last() == t.spec_content(),
{
    crate::bytes::lemma_split_join(t.byte_values(), 44);
    assert(t.spec_record().drop_last() =~= t.spec_content());
}

/// Joining one more piece appends a separator and the piece.
pub proof fn lemma_join_bytes_snoc(vs: Seq<Seq<u8>>, sep: u8)
    requires
        vs.len() >= 2,
    ensures
        join_bytes(vs, sep) == join_bytes(vs.drop_last(), sep) + seq![sep] + vs.last(),
    decreases vs.len(),
{
    if vs.len() == 2 {
        assert(vs.drop_last() =~= seq![vs[0]]);
        assert(join_bytes(vs.drop_last(), sep) == vs[0]);
        assert(vs.drop_first() =~= seq![vs[1]]);
        assert(vs.drop_first().len() == 1);
        assert(join_bytes(vs.drop_first(), sep) == vs.drop_first()[0]);
        assert(join_bytes(vs, sep) =~= vs[0] + seq![sep] + vs[1]);
    } else {
        lemma_join_bytes_snoc(vs.drop_first(), sep);
        assert(vs.drop_first().drop_last() =~= vs.drop_last().drop_first());
        assert(vs.drop_first().last() == vs.last());
        assert(vs.drop_last()[0] == vs[0]);
        assert(vs.drop_last().len() >= 2);
        assert(join_bytes(vs, sep) == vs[0] + seq![sep] + join_bytes(vs.drop_first(), sep));
        assert(join_bytes(vs.drop_last(), sep) == vs[0] + seq![sep] + join_bytes(
            vs.drop_last().drop_first(),
            sep,
        ));
        assert(vs[0] + seq![sep] + (join_bytes(vs.drop_last().drop_first(), sep) + seq![sep]
            + vs.last()) =~= (vs[0] + seq![sep] + join_bytes(vs.drop_last().drop_first(), sep))
            + seq![sep] + vs.last());
    }
}

/// The comma's UTF-8 encoding is the single byte 44.
proof fn proof_comma_str()
    ensures
        encode_utf8(","@) == seq![44u8],
{
    reveal_strlit(",");
    assert(","@.len() == 1);
    assert(","@[0] == ',');
    assert(vstd::utf8::is_ascii_chars(","@));
    vstd::utf8::is_ascii_chars_encode_utf8(","@);
    assert(encode_utf8(","@) =~= seq![44u8]);
}

proof fn lemma_set_bit(r: u32, b: u32, i: u32, j: u32)
    by (bit_vector)
    requires
        b == 0 || b == 1,
        i < 32,
        j < 32,
        (r >> i) & 1 == 0,
    ensures
        j != i ==> ((r | (b << i)) >> j) & 1 == (r >> j) & 1,
        j == i ==> ((r | (b << i)) >> j) & 1 == b,
{
}

} // verus!
