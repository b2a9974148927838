//! Queries: one known value or a wildcard per attribute, matched positionally
//! against stored tuples.

use vstd::prelude::*;

verus! {

use crate::bytes::{lemma_encode_utf8_injective, split_bytes, split_str};
use crate::tuple::Tuple;
use vstd::string::StringSliceAdditionalSpecFns;
use vstd::utf8::encode_utf8;

/// A partial-match query: `None` marks an unknown attribute.
#[derive(PartialEq, Eq, Debug)]
pub struct Query {
    pub matches: Vec<Option<String>>,
}

/// Why a query string failed to parse.
#[derive(PartialEq, Eq, PartialOrd, Ord, Debug)]
pub enum ParseError {
    AttributeMismatch(usize, usize),
}

/// Whether a query (as per-attribute known bytes) matches a tuple's values:
/// every known attribute must be byte-for-byte equal.
pub open spec fn matches_spec(q: Seq<Option<Seq<u8>>>, vs: Seq<Seq<u8>>) -> bool {
    forall|i: int| 0 <= i < q.len() ==> ((#[trigger] q[i]) is Some ==> q[i]->0 == vs[i])
}

impl Query {
    /// The UTF-8 bytes of each known attribute.
    pub open spec fn byte_matches(self) -> Seq<Option<Seq<u8>>> {
        Seq::new(
            self.matches@.len(),
            |i: int|
                match self.matches@[i] {
                    Some(v) => Some(encode_utf8(v@)),
                    None => None,
                },
        )
    }

    /// A query that matches every tuple of `num_attrs` attributes.
    pub fn wildcard(num_attrs: u32) -> (q: Query)
        ensures
            q.matches@.len() == num_attrs,
            forall|i: int| 0 <= i < num_attrs ==> (#[trigger] q.matches@[i]) is None,
    {
        let mut matches: Vec<Option<String>> = Vec::new();
        let mut i: u32 = 0;
        while i < num_attrs
            invariant
                0 <= i <= num_attrs,
                matches@.len() == i,
                forall|j: int| 0 <= j < i ==> (#[trigger] matches@[j]) is None,
            decreases num_attrs - i,
        {
            matches.push(None);
            i = i + 1;
        }
        Query { matches }
    }

    /// Parse a comma-separated query: each piece is a known value, or an
    /// unknown when it is exactly `?`. Fails when the number of pieces does
    /// not equal the expected attribute count.
    pub fn parse(input: &str, num_attrs: u32) -> (r: Result<Query, ParseError>)
        ensures
            r is Ok <==> split_bytes(input.spec_bytes(), 44).len() == num_attrs,
            r is Err ==> r == Err::<Query, ParseError>(
                ParseError::AttributeMismatch(
                    num_attrs as usize,
                    split_bytes(input.spec_bytes(), 44).len() as usize,
                ),
            ),
            r is Ok ==> {
                let q = r->Ok_0;
                let pieces = split_bytes(input.spec_bytes(), 44);
                &&& q.matches@.len() == num_attrs
                &&& forall|i: int|
                    0 <= i < num_attrs ==> #[trigger] q.byte_matches()[i] == (if pieces[i]
                        =~= seq![63u8] {
                        None::<Seq<u8>>
                    } else {
                        Some(pieces[i])
                    })
            },
    {
        let pieces = split_str(input, 44);
        let n = pieces.len();
        if n != num_attrs as usize {
            return Err(ParseError::AttributeMismatch(num_attrs as usize, n));
        }
        let ghost piece_bytes = split_bytes(input.spec_bytes(), 44);
        let mut matches: Vec<Option<String>> = Vec::new();
        let mut i: usize = 0;
        while i < pieces.len()
            invariant
                piece_bytes == split_bytes(input.spec_bytes(), 44),
                pieces@.len() == piece_bytes.len(),
                forall|j: int|
                    0 <= j < pieces@.len() ==> encode_utf8((#[trigger] pieces@[j])@)
                        == piece_bytes[j],
                0 <= i <= pieces@.len(),
                matches@.len() == i,
                forall|j: int|
                    0 <= j < matches@.len() ==> (match #[trigger] matches@[j] {
                        Some(v) => Some(encode_utf8(v@)),
                        None => None::<Seq<u8>>,
                    }) == (if piece_bytes[j] =~= seq![63u8] {
                        None::<Seq<u8>>
                    } else {
                        Some(piece_bytes[j])
                    }),
            decreases pieces@.len() - i,
        {
            let v = pieces[i].clone();
            let vb = v.as_str().as_bytes();
            if vb.len() == 1 && vb[0] == 63 {
                proof {
                    assert(encode_utf8(v@) =~= seq![63u8]);
                }
                matches.push(None);
            } else {
                proof {
                    assert(!(encode_utf8(v@) =~= seq![63u8]));
                }
                matches.push(Some(v));
            }
            i = i + 1;
        }
        let q = Query { matches };
        proof {
            assert forall|i: int| 0 <= i < num_attrs implies #[trigger] q.byte_matches()[i] == (if
            piece_bytes[i] =~= seq![63u8] {
                None::<Seq<u8>>
            } else {
                Some(piece_bytes[i])
            }) by {
                assert((match q.matches@[i] {
                    Some(v) => Some(encode_utf8(v@)),
                    None => None::<Seq<u8>>,
                }) == (if piece_bytes[i] =~= seq![63u8] {
                    None::<Seq<u8>>
                } else {
                    Some(piece_bytes[i])
                }));
            }
        }
        Ok(q)
    }

    /// Whether this query matches the tuple: positional equality on every
    /// known attribute.
    pub fn matches_tuple(&self, tuple: &Tuple) -> (r: bool)
        requires
            self.matches@.len() == tuple.values@.len(),
        ensures
            r == matches_spec(self.byte_matches(), tuple.byte_values()),
    {
        let mut i: usize = 0;
        while i < self.matches.len()
            invariant
                self.matches@.len() == tuple.values@.len(),
                0 <= i <= self.matches@.len(),
                forall|j: int|
                    0 <= j < i ==> ((#[trigger] self.byte_matches()[j]) is Some
                        ==> self.byte_matches()[j]->0 == tuple.byte_values()[j]),
            decreases self.matches@.len() - i,
        {
            match &self.matches[i] {
                Some(query_attr) => {
                    let equal = query_attr.eq(&tuple.values[i]);
                    proof {
                        assert(self.byte_matches()[i as int] is Some);
                        assert(self.byte_matches()[i as int]->0 == encode_utf8(query_attr@));
                        assert(tuple.byte_values()[i as int] == encode_utf8(
                            tuple.values@[i as int]@,
                        ));
                        if !equal && encode_utf8(query_attr@) == encode_utf8(
                            tuple.values@[i as int]@,
                        ) {
                            lemma_encode_utf8_injective(query_attr@, tuple.values@[i as int]@);
                        }
                    }
                    if !equal {
                        return false;
                    }
                },
                None => {},
            }
            i = i + 1;
        }
        true
    }
}

} // verus!
