//! Byte-string helpers shared by the textual codecs: separator splitting and
//! joining, and decimal number parsing.

use vstd::prelude::*;

verus! {

use vstd::string::StringSliceAdditionalSpecFns;
use vstd::utf8::{encode_scalar, encode_utf8, is_char_boundary, valid_utf8};

/// Split `s` at every occurrence of `sep`, keeping empty pieces, as Rust's
/// `str::split` does: splitting the empty sequence yields one empty piece.
pub open spec fn split_bytes(s: Seq<u8>, sep: u8) -> Seq<Seq<u8>>
    decreases s.len(),
{
    if s.len() == 0 {
        seq![Seq::<u8>::empty()]
    } else if s[0] == sep {
        seq![Seq::<u8>::empty()] + split_bytes(s.drop_first(), sep)
    } else {
        let rest = split_bytes(s.drop_first(), sep);
        seq![seq![s[0]] + rest[0]] + rest.drop_first()
    }
}

/// No piece of a split contains the separator.
pub proof fn lemma_split_bytes_pieces_free(s: Seq<u8>, sep: u8)
    ensures
        forall|i: int|
            0 <= i < split_bytes(s, sep).len() ==> !(#[trigger] split_bytes(s, sep)[i]).contains(
                sep,
            ),
    decreases s.len(),
{
    if s.len() == 0 {
        assert forall|i: int| 0 <= i < split_bytes(s, sep).len() implies !(
        #[trigger] split_bytes(s, sep)[i]).contains(sep) by {
            assert(split_bytes(s, sep)[i].len() == 0);
        }
    } else if s[0] == sep {
        lemma_split_bytes_pieces_free(s.drop_first(), sep);
        assert forall|i: int| 0 <= i < split_bytes(s, sep).len() implies !(
        #[trigger] split_bytes(s, sep)[i]).contains(sep) by {
            if i == 0 {
                assert(split_bytes(s, sep)[0].len() == 0);
            } else {
                assert(split_bytes(s, sep)[i] == split_bytes(s.drop_first(), sep)[i - 1]);
            }
        }
    } else {
        lemma_split_bytes_pieces_free(s.drop_first(), sep);
        let rest = split_bytes(s.drop_first(), sep);
        lemma_split_bytes_len(s.drop_first(), sep);
        assert forall|i: int| 0 <= i < split_bytes(s, sep).len() implies !(
        #[trigger] split_bytes(s, sep)[i]).contains(sep) by {
            if i == 0 {
                assert(split_bytes(s, sep)[0] == seq![s[0]] + rest[0]);
                assert(!rest[0].contains(sep));
                if (seq![s[0]] + rest[0]).contains(sep) {
                    let k = choose|k: int|
                        0 <= k < (seq![s[0]] + rest[0]).len() && (seq![s[0]] + rest[0])[k] == sep;
                    if k > 0 {
                        assert(rest[0][k - 1] == sep);
                    }
                }
            } else {
                assert(split_bytes(s, sep)[i] == rest.drop_first()[i - 1]);
                assert(rest.drop_first()[i - 1] == rest[i]);
            }
        }
    }
}

/// Join the pieces of `vs` with `sep` between consecutive pieces.
pub open spec fn join_bytes(vs: Seq<Seq<u8>>, sep: u8) -> Seq<u8>
    decreases vs.len(),
{
    if vs.len() == 0 {
        Seq::<u8>::empty()
    } else if vs.len() == 1 {
        vs[0]
    } else {
        vs[0] + seq![sep] + join_bytes(vs.drop_first(), sep)
    }
}

pub proof fn lemma_split_bytes_len(s: Seq<u8>, sep: u8)
    ensures
        split_bytes(s, sep).len() >= 1,
    decreases s.len(),
{
    if s.len() > 0 && s[0] != sep {
        lemma_split_bytes_len(s.drop_first(), sep);
    }
}

/// Splitting peels off everything up to the first separator: if `e` is the
/// position of the first `sep` in `s` (or the length of `s` when there is
/// none), the first piece is `s.take(e)` and the rest is the split of what
/// follows the separator.
pub proof fn lemma_split_bytes_first(s: Seq<u8>, sep: u8, e: int)
    requires
        0 <= e <= s.len(),
        forall|k: int| 0 <= k < e ==> s[k] != sep,
        e < s.len() ==> s[e] == sep,
    ensures
        e == s.len() ==> split_bytes(s, sep) =~~= seq![s],
        e < s.len() ==> split_bytes(s, sep) =~~= seq![s.take(e)] + split_bytes(
            s.skip(e + 1),
            sep,
        ),
    decreases s.len(),
{
    if s.len() == 0 {
        assert(split_bytes(s, sep) =~~= seq![s]);
    } else if e == 0 {
        if s[0] == sep {
            assert(s.skip(1) =~= s.drop_first());
            assert(s.take(0) =~= Seq::<u8>::empty());
        } else {
            // e == 0 < s.len() requires s[e] == sep, contradiction
        }
    } else {
        // s[0] != sep, so the first piece of s extends the first piece of
        // s.drop_first() by s[0].
        let t = s.drop_first();
        lemma_split_bytes_first(t, sep, e - 1);
        lemma_split_bytes_len(t, sep);
        if e == s.len() {
            assert(split_bytes(t, sep) =~= seq![t]);
            assert(seq![s[0]] + t =~= s);
            assert(split_bytes(s, sep) =~~= seq![s]);
        } else {
            assert(t.skip(e) =~= s.skip(e + 1));
            assert(seq![s[0]] + t.take(e - 1) =~= s.take(e));
            assert(split_bytes(s, sep) =~~= seq![s.take(e)] + split_bytes(s.skip(e + 1), sep));
        }
    }
}

/// Splitting a join recovers the original pieces, provided no piece contains
/// the separator.
pub proof fn lemma_split_join(vs: Seq<Seq<u8>>, sep: u8)
    requires
        vs.len() >= 1,
        forall|i: int| 0 <= i < vs.len() ==> !(#[trigger] vs[i]).contains(sep),
    ensures
        split_bytes(join_bytes(vs, sep), sep) =~~= vs,
    decreases vs.len(),
{
    let j = join_bytes(vs, sep);
    if vs.len() == 1 {
        assert(forall|k: int| 0 <= k < j.len() ==> j[k] != sep) by {
            assert(forall|k: int| 0 <= k < vs[0].len() ==> vs[0][k] == j[k]);
        }
        lemma_split_bytes_first(j, sep, j.len() as int);
    } else {
        let e = vs[0].len() as int;
        assert(forall|k: int| 0 <= k < e ==> j[k] != sep) by {
            assert(forall|k: int| 0 <= k < vs[0].len() ==> vs[0][k] == j[k]);
        }
        assert(j[e] == sep);
        lemma_split_bytes_first(j, sep, e);
        assert(j.take(e) =~= vs[0]);
        assert(j.skip(e + 1) =~= join_bytes(vs.drop_first(), sep));
        assert(vs.drop_first().len() >= 1);
        lemma_split_join(vs.drop_first(), sep);
        assert(split_bytes(j, sep) =~~= seq![vs[0]] + vs.drop_first());
        assert(seq![vs[0]] + vs.drop_first() =~~= vs);
    }
}

/// Find the first occurrence of `sep` in `bytes[from..to]`; returns `to`
/// when there is none.
pub fn find_in(bytes: &[u8], from: usize, to: usize, sep: u8) -> (r: usize)
    requires
        from <= to <= bytes@.len(),
    ensures
        from <= r <= to,
        forall|k: int| from <= k < r ==> bytes@[k] != sep,
        r < to ==> bytes@[r as int] == sep,
{
    let mut i: usize = from;
    while i < to
        invariant
            from <= i <= to <= bytes@.len(),
            forall|k: int| from <= k < i ==> bytes@[k] != sep,
        decreases to - i,
    {
        if bytes[i] == sep {
            return i;
        }
        i = i + 1;
    }
    to
}

/// A single ASCII byte is a valid UTF-8 sequence.
pub proof fn lemma_ascii_byte_valid(b: u8)
    requires
        b < 0x80,
    ensures
        valid_utf8(seq![b]),
{
    let s = seq![b];
    assert(vstd::utf8::is_leading_byte_width_1(s[0]));
    assert(vstd::utf8::length_of_first_scalar(s) == 1);
    assert(vstd::utf8::decode_first_codepoint(s) == vstd::utf8::codepoint_width_1(b));
    assert(vstd::utf8::codepoint_width_1(b) == (b & 0x7f) as u32);
    assert(b & 0x7f == b) by (bit_vector)
        requires
            b < 0x80,
    ;
    assert(vstd::utf8::not_surrogate(vstd::utf8::decode_first_codepoint(s)));
    assert(vstd::utf8::pop_first_scalar(s) =~= Seq::<u8>::empty());
    assert(valid_utf8(Seq::<u8>::empty()));
}

/// Joining valid UTF-8 pieces with an ASCII separator is valid UTF-8.
pub proof fn lemma_join_bytes_valid(vs: Seq<Seq<u8>>, sep: u8)
    requires
        sep < 0x80,
        forall|i: int| 0 <= i < vs.len() ==> valid_utf8(#[trigger] vs[i]),
    ensures
        valid_utf8(join_bytes(vs, sep)),
    decreases vs.len(),
{
    if vs.len() == 0 {
    } else if vs.len() == 1 {
        assert(valid_utf8(vs[0]));
    } else {
        lemma_join_bytes_valid(vs.drop_first(), sep);
        lemma_ascii_byte_valid(sep);
        vstd::utf8::valid_utf8_concat(vs[0], seq![sep]);
        vstd::utf8::valid_utf8_concat(vs[0] + seq![sep], join_bytes(vs.drop_first(), sep));
    }
}

/// A byte that is neither the separator nor in any piece is not in the join.
pub proof fn lemma_join_bytes_free_of(vs: Seq<Seq<u8>>, sep: u8, b: u8)
    requires
        sep != b,
        forall|i: int| 0 <= i < vs.len() ==> !(#[trigger] vs[i]).contains(b),
    ensures
        !join_bytes(vs, sep).contains(b),
    decreases vs.len(),
{
    if vs.len() == 0 {
    } else if vs.len() == 1 {
        assert(!vs[0].contains(b));
        if join_bytes(vs, sep).contains(b) {
            let k = choose|k: int|
                0 <= k < join_bytes(vs, sep).len() && join_bytes(vs, sep)[k] == b;
            assert(vs[0][k] == b);
        }
    } else {
        lemma_join_bytes_free_of(vs.drop_first(), sep, b);
        let j = join_bytes(vs, sep);
        let tail = join_bytes(vs.drop_first(), sep);
        if j.contains(b) {
            let k = choose|k: int| 0 <= k < j.len() && j[k] == b;
            if k < vs[0].len() {
                assert(vs[0][k] == b);
            } else if k == vs[0].len() {
                assert(j[k] == sep);
            } else {
                assert(tail[k - vs[0].len() - 1] == b);
            }
        }
    }
}

/// Joining the pieces of a split restores the original sequence.
pub proof fn lemma_join_split(x: Seq<u8>, sep: u8)
    ensures
        join_bytes(split_bytes(x, sep), sep) =~= x,
    decreases x.len(),
{
    if x.len() == 0 {
    } else if x[0] == sep {
        lemma_join_split(x.drop_first(), sep);
        let s = split_bytes(x.drop_first(), sep);
        lemma_split_bytes_len(x.drop_first(), sep);
        assert((seq![Seq::<u8>::empty()] + s).drop_first() =~~= s);
        assert(join_bytes(seq![Seq::<u8>::empty()] + s, sep) =~= Seq::<u8>::empty() + seq![sep]
            + join_bytes(s, sep));
        assert(Seq::<u8>::empty() + seq![sep] + x.drop_first() =~= x);
    } else {
        lemma_join_split(x.drop_first(), sep);
        let s = split_bytes(x.drop_first(), sep);
        lemma_split_bytes_len(x.drop_first(), sep);
        let w = seq![seq![x[0]] + s[0]] + s.drop_first();
        if s.len() == 1 {
            assert(w.len() == 1);
            assert(join_bytes(w, sep) == w[0]);
            assert(join_bytes(s, sep) == s[0]);
            assert(seq![x[0]] + s[0] =~= x);
        } else {
            assert(w.len() >= 2);
            assert(w[0] == seq![x[0]] + s[0]);
            assert(w.drop_first() =~~= s.drop_first());
            assert(join_bytes(w, sep) == w[0] + seq![sep] + join_bytes(s.drop_first(), sep));
            assert(join_bytes(s, sep) == s[0] + seq![sep] + join_bytes(s.drop_first(), sep));
            assert(join_bytes(s, sep) =~= x.drop_first());
            assert((seq![x[0]] + s[0]) + seq![sep] + join_bytes(s.drop_first(), sep) =~= seq![
                x[0],
            ] + (s[0] + seq![sep] + join_bytes(s.drop_first(), sep)));
            assert(seq![x[0]] + x.drop_first() =~= x);
        }
    }
}

/// Count of occurrences of `sep` in `s`.
pub open spec fn count_byte(s: Seq<u8>, sep: u8) -> int
    decreases s.len(),
{
    if s.len() == 0 {
        0
    } else {
        count_byte(s.drop_first(), sep) + if s[0] == sep {
            1int
        } else {
            0int
        }
    }
}

/// A split has one more piece than the number of separators.
pub proof fn lemma_split_bytes_count(s: Seq<u8>, sep: u8)
    ensures
        split_bytes(s, sep).len() == count_byte(s, sep) + 1,
    decreases s.len(),
{
    if s.len() > 0 {
        lemma_split_bytes_count(s.drop_first(), sep);
        if s[0] != sep {
            lemma_split_bytes_len(s.drop_first(), sep);
        }
    }
}

pub proof fn lemma_count_byte_bounds(s: Seq<u8>, sep: u8)
    ensures
        0 <= count_byte(s, sep) <= s.len(),
        s.len() > 0 && s.last() == sep ==> count_byte(s, sep) >= 1,
    decreases s.len(),
{
    if s.len() > 0 {
        lemma_count_byte_bounds(s.drop_first(), sep);
        if s.len() > 1 {
            assert(s.drop_first().last() == s.last());
        }
    }
}

/// Splitting a concatenation whose first part is separator-terminated:
/// the pieces are those of the first part (whose trailing empty piece is
/// absorbed) followed by those of the second.
pub proof fn lemma_split_append(a: Seq<u8>, b: Seq<u8>, sep: u8)
    requires
        a.len() == 0 || a.last() == sep,
    ensures
        split_bytes(a + b, sep) =~~= split_bytes(a, sep).drop_last() + split_bytes(b, sep),
    decreases a.len(),
{
    if a.len() == 0 {
        assert(a + b =~= b);
        assert(split_bytes(a, sep).drop_last() =~= Seq::<Seq<u8>>::empty());
        assert(split_bytes(a, sep).drop_last() + split_bytes(b, sep) =~~= split_bytes(b, sep));
    } else if a[0] == sep {
        assert((a + b).drop_first() =~= a.drop_first() + b);
        if a.len() > 1 {
            assert(a.drop_first().last() == a.last());
        }
        lemma_split_append(a.drop_first(), b, sep);
        lemma_split_bytes_len(a.drop_first(), sep);
        assert((a + b)[0] == sep);
        assert(split_bytes(a + b, sep) =~~= seq![Seq::<u8>::empty()] + (split_bytes(
            a.drop_first(),
            sep,
        ).drop_last() + split_bytes(b, sep)));
        assert(split_bytes(a, sep).drop_last() =~~= seq![Seq::<u8>::empty()] + split_bytes(
            a.drop_first(),
            sep,
        ).drop_last());
    } else {
        // a starts with a non-separator and ends with the separator, so it
        // has at least two bytes and its tail still ends with the separator.
        assert(a.len() >= 2);
        assert(a.drop_first().last() == a.last());
        assert((a + b).drop_first() =~= a.drop_first() + b);
        lemma_split_append(a.drop_first(), b, sep);
        let r2 = split_bytes(a.drop_first(), sep);
        lemma_split_bytes_len(a.drop_first(), sep);
        lemma_split_bytes_count(a.drop_first(), sep);
        lemma_count_byte_bounds(a.drop_first(), sep);
        assert(r2.len() >= 2);
        let rest = split_bytes((a + b).drop_first(), sep);
        assert(rest =~~= r2.drop_last() + split_bytes(b, sep));
        lemma_split_bytes_len(b, sep);
        assert(rest[0] == r2.drop_last()[0]);
        assert(r2.drop_last()[0] == r2[0]);
        assert((a + b)[0] == a[0]);
        assert(split_bytes(a + b, sep) =~~= seq![seq![a[0]] + rest[0]] + rest.drop_first());
        assert(rest.drop_first() =~~= r2.drop_last().drop_first() + split_bytes(b, sep));
        assert(r2.drop_last().drop_first() =~~= r2.drop_first().drop_last());
        assert(split_bytes(a, sep) =~~= seq![seq![a[0]] + r2[0]] + r2.drop_first());
        assert(split_bytes(a, sep).drop_last() =~~= seq![seq![a[0]] + r2[0]]
            + r2.drop_first().drop_last());
        assert(split_bytes(a + b, sep) =~~= seq![seq![a[0]] + r2[0]] + (
        r2.drop_first().drop_last() + split_bytes(b, sep)));
    }
}

/// Big-endian bytes of a 32-bit integer.
pub open spec fn be32_bytes(v: u32) -> Seq<u8> {
    seq![(v >> 24u32) as u8, (v >> 16u32) as u8, (v >> 8u32) as u8, v as u8]
}

/// The 32-bit integer denoted by four big-endian bytes.
pub open spec fn be32_val(b: Seq<u8>) -> u32
    recommends
        b.len() == 4,
{
    (b[0] * 0x100_0000 + b[1] * 0x1_0000 + b[2] * 0x100 + b[3]) as u32
}

/// Big-endian bytes of a 64-bit integer.
pub open spec fn be64_bytes(v: u64) -> Seq<u8> {
    seq![
        (v >> 56u64) as u8,
        (v >> 48u64) as u8,
        (v >> 40u64) as u8,
        (v >> 32u64) as u8,
        (v >> 24u64) as u8,
        (v >> 16u64) as u8,
        (v >> 8u64) as u8,
        v as u8,
    ]
}

/// The 64-bit integer denoted by eight big-endian bytes.
pub open spec fn be64_val(b: Seq<u8>) -> u64
    recommends
        b.len() == 8,
{
    (b[0] * 0x100_0000_0000_0000 + b[1] * 0x1_0000_0000_0000 + b[2] * 0x100_0000_0000 + b[3]
        * 0x1_0000_0000 + b[4] * 0x100_0000 + b[5] * 0x1_0000 + b[6] * 0x100 + b[7]) as u64
}

/// Reading back the big-endian bytes of a value gives the value.
pub proof fn lemma_be32_roundtrip(v: u32)
    ensures
        be32_val(be32_bytes(v)) == v,
{
    assert((((v >> 24u32) as u8) * 0x100_0000 + ((v >> 16u32) as u8) * 0x1_0000 + ((v
        >> 8u32) as u8) * 0x100 + (v as u8)) as u32 == v) by (bit_vector);
}

/// Reading back the big-endian bytes of a value gives the value.
pub proof fn lemma_be64_roundtrip(v: u64)
    ensures
        be64_val(be64_bytes(v)) == v,
{
    assert((((v >> 56u64) as u8) * 0x100_0000_0000_0000 + ((v >> 48u64) as u8) * 0x1_0000_0000_0000
        + ((v >> 40u64) as u8) * 0x100_0000_0000 + ((v >> 32u64) as u8) * 0x1_0000_0000 + ((v
        >> 24u64) as u8) * 0x100_0000 + ((v >> 16u64) as u8) * 0x1_0000 + ((v >> 8u64) as u8)
        * 0x100 + (v as u8)) as u64 == v) by (bit_vector);
}

/// Re-encoding the value read from eight big-endian bytes gives those bytes.
pub proof fn lemma_be64_val_bytes(b: Seq<u8>)
    requires
        b.len() == 8,
    ensures
        be64_bytes(be64_val(b)) =~= b,
{
    let x0: u8 = b[0];
    let x1: u8 = b[1];
    let x2: u8 = b[2];
    let x3: u8 = b[3];
    let x4: u8 = b[4];
    let x5: u8 = b[5];
    let x6: u8 = b[6];
    let x7: u8 = b[7];
    let v = be64_val(b);
    assert(v == (x0 * 0x100_0000_0000_0000 + x1 * 0x1_0000_0000_0000 + x2 * 0x100_0000_0000 + x3
        * 0x1_0000_0000 + x4 * 0x100_0000 + x5 * 0x1_0000 + x6 * 0x100 + x7) as u64);
    assert({
        let w = (x0 * 0x100_0000_0000_0000 + x1 * 0x1_0000_0000_0000 + x2 * 0x100_0000_0000 + x3
            * 0x1_0000_0000 + x4 * 0x100_0000 + x5 * 0x1_0000 + x6 * 0x100 + x7) as u64;
        (w >> 56u64) as u8 == x0 && (w >> 48u64) as u8 == x1 && (w >> 40u64) as u8 == x2 && (w
            >> 32u64) as u8 == x3 && (w >> 24u64) as u8 == x4 && (w >> 16u64) as u8 == x5 && (w
            >> 8u64) as u8 == x6 && w as u8 == x7
    }) by (bit_vector);
}

/// Re-encoding the value read from four big-endian bytes gives those bytes.
pub proof fn lemma_be32_val_bytes(b: Seq<u8>)
    requires
        b.len() == 4,
    ensures
        be32_bytes(be32_val(b)) =~= b,
{
    let x0: u8 = b[0];
    let x1: u8 = b[1];
    let x2: u8 = b[2];
    let x3: u8 = b[3];
    let v = be32_val(b);
    assert(((x0 * 0x100_0000 + x1 * 0x1_0000 + x2 * 0x100 + x3) as u32 >> 24u32) as u8 == x0
        && ((x0 * 0x100_0000 + x1 * 0x1_0000 + x2 * 0x100 + x3) as u32 >> 16u32) as u8 == x1 && ((
    x0 * 0x100_0000 + x1 * 0x1_0000 + x2 * 0x100 + x3) as u32 >> 8u32) as u8 == x2 && ((x0
        * 0x100_0000 + x1 * 0x1_0000 + x2 * 0x100 + x3) as u32) as u8 == x3) by (bit_vector);
}

/// Append the big-endian bytes of `v`.
pub fn push_be32(out: &mut Vec<u8>, v: u32)
    ensures
        final (out)@ == old(out)@ + be32_bytes(v),
{
    out.push((v >> 24u32) as u8);
    out.push((v >> 16u32) as u8);
    out.push((v >> 8u32) as u8);
    out.push(v as u8);
    proof {
        assert(out@ =~= old(out)@ + be32_bytes(v));
    }
}

/// Append the big-endian bytes of `v`.
pub fn push_be64(out: &mut Vec<u8>, v: u64)
    ensures
        final (out)@ == old(out)@ + be64_bytes(v),
{
    out.push((v >> 56u64) as u8);
    out.push((v >> 48u64) as u8);
    out.push((v >> 40u64) as u8);
    out.push((v >> 32u64) as u8);
    out.push((v >> 24u64) as u8);
    out.push((v >> 16u64) as u8);
    out.push((v >> 8u64) as u8);
    out.push(v as u8);
    proof {
        assert(out@ =~= old(out)@ + be64_bytes(v));
    }
}

/// Read a big-endian 32-bit integer at offset `at`.
pub fn read_be32(b: &[u8], at: usize) -> (r: u32)
    requires
        at + 4 <= b@.len(),
    ensures
        r == be32_val(b@.subrange(at as int, at + 4)),
{
    let b0 = b[at];
    let b1 = b[at + 1];
    let b2 = b[at + 2];
    let b3 = b[at + 3];
    proof {
        assert(((b0 as u32) << 24u32) | ((b1 as u32) << 16u32) | ((b2 as u32) << 8u32) | (
        b3 as u32) == (b0 * 0x100_0000 + b1 * 0x1_0000 + b2 * 0x100 + b3) as u32) by (bit_vector);
    }
    ((b0 as u32) << 24u32) | ((b1 as u32) << 16u32) | ((b2 as u32) << 8u32) | (b3 as u32)
}

/// Read a big-endian 64-bit integer at offset `at`.
pub fn read_be64(b: &[u8], at: usize) -> (r: u64)
    requires
        at + 8 <= b@.len(),
    ensures
        r == be64_val(b@.subrange(at as int, at + 8)),
{
    let n = b.len();
    let hi = read_be32(b, at);
    let lo = read_be32(b, at + 4);
    proof {
        let s = b@.subrange(at as int, at + 8);
        assert(b@.subrange(at as int, at + 4) =~= s.subrange(0, 4));
        assert(b@.subrange(at + 4, at + 8) =~= s.subrange(4, 8));
        let x0: u8 = s[0];
        let x1: u8 = s[1];
        let x2: u8 = s[2];
        let x3: u8 = s[3];
        let x4: u8 = s[4];
        let x5: u8 = s[5];
        let x6: u8 = s[6];
        let x7: u8 = s[7];
        assert(hi == (x0 * 0x100_0000 + x1 * 0x1_0000 + x2 * 0x100 + x3) as u32);
        assert(lo == (x4 * 0x100_0000 + x5 * 0x1_0000 + x6 * 0x100 + x7) as u32);
        assert((((hi as u64) << 32u64) | (lo as u64)) == (x0 * 0x100_0000_0000_0000 + x1
            * 0x1_0000_0000_0000 + x2 * 0x100_0000_0000 + x3 * 0x1_0000_0000 + x4 * 0x100_0000 + x5
            * 0x1_0000 + x6 * 0x100 + x7) as u64) by (bit_vector)
            requires
                hi == (x0 * 0x100_0000 + x1 * 0x1_0000 + x2 * 0x100 + x3) as u32,
                lo == (x4 * 0x100_0000 + x5 * 0x1_0000 + x6 * 0x100 + x7) as u32,
        ;
    }
    ((hi as u64) << 32u64) | (lo as u64)
}

/// Relies on str::from_utf8: it succeeds exactly on valid UTF-8 input.
#[verifier::external_body]
pub fn is_valid_utf8(v: &[u8]) -> (r: bool)
    ensures
        r == valid_utf8(v@),
{
    core::str::from_utf8(v).is_ok()
}

/// UTF-8 encoding distributes over concatenation of character sequences.
pub proof fn lemma_encode_utf8_concat(a: Seq<char>, b: Seq<char>)
    ensures
        encode_utf8(a + b) == encode_utf8(a) + encode_utf8(b),
    decreases a.len(),
{
    if a.len() == 0 {
        assert(a + b =~= b);
        assert(encode_utf8(a) + encode_utf8(b) =~= encode_utf8(b));
    } else {
        assert((a + b).drop_first() =~= a.drop_first() + b);
        lemma_encode_utf8_concat(a.drop_first(), b);
        assert((a + b)[0] == a[0]);
        assert(encode_scalar(a[0] as u32) + (encode_utf8(a.drop_first()) + encode_utf8(b)) =~= (
        encode_scalar(a[0] as u32) + encode_utf8(a.drop_first())) + encode_utf8(b));
    }
}

/// UTF-8 encoding is injective on character sequences.
pub proof fn lemma_encode_utf8_injective(a: Seq<char>, b: Seq<char>)
    requires
        encode_utf8(a) == encode_utf8(b),
    ensures
        a == b,
{
    vstd::utf8::encode_utf8_decode_utf8(a);
    vstd::utf8::encode_utf8_decode_utf8(b);
    assert(a =~= b);
}

/// In a valid UTF-8 byte sequence, an ASCII byte sits on a character
/// boundary, and the position just after it is a boundary too.
pub proof fn lemma_ascii_byte_boundaries(bytes: Seq<u8>, i: int)
    requires
        valid_utf8(bytes),
        0 <= i < bytes.len(),
        bytes[i] < 0x80,
    ensures
        is_char_boundary(bytes, i),
        is_char_boundary(bytes, i + 1),
{
    vstd::utf8::is_char_boundary_iff_not_is_continuation_byte(bytes, i);
    if i + 1 == bytes.len() {
        vstd::utf8::is_char_boundary_start_end_of_seq(bytes);
    } else {
        vstd::utf8::valid_utf8_split(bytes, i);
        let suffix = bytes.subrange(i, bytes.len() as int);
        assert(suffix[0] == bytes[i]);
        assert(vstd::utf8::length_of_first_scalar(suffix) == 1);
        assert(is_char_boundary(suffix, 1)) by {
            assert(is_char_boundary(vstd::utf8::pop_first_scalar(suffix), 0));
        }
        vstd::utf8::is_char_boundary_iff_not_is_continuation_byte(suffix, 1);
        assert(suffix[1] == bytes[i + 1]);
        vstd::utf8::is_char_boundary_iff_not_is_continuation_byte(bytes, i + 1);
    }
}

/// Relies on String::from_utf8: for input that is valid UTF-8 it returns the
/// string holding exactly those bytes.
#[verifier::external_body]
pub fn utf8_to_string(v: &[u8]) -> (r: String)
    requires
        valid_utf8(v@),
    ensures
        encode_utf8(r@) == v@,
{
    match String::from_utf8(v.to_vec()) {
        Ok(s) => s,
        Err(_) => String::new(),
    }
}

/// Split a string at every occurrence of the ASCII separator `sep`, keeping
/// empty pieces; the pieces' UTF-8 bytes are exactly the byte-level split of
/// the string's UTF-8 bytes.
pub fn split_str(s: &str, sep: u8) -> (r: Vec<String>)
    requires
        sep < 0x80,
    ensures
        r@.len() == split_bytes(s.spec_bytes(), sep).len(),
        forall|i: int|
            0 <= i < r@.len() ==> encode_utf8((#[trigger] r@[i])@) == split_bytes(
                s.spec_bytes(),
                sep,
            )[i],
{
    let ghost whole = s.spec_bytes();
    let mut out: Vec<String> = Vec::new();
    let mut rest: &str = s;
    let mut more = true;
    while more
        invariant
            sep < 0x80,
            more ==> {
                &&& split_bytes(whole, sep).len() == out@.len() + split_bytes(
                    rest.spec_bytes(),
                    sep,
                ).len()
                &&& forall|j: int|
                    0 <= j < split_bytes(rest.spec_bytes(), sep).len() ==> split_bytes(whole, sep)[
                        out@.len() + j
                    ] == #[trigger] split_bytes(rest.spec_bytes(), sep)[j]
            },
            !more ==> out@.len() == split_bytes(whole, sep).len(),
            forall|i: int|
                0 <= i < out@.len() ==> encode_utf8((#[trigger] out@[i])@) == split_bytes(
                    whole,
                    sep,
                )[i],
        decreases rest.spec_bytes().len() + (if more {
            1int
        } else {
            0int
        }),
    {
        proof {
            vstd::utf8::encode_utf8_valid_utf8(rest@);
        }
        let ghost rb = rest.spec_bytes();
        let b = rest.as_bytes();
        let m = b.len();
        let c = find_in(b, 0, m, sep);
        if c == m {
            proof {
                lemma_split_bytes_first(rb, sep, rb.len() as int);
            }
            let ghost prev_out = out@;
            out.push(rest.to_owned());
            more = false;
            proof {
                assert(split_bytes(rb, sep)[0] == rb);
                assert(split_bytes(whole, sep)[prev_out.len() as int] == rb);
                assert(encode_utf8(out@[prev_out.len() as int]@) == rb);
            }
        } else {
            proof {
                lemma_ascii_byte_boundaries(rb, c as int);
            }
            let pieces = rest.split_at(c);
            let ghost leftb = rb.subrange(0, c as int);
            let ghost rightb = rb.subrange(c as int, rb.len() as int);
            proof {
                assert(pieces.0.spec_bytes() =~= leftb);
                assert(pieces.1.spec_bytes() =~= rightb);
                vstd::utf8::valid_utf8_split(rb, c as int);
                assert(rightb[0] == rb[c as int]);
                lemma_ascii_byte_boundaries(rightb, 0);
            }
            let tail_pieces = pieces.1.split_at(1);
            let ghost prev_out = out@;
            out.push(pieces.0.to_owned());
            rest = tail_pieces.1;
            proof {
                assert(rest.spec_bytes() =~= rb.skip(c + 1));
                lemma_split_bytes_first(rb, sep, c as int);
                assert(split_bytes(rb, sep) == seq![leftb] + split_bytes(rb.skip(c + 1), sep));
                assert(encode_utf8(out@[prev_out.len() as int]@) == leftb);
                assert(split_bytes(rb, sep)[0] == leftb);
                assert(split_bytes(whole, sep)[prev_out.len() as int] == leftb);
                assert(forall|j: int|
                    0 <= j < split_bytes(rb.skip(c + 1), sep).len() ==> split_bytes(rb, sep)[1 + j]
                        == #[trigger] split_bytes(rb.skip(c + 1), sep)[j]);
            }
        }
    }
    out
}

/// Whether `s` is a nonempty string of ASCII decimal digits.
pub open spec fn all_digits(s: Seq<u8>) -> bool {
    s.len() > 0 && forall|i: int| 0 <= i < s.len() ==> 0x30 <= #[trigger] s[i] <= 0x39
}

/// The number denoted by a string of ASCII decimal digits.
pub open spec fn digits_val(s: Seq<u8>) -> int
    decreases s.len(),
{
    if s.len() == 0 {
        0
    } else {
        digits_val(s.drop_last()) * 10 + (s.last() - 0x30)
    }
}

/// A string of digits denotes a non-negative number.
pub proof fn lemma_digits_val_nonneg(s: Seq<u8>)
    requires
        forall|i: int| 0 <= i < s.len() ==> 0x30 <= #[trigger] s[i] <= 0x39,
    ensures
        digits_val(s) >= 0,
    decreases s.len(),
{
    if s.len() > 0 {
        lemma_digits_val_nonneg(s.drop_last());
    }
}

/// The value of a digit string is at least the value of any of its prefixes.
pub proof fn lemma_digits_val_prefix_le(s: Seq<u8>, j: int)
    requires
        0 <= j <= s.len(),
        forall|i: int| 0 <= i < s.len() ==> 0x30 <= #[trigger] s[i] <= 0x39,
    ensures
        digits_val(s.take(j)) <= digits_val(s),
    decreases s.len() - j,
{
    if j < s.len() {
        lemma_digits_val_prefix_le(s, j + 1);
        assert(s.take(j + 1).drop_last() =~= s.take(j));
        lemma_digits_val_nonneg(s.take(j));
        assert(digits_val(s.take(j)) <= digits_val(s.take(j + 1)));
    } else {
        assert(s.take(j) =~= s);
    }
}

/// Parse a nonempty ASCII decimal digit string as a `u32`, rejecting
/// anything that is not all digits or does not fit.
pub fn parse_u32(bytes: &[u8]) -> (r: Option<u32>)
    ensures
        match r {
            Some(v) => all_digits(bytes@) && digits_val(bytes@) == v,
            None => !all_digits(bytes@) || digits_val(bytes@) > u32::MAX,
        },
{
    if bytes.len() == 0 {
        return None;
    }
    let mut v: u32 = 0;
    let mut i: usize = 0;
    proof {
        assert(bytes@.take(0) =~= Seq::<u8>::empty());
    }
    while i < bytes.len()
        invariant
            0 <= i <= bytes@.len(),
            v == digits_val(bytes@.take(i as int)),
            forall|k: int| 0 <= k < i ==> 0x30 <= #[trigger] bytes@[k] <= 0x39,
        decreases bytes@.len() - i,
    {
        let b = bytes[i];
        if b < 0x30 || b > 0x39 {
            return None;
        }
        let d = (b - 0x30) as u32;
        proof {
            assert(bytes@.take(i + 1).drop_last() =~= bytes@.take(i as int));
        }
        proof {
            vstd::arithmetic::div_mod::lemma_fundamental_div_mod((u32::MAX - d) as int, 10);
        }
        if v > (u32::MAX - d) / 10 {
            proof {
                assert(digits_val(bytes@.take(i + 1)) > u32::MAX);
                if all_digits(bytes@) {
                    lemma_digits_val_prefix_le(bytes@, i + 1);
                }
            }
            return None;
        }
        v = v * 10 + d;
        i = i + 1;
    }
    proof {
        assert(bytes@.take(bytes@.len() as int) =~= bytes@);
    }
    Some(v)
}

} // verus!
