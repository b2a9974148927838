//! Bit-level utilities and the string hash that the multi-attribute hashing
//! scheme is built on.

use vstd::prelude::*;

verus! {

use vstd::arithmetic::power2::pow2;
use vstd::string::StringSliceAdditionalSpecFns;
use vstd::bits::{
    lemma_u32_low_bits_mask_is_mod, lemma_u32_pow2_no_overflow, lemma_u32_shl_is_mul,
    lemma_u64_pow2_no_overflow, lemma_u64_shl_is_mul, low_bits_mask,
};

/// Width in bits of every hash this engine works with.
pub const HASH_SIZE: usize = 32;

/// Bit `i` of `val`, as 0 or 1.
pub open spec fn bit_at(val: u32, i: u32) -> u32
    recommends
        i < 32,
{
    (val >> i) & 1
}

/// Grab the `i`th bit of a value.
pub fn bit(i: u8, val: u32) -> (r: u32)
    requires
        i < 32,
    ensures
        r == bit_at(val, i as u32),
        r == 0 || r == 1,
{
    proof {
        assert((val >> (i as u32)) & 1 == 0 || (val >> (i as u32)) & 1 == 1) by (bit_vector);
    }
    (val >> (i as u32)) & 1
}

/// Grab the lower `n` bits of a value; `n == 0` yields 0 and `n == 32`
/// yields the value itself.
pub fn lower_bits(n: u8, val: u32) -> (r: u32)
    requires
        n <= 32,
    ensures
        r as nat == val as nat % pow2(n as nat),
{
    if n == 32 {
        proof {
            vstd::arithmetic::power2::lemma2_to64();
            assert(val as nat % pow2(32) == val as nat) by {
                assert(pow2(32) == 0x100000000);
            }
        }
        val
    } else {
        proof {
            lemma_u32_pow2_no_overflow(n as nat);
            lemma_u32_shl_is_mul(1u32, n as u32);
            assert(1u32 << (n as u32) == pow2(n as nat));
            lemma_u32_low_bits_mask_is_mod(val, n as nat);
            assert((1u32 << (n as u32)) - 1 == low_bits_mask(n as nat) as u32);
        }
        val & ((1u32 << (n as u32)) - 1)
    }
}

/// Position of the highest set bit of `v`, plus one; 0 maps to 0.
pub fn highest_set_bit(number: u32) -> (r: u8)
    ensures
        r <= 32,
        number == 0 <==> r == 0,
        number > 0 ==> pow2((r - 1) as nat) <= number < pow2(r as nat),
{
    let mut result: u8 = 0;
    let mut iter: u32 = number;
    proof {
        vstd::arithmetic::power2::lemma2_to64();
        vstd::arithmetic::div_mod::lemma_div_basics(number as int);
    }
    while iter != 0
        invariant
            result <= 32,
            iter as nat == number as nat / pow2(result as nat),
            number > 0 && result > 0 ==> pow2((result - 1) as nat) <= number,
            number == 0 ==> result == 0,
        decreases iter,
    {
        proof {
            vstd::arithmetic::power2::lemma_pow2_pos(result as nat);
            // iter > 0 means number / 2^result > 0, so 2^result <= number,
            // and the next candidate position is still in range.
            assert(number as nat >= pow2(result as nat)) by {
                if (number as nat) < pow2(result as nat) {
                    vstd::arithmetic::div_mod::lemma_basic_div(
                        number as int,
                        pow2(result as nat) as int,
                    );
                }
            }
            assert(result < 32) by {
                if result == 32 {
                    vstd::arithmetic::power2::lemma2_to64();
                    assert(pow2(32) == 0x100000000);
                }
            }
            vstd::arithmetic::power2::lemma2_to64();
            assert(iter >> 1u32 == iter / 2) by (bit_vector);
            vstd::arithmetic::div_mod::lemma_div_denominator(
                number as int,
                pow2(result as nat) as int,
                2,
            );
            vstd::arithmetic::power2::lemma_pow2_adds(result as nat, 1);
        }
        result = result + 1;
        iter = iter >> 1u32;
    }
    proof {
        vstd::arithmetic::power2::lemma2_to64();
        vstd::arithmetic::div_mod::lemma_div_basics(number as int);
        if number > 0 {
            assert(result > 0);
            vstd::arithmetic::power2::lemma_pow2_pos(result as nat);
            vstd::arithmetic::div_mod::lemma_small_div_converse(
                number as int,
                pow2(result as nat) as int,
            );
        }
    }
    result
}

/// The exponent of the largest power of two that is at most `n`.
pub open spec fn floor_log2(n: nat) -> nat
    decreases n,
{
    if n <= 1 {
        0
    } else {
        1 + floor_log2(n / 2)
    }
}

pub proof fn lemma_floor_log2(n: nat)
    requires
        n >= 1,
    ensures
        pow2(floor_log2(n)) <= n < pow2(floor_log2(n) + 1),
    decreases n,
{
    vstd::arithmetic::power2::lemma2_to64();
    if n > 1 {
        lemma_floor_log2(n / 2);
        vstd::arithmetic::power2::lemma_pow2_adds(floor_log2(n / 2), 1);
        vstd::arithmetic::power2::lemma_pow2_adds(floor_log2(n / 2) + 1, 1);
    }
}

pub proof fn lemma_floor_log2_unique(n: nat, d: nat)
    requires
        n >= 1,
        pow2(d) <= n < pow2(d + 1),
    ensures
        floor_log2(n) == d,
{
    lemma_floor_log2(n);
    let f = floor_log2(n);
    if f < d {
        vstd::arithmetic::power2::lemma_pow2_strictly_increases(f + 1, d + 1);
        vstd::arithmetic::power2::lemma_pow2_adds(f, 1);
        if f + 1 < d {
            vstd::arithmetic::power2::lemma_pow2_strictly_increases(f + 1, d);
        }
        assert(pow2(d) >= pow2(f + 1));
        assert(false);
    }
    if f > d {
        if d + 1 < f {
            vstd::arithmetic::power2::lemma_pow2_strictly_increases(d + 1, f);
        }
        assert(pow2(f) >= pow2(d + 1));
        assert(false);
    }
}

/// Mask with the low `n` bits set, for `n <= 32`.
pub open spec fn mask32(n: u32) -> u32
    recommends
        n <= 32,
{
    ((1u64 << (n as u64)) - 1) as u32
}

/// Masking with the low `n` bits is reduction modulo `2^n`.
pub proof fn lemma_mask32_is_mod(v: u32, n: u32)
    requires
        n <= 32,
    ensures
        (v & mask32(n)) as nat == v as nat % pow2(n as nat),
{
    if n == 32 {
        assert(v & (((1u64 << 32u64) - 1) as u32) == v) by (bit_vector);
        vstd::arithmetic::power2::lemma2_to64();
        assert(v as nat % pow2(32) == v as nat) by {
            assert(pow2(32) == 0x100000000);
        }
    } else {
        lemma_u64_pow2_no_overflow(n as nat);
        lemma_u64_shl_is_mul(1u64, n as u64);
        assert(1u64 << (n as u64) == pow2(n as nat));
        lemma_u32_pow2_no_overflow(n as nat);
        assert(mask32(n) == low_bits_mask(n as nat) as u32);
        lemma_u32_low_bits_mask_is_mod(v, n as nat);
    }
}

proof fn lemma_bits_eq_upto(x: u32, y: u32, i: u32)
    requires
        i <= 32,
        forall|j: u32| j < i ==> #[trigger] bit_at(x, j) == bit_at(y, j),
    ensures
        x & mask32(i) == y & mask32(i),
    decreases i,
{
    if i == 0 {
        assert(x & (((1u64 << 0u64) - 1) as u32) == y & (((1u64 << 0u64) - 1) as u32))
            by (bit_vector);
    } else {
        lemma_bits_eq_upto(x, y, (i - 1) as u32);
        assert(bit_at(x, (i - 1) as u32) == bit_at(y, (i - 1) as u32));
        let im1 = (i - 1) as u32;
        assert(x & (((1u64 << ((im1 + 1) as u64)) - 1) as u32) == y & (((1u64 << ((im1
            + 1) as u64)) - 1) as u32)) by (bit_vector)
            requires
                im1 < 32,
                x & (((1u64 << (im1 as u64)) - 1) as u32) == y & (((1u64 << (im1 as u64))
                    - 1) as u32),
                (x >> im1) & 1 == (y >> im1) & 1,
        ;
    }
}

/// Two 32-bit words that agree on every bit are equal.
pub proof fn lemma_bits_eq(x: u32, y: u32)
    requires
        forall|j: u32| j < 32 ==> #[trigger] bit_at(x, j) == bit_at(y, j),
    ensures
        x == y,
{
    lemma_bits_eq_upto(x, y, 32);
    assert(x & (((1u64 << 32u64) - 1) as u32) == x) by (bit_vector);
    assert(y & (((1u64 << 32u64) - 1) as u32) == y) by (bit_vector);
}

/// The FNV-1a offset basis (64-bit variant).
pub const FNV_OFFSET_BASIS: u64 = 0xcbf29ce484222325;

/// The FNV-1a prime (64-bit variant).
pub const FNV_PRIME: u64 = 0x100000001b3;

/// State of the 64-bit FNV-1a hash after absorbing `bytes`, starting from
/// accumulator `h`.
pub open spec fn fnv1a64_from(h: u64, bytes: Seq<u8>) -> u64
    decreases bytes.len(),
{
    if bytes.len() == 0 {
        h
    } else {
        fnv1a64_from(
            vstd::wrapping::u64_specs::wrapping_mul(h ^ (bytes[0] as u64), FNV_PRIME),
            bytes.drop_first(),
        )
    }
}

/// The 32-bit string hash: the low 32 bits of the 64-bit FNV-1a hash of the
/// string's UTF-8 bytes.
pub open spec fn hash_spec(bytes: Seq<u8>) -> u32 {
    fnv1a64_from(FNV_OFFSET_BASIS, bytes) as u32
}

/// Hash a string value to 32 bits.
///
/// The function is FNV-1a over the value's UTF-8 bytes, truncated to the low
/// 32 bits. It is deterministic and part of the on-disk contract: a relation
/// is only readable by an engine computing identical hashes.
pub fn hash(t: &str) -> (r: u32)
    ensures
        r == hash_spec(t.spec_bytes()),
{
    let bytes = t.as_bytes();
    let mut h: u64 = FNV_OFFSET_BASIS;
    let mut i: usize = 0;
    proof {
        assert(bytes@.skip(0) =~= bytes@);
    }
    while i < bytes.len()
        invariant
            i <= bytes@.len(),
            fnv1a64_from(h, bytes@.skip(i as int)) == fnv1a64_from(FNV_OFFSET_BASIS, bytes@),
        decreases bytes@.len() - i,
    {
        let b = bytes[i];
        proof {
            assert(bytes@.skip(i as int).drop_first() =~= bytes@.skip(i + 1));
        }
        h = (h ^ (b as u64)).wrapping_mul(FNV_PRIME);
        i = i + 1;
    }
    h as u32
}

/// Round a user-supplied number of pages up to the nearest power of two.
/// Returns `(n, 2^n)` for the least `n` with `2^n >= num_pages` (0 pages is
/// treated as 1).
pub fn get_depth_and_num_pages(num_pages: u64) -> (r: (u8, u64))
    requires
        num_pages <= 0x8000_0000_0000_0000,
    ensures
        r.1 == pow2(r.0 as nat),
        r.0 <= 63,
        r.1 >= num_pages,
        r.1 >= 1,
        num_pages >= 2 ==> pow2((r.0 - 1) as nat) < num_pages,
        num_pages <= 1 ==> r.0 == 0,
{
    proof {
        vstd::arithmetic::power2::lemma2_to64();
    }
    if num_pages <= 1 {
        return (0, 1);
    }
    let mut n: u8 = 0;
    let mut p: u64 = 1;
    while p < num_pages
        invariant
            num_pages <= 0x8000_0000_0000_0000,
            p == pow2(n as nat),
            n <= 63,
            n >= 1 ==> pow2((n - 1) as nat) < num_pages,
            p <= 0x8000_0000_0000_0000,
        decreases 2 * num_pages - p,
    {
        proof {
            vstd::arithmetic::power2::lemma2_to64();
            vstd::arithmetic::power2::lemma2_to64_rest();
            assert(n < 63) by {
                if n == 63 {
                    assert(pow2(63) == 0x8000000000000000);
                }
            }
            assert(p <= 0x4000_0000_0000_0000) by {
                if n == 62 {
                    assert(pow2(62) == 0x4000000000000000);
                } else {
                    vstd::arithmetic::power2::lemma_pow2_strictly_increases(n as nat, 62);
                    assert(pow2(62) == 0x4000000000000000);
                }
            }
            vstd::arithmetic::power2::lemma_pow2_adds(n as nat, 1);
        }
        p = p * 2;
        n = n + 1;
    }
    (n, p)
}

} // verus!
