//! Bit-level view of bytes and machine words, with the bit-vector facts the
//! packed ring arithmetic relies on.

use vstd::prelude::*;

verus! {

/// Bit `k` (0 = least significant) of a byte.
pub open spec fn bit(b: u8, k: u8) -> bool {
    (b >> k) & 1u8 == 1u8
}

/// Bit `k` (0 = least significant) of a 64-bit word.
pub open spec fn wbit(w: u64, k: u64) -> bool {
    (w >> k) & 1u64 == 1u64
}

/// The eight bits of a byte, least significant first.
pub open spec fn byte_bits(b: u8) -> Seq<bool> {
    Seq::new(8, |k: int| bit(b, k as u8))
}

/// Little-endian bit expansion of a byte string: bit `i` is bit `i % 8` of byte `i / 8`.
pub open spec fn bytes_to_bits(bytes: Seq<u8>) -> Seq<bool> {
    Seq::new(bytes.len() * 8, |i: int| bit(bytes[i / 8], (i % 8) as u8))
}

/// Number of `true` entries of a sequence.
pub open spec fn count_true(s: Seq<bool>) -> nat
    decreases s.len(),
{
    if s.len() == 0 {
        0
    } else {
        count_true(s.drop_last()) + (if s.last() { 1nat } else { 0nat })
    }
}

/// Number of set bits of a byte.
pub open spec fn popcount(b: u8) -> nat {
    count_true(byte_bits(b))
}

/// Sum of the set bits of a byte string.
pub open spec fn popcount_bytes(s: Seq<u8>) -> nat
    decreases s.len(),
{
    if s.len() == 0 {
        0
    } else {
        popcount_bytes(s.drop_last()) + popcount(s.last())
    }
}

pub proof fn lemma_bit_xor(a: u8, b: u8, k: u8)
    requires
        k < 8,
    ensures
        bit(a ^ b, k) == (bit(a, k) != bit(b, k)),
{
    assert(((a ^ b) >> k) & 1u8 == 1u8 <==> (((a >> k) & 1u8 == 1u8) != ((b >> k) & 1u8 == 1u8)))
        by (bit_vector)
        requires
            k < 8,
    ;
}

pub proof fn lemma_bit_and(a: u8, b: u8, k: u8)
    requires
        k < 8,
    ensures
        bit(a & b, k) == (bit(a, k) && bit(b, k)),
{
    assert(((a & b) >> k) & 1u8 == 1u8 <==> (((a >> k) & 1u8 == 1u8) && ((b >> k) & 1u8 == 1u8)))
        by (bit_vector)
        requires
            k < 8,
    ;
}

pub proof fn lemma_bit_zero(k: u8)
    requires
        k < 8,
    ensures
        !bit(0u8, k),
{
    lemma_byte_shift(0u8, k);
}

/// Two bytes with the same eight bits are equal.
pub proof fn lemma_byte_ext(a: u8, b: u8)
    requires
        forall|k: u8| k < 8 ==> bit(a, k) == bit(b, k),
    ensures
        a == b,
{
    assert(bit(a, 0) == bit(b, 0));
    assert(bit(a, 1) == bit(b, 1));
    assert(bit(a, 2) == bit(b, 2));
    assert(bit(a, 3) == bit(b, 3));
    assert(bit(a, 4) == bit(b, 4));
    assert(bit(a, 5) == bit(b, 5));
    assert(bit(a, 6) == bit(b, 6));
    assert(bit(a, 7) == bit(b, 7));
    assert(a == b) by (bit_vector)
        requires
            ((a >> 0u8) & 1u8 == 1u8) == ((b >> 0u8) & 1u8 == 1u8),
            ((a >> 1u8) & 1u8 == 1u8) == ((b >> 1u8) & 1u8 == 1u8),
            ((a >> 2u8) & 1u8 == 1u8) == ((b >> 2u8) & 1u8 == 1u8),
            ((a >> 3u8) & 1u8 == 1u8) == ((b >> 3u8) & 1u8 == 1u8),
            ((a >> 4u8) & 1u8 == 1u8) == ((b >> 4u8) & 1u8 == 1u8),
            ((a >> 5u8) & 1u8 == 1u8) == ((b >> 5u8) & 1u8 == 1u8),
            ((a >> 6u8) & 1u8 == 1u8) == ((b >> 6u8) & 1u8 == 1u8),
            ((a >> 7u8) & 1u8 == 1u8) == ((b >> 7u8) & 1u8 == 1u8),
    ;
}

/// Writing bit `k` of a byte with `(b & !(1 << k)) | ((v & 1) << k)`.
pub proof fn lemma_bit_write(b: u8, k: u8, v: u8, j: u8)
    requires
        k < 8,
        j < 8,
    ensures
        bit((b & !(1u8 << k)) | ((v & 1u8) << k), j) == if j == k {
            v & 1u8 == 1u8
        } else {
            bit(b, j)
        },
{
    assert(((((b & !(1u8 << k)) | ((v & 1u8) << k)) >> j) & 1u8 == 1u8) == if j == k {
        v & 1u8 == 1u8
    } else {
        (b >> j) & 1u8 == 1u8
    }) by (bit_vector)
        requires
            k < 8,
            j < 8,
    ;
}

/// Xoring `m << k` into a byte, for a mask `m` that is 0 or 1.
pub proof fn lemma_bit_toggle(b: u8, k: u8, m: u8, j: u8)
    requires
        k < 8,
        j < 8,
        m <= 1,
    ensures
        bit(b ^ (m << k), j) == if j == k && m == 1 {
            !bit(b, j)
        } else {
            bit(b, j)
        },
{
    assert((((b ^ (m << k)) >> j) & 1u8 == 1u8) == if j == k && m == 1 {
        !((b >> j) & 1u8 == 1u8)
    } else {
        (b >> j) & 1u8 == 1u8
    }) by (bit_vector)
        requires
            k < 8,
            j < 8,
            m <= 1,
    ;
}

/// The popcount of a byte as a sum of its shifted low bits.
pub proof fn lemma_popcount_sum(b: u8)
    ensures
        popcount(b) == (b & 1u8) + ((b >> 1u8) & 1u8) + ((b >> 2u8) & 1u8) + ((b >> 3u8) & 1u8)
            + ((b >> 4u8) & 1u8) + ((b >> 5u8) & 1u8) + ((b >> 6u8) & 1u8) + ((b >> 7u8) & 1u8),
{
    let s = byte_bits(b);
    assert(s.drop_last().drop_last().drop_last().drop_last().drop_last().drop_last().drop_last().drop_last().len() == 0);
    reveal_with_fuel(count_true, 9);
    assert forall|k: u8| k < 8 implies ((b >> k) & 1u8 == 1u8) || ((b >> k) & 1u8 == 0u8) by {
        lemma_byte_shift(b, k);
    }
    lemma_byte_facts(b, 0u8);
}

/// A byte has at most eight set bits.
pub proof fn lemma_popcount_le_8(b: u8)
    ensures
        popcount(b) <= 8,
{
    lemma_popcount_sum(b);
    lemma_byte_facts(b, 0u8);
    lemma_byte_shift(b, 1u8);
    lemma_byte_shift(b, 2u8);
    lemma_byte_shift(b, 3u8);
    lemma_byte_shift(b, 4u8);
    lemma_byte_shift(b, 5u8);
    lemma_byte_shift(b, 6u8);
    lemma_byte_shift(b, 7u8);
}

/// Bit `b` of the byte taken from a 16-bit pair `x:y` shifted left by `s` and
/// then right by eight.
pub proof fn lemma_bit_funnel(x: u8, y: u8, s: u32, b: u8)
    requires
        s < 8,
        b < 8,
    ensures
        bit((((((x as u16) << 8u16) | (y as u16)) << s) >> 8u16) as u8, b) == if b as u32 >= s {
            bit(x, (b as u32 - s) as u8)
        } else {
            bit(y, (8 + b as u32 - s) as u8)
        },
{
    assert((((((((x as u16) << 8u16) | (y as u16)) << s) >> 8u16) as u8 >> b) & 1u8 == 1u8)
        == if b as u32 >= s {
        (x >> ((b as u32 - s) as u8)) & 1u8 == 1u8
    } else {
        (y >> ((8 + b as u32 - s) as u8)) & 1u8 == 1u8
    }) by (bit_vector)
        requires
            s < 8,
            b < 8,
    ;
}

/// Little-endian bit expansion of a word string: bit `g` is bit `g % 64` of word `g / 64`.
pub open spec fn words_to_bits(words: Seq<u64>) -> Seq<bool> {
    Seq::new(words.len() * 64, |g: int| wbit(words[g / 64], (g % 64) as u64))
}

/// Or-ing a byte into the next free byte lane of a partially assembled word.
pub proof fn lemma_word_lane(w: u64, b: u8, k: u64, g: u64)
    requires
        k < 8,
        g < 64,
        w >> (8 * k) == 0,
    ensures
        wbit(w | ((b as u64) << (8 * k)), g) == if g < 8 * k {
            wbit(w, g)
        } else if g < 8 * k + 8 {
            bit(b, (g - 8 * k) as u8)
        } else {
            false
        },
        k < 7 ==> (w | ((b as u64) << (8 * k))) >> (8 * k + 8) == 0,
{
    assert((((w | ((b as u64) << (8 * k))) >> g) & 1u64 == 1u64) == if g < 8 * k {
        (w >> g) & 1u64 == 1u64
    } else if g < 8 * k + 8 {
        (b >> ((g - 8 * k) as u8)) & 1u8 == 1u8
    } else {
        false
    }) by (bit_vector)
        requires
            k < 8,
            g < 64,
            w >> (8 * k) == 0,
    ;
    assert(k < 7 ==> (w | ((b as u64) << (8 * k))) >> (8 * k + 8) == 0) by (bit_vector)
        requires
            k < 8,
            w >> (8 * k) == 0,
    ;
}

/// Bit `j` of byte lane `k` of a word.
pub proof fn lemma_word_byte(w: u64, k: u64, j: u8)
    requires
        k < 8,
        j < 8,
    ensures
        bit((w >> (8 * k)) as u8, j) == wbit(w, (8 * k + j as u64) as u64),
{
    assert(((((w >> (8 * k)) as u8) >> j) & 1u8 == 1u8) == ((w >> (8 * k + j as u64)) & 1u64
        == 1u64)) by (bit_vector)
        requires
            k < 8,
            j < 8,
    ;
}

/// Bit `b` of the funnel shift `(v0 << s) | (v1 >> (64 - s))` for `0 < s < 64`.
pub proof fn lemma_word_funnel(v0: u64, v1: u64, s: u64, b: u64)
    requires
        0 < s < 64,
        b < 64,
    ensures
        wbit((v0 << s) | (v1 >> ((64 - s) as u64)), b) == if b >= s {
            wbit(v0, (b - s) as u64)
        } else {
            wbit(v1, (64 + b - s) as u64)
        },
{
    assert(((((v0 << s) | (v1 >> ((64 - s) as u64))) >> b) & 1u64 == 1u64) == if b >= s {
        (v0 >> ((b - s) as u64)) & 1u64 == 1u64
    } else {
        (v1 >> ((64 + b - s) as u64)) & 1u64 == 1u64
    }) by (bit_vector)
        requires
            0 < s < 64,
            b < 64,
    ;
}

pub proof fn lemma_wbit_xor(a: u64, b: u64, k: u64)
    requires
        k < 64,
    ensures
        wbit(a ^ b, k) == (wbit(a, k) != wbit(b, k)),
{
    assert(((a ^ b) >> k) & 1u64 == 1u64 <==> (((a >> k) & 1u64 == 1u64) != ((b >> k) & 1u64
        == 1u64))) by (bit_vector)
        requires
            k < 64,
    ;
}

pub proof fn lemma_wbit_and(a: u64, b: u64, k: u64)
    requires
        k < 64,
    ensures
        wbit(a & b, k) == (wbit(a, k) && wbit(b, k)),
{
    assert(((a & b) >> k) & 1u64 == 1u64 <==> (((a >> k) & 1u64 == 1u64) && ((b >> k) & 1u64
        == 1u64))) by (bit_vector)
        requires
            k < 64,
    ;
}

pub proof fn lemma_wbit_or(a: u64, b: u64, k: u64)
    requires
        k < 64,
    ensures
        wbit(a | b, k) == (wbit(a, k) || wbit(b, k)),
{
    assert(((a | b) >> k) & 1u64 == 1u64 <==> (((a >> k) & 1u64 == 1u64) || ((b >> k) & 1u64
        == 1u64))) by (bit_vector)
        requires
            k < 64,
    ;
}

pub proof fn lemma_wbit_const(k: u64)
    requires
        k < 64,
    ensures
        !wbit(0u64, k),
        wbit(0xFFFF_FFFF_FFFF_FFFFu64, k),
{
    lemma_word_const_bits(k);
}

/// Counting is additive over concatenation.
pub proof fn lemma_count_true_add(a: Seq<bool>, b: Seq<bool>)
    ensures
        count_true(a + b) == count_true(a) + count_true(b),
    decreases b.len(),
{
    if b.len() == 0 {
        assert(a + b =~= a);
    } else {
        lemma_count_true_add(a, b.drop_last());
        assert((a + b).drop_last() =~= a + b.drop_last());
    }
}

/// Setting a `false` entry to `true` raises the count by one.
pub proof fn lemma_count_true_set(s: Seq<bool>, i: int)
    requires
        0 <= i < s.len(),
        !s[i],
    ensures
        count_true(s.update(i, true)) == count_true(s) + 1,
    decreases s.len(),
{
    if i == s.len() - 1 {
        assert(s.update(i, true).drop_last() =~= s.drop_last());
    } else {
        lemma_count_true_set(s.drop_last(), i);
        assert(s.update(i, true).drop_last() =~= s.drop_last().update(i, true));
    }
}

/// A sequence with no `true` entry counts zero, and conversely.
pub proof fn lemma_count_true_zero(s: Seq<bool>)
    ensures
        (count_true(s) == 0) <==> (forall|i: int| 0 <= i < s.len() ==> !s[i]),
    decreases s.len(),
{
    if s.len() > 0 {
        lemma_count_true_zero(s.drop_last());
        if count_true(s) == 0 {
            assert forall|i: int| 0 <= i < s.len() implies !s[i] by {
                if i < s.len() - 1 {
                    assert(s[i] == s.drop_last()[i]);
                }
            }
        }
    }
}

/// Bit expansion distributes over appending a byte.
pub proof fn lemma_bytes_to_bits_push(s: Seq<u8>, b: u8)
    ensures
        bytes_to_bits(s.push(b)) =~= bytes_to_bits(s) + byte_bits(b),
{
    let l = bytes_to_bits(s.push(b));
    let r = bytes_to_bits(s) + byte_bits(b);
    assert forall|i: int| 0 <= i < l.len() implies l[i] == r[i] by {
        if i < s.len() * 8 {
            assert(i / 8 < s.len());
        } else {
            assert(i / 8 == s.len());
        }
    }
}

/// The bit count of a byte string is the sum of its byte popcounts.
pub proof fn lemma_count_bytes(s: Seq<u8>)
    ensures
        count_true(bytes_to_bits(s)) == popcount_bytes(s),
    decreases s.len(),
{
    if s.len() == 0 {
        assert(bytes_to_bits(s) =~= Seq::<bool>::empty());
    } else {
        let p = s.drop_last();
        lemma_count_bytes(p);
        assert(p.push(s.last()) =~= s);
        lemma_bytes_to_bits_push(p, s.last());
        lemma_count_true_add(bytes_to_bits(p), byte_bits(s.last()));
    }
}

/// Bytes strings with the same bit expansion are equal.
pub proof fn lemma_bytes_to_bits_injective(a: Seq<u8>, b: Seq<u8>)
    requires
        a.len() == b.len(),
        bytes_to_bits(a) == bytes_to_bits(b),
    ensures
        a == b,
{
    assert forall|j: int| 0 <= j < a.len() implies a[j] == b[j] by {
        assert forall|k: u8| k < 8 implies bit(a[j], k) == bit(b[j], k) by {
            let i: int = j * 8 + k as int;
            assert(i / 8 == j && i % 8 == k as int);
            assert(((i % 8) as u8) == k);
            assert(bytes_to_bits(a)[i] == bit(a[j], k));
            assert(bytes_to_bits(b)[i] == bit(b[j], k));
        }
        lemma_byte_ext(a[j], b[j]);
    }
    assert(a =~= b);
}

/// Extracting bit `k` of a byte with a shift and a mask gives 0 or 1.
pub proof fn lemma_bit_value(b: u8, k: u8)
    requires
        k < 8,
    ensures
        (b >> k) & 1u8 == (if bit(b, k) { 1u8 } else { 0u8 }),
{
    lemma_byte_shift(b, k);
}

/// A count never exceeds the length.
pub proof fn lemma_count_true_le(s: Seq<bool>)
    ensures
        count_true(s) <= s.len(),
    decreases s.len(),
{
    if s.len() > 0 {
        lemma_count_true_le(s.drop_last());
    }
}

/// Facts about bytes holding 0/1 values or all-zero/all-one masks.
pub proof fn lemma_byte_facts(x: u8, y: u8)
    by (bit_vector)
    ensures
        x ^ 0u8 == x,
        x == 0 ==> x ^ y == y,
        x <= 1 && y <= 1 ==> (x ^ y) <= 1 && ((x ^ y) == 1) == ((x == 1) != (y == 1)),
        x <= 1 ==> (x ^ 1u8) <= 1 && ((x ^ 1u8) == 1) == (x == 0),
        x == 1 && y == 1 ==> x ^ y == 0,
        x & 1u8 <= 1,
        x & 1u8 == (x >> 0u8) & 1u8,
        x >> 0u8 == x,
        1u8 & 1u8 == 1u8,
        x & 0xFFu8 == x,
        x & 0u8 == 0u8,
        0u8 | 0u8 == 0u8,
        0u8 | 0xFFu8 == 0xFFu8,
        0xFFu8 | 0u8 == 0xFFu8,
        0xFFu8 | 0xFFu8 == 0xFFu8,
        !0u8 == 0xFFu8,
        !0xFFu8 == 0u8,
        x <= 1 && y <= 1 ==> x & y == (if x == 1 && y == 1 { 1u8 } else { 0u8 }),
        (x == 0 || x == 0xFF) && (y == 0 || y == 0xFF) ==> x & y == (if x == 0xFF && y == 0xFF { 0xFFu8 } else {
            0u8
        }),
        (x == 0 || x == 0xFF) && y <= 1 ==> x & y == (if x == 0xFF && y == 1 { 1u8 } else { 0u8 }),
{
}

/// Selecting between two bytes with a mask.
pub proof fn lemma_byte_select(a: u8, b: u8, mask: u8)
    by (bit_vector)
    ensures
        mask == 0 || mask == 0xFF ==> (a & mask) | (b & !mask) == (if mask == 0xFF { a } else { b }),
        mask <= 1 ==> (a & mask) | (b & !mask) == (if mask == 1 { (a & 1u8) | (b & 0xFEu8) } else { b }),
{
}

/// A bit turned into a mask of all zeros or all ones, as a word and as its low byte.
pub proof fn lemma_mask_from_bit(v: u64)
    by (bit_vector)
    requires
        v <= 1,
    ensures
        (0xFFFF_FFFF_FFFF_FFFFu64 & 0u64.wrapping_sub(v)) as u8 == (if v == 1 { 0xFFu8 } else { 0u8 }),
        (0u64.wrapping_sub(v) as u8) == (if v == 1 { 0xFFu8 } else { 0u8 }),
{
}

/// Word facts: the all-ones mask, and the top bit of small and large words.
pub proof fn lemma_word_facts(x: u64, d: u64)
    by (bit_vector)
    ensures
        x & 0xFFFF_FFFF_FFFF_FFFFu64 == x,
        x & 0u64 == 0u64,
        0u64 >> 0u64 == 0u64,
        !0u64 == 0xFFFF_FFFF_FFFF_FFFFu64,
        0xFFFF_FFFF_FFFF_FFFFu64 >> 63u64 == 1u64,
        d < 0x1_0000_0000 ==> d >> 63u64 == 0u64 && (d >> 63u64) ^ 1u64 == 1u64,
        d >= 0xFFFF_FFFF_0000_0000u64 ==> d >> 63u64 == 1u64 && (d >> 63u64) ^ 1u64 == 0u64,
        x <= 1 ==> 0xFFFF_FFFF_FFFF_FFFFu64 & 0u64.wrapping_sub(x) == (if x == 1 {
            0xFFFF_FFFF_FFFF_FFFFu64
        } else {
            0u64
        }),
{
}

/// Splitting an index into a word and a bit offset.
pub proof fn lemma_split_word_index(x: usize)
    by (bit_vector)
    ensures
        x >> 6 == x / 64,
        x & 63 == x % 64,
{
}

/// Single bits of a byte.
pub proof fn lemma_byte_shift(x: u8, k: u8)
    by (bit_vector)
    ensures
        (x >> k) & 1u8 <= 1,
        (x >> k) & 1u8 == 1u8 || (x >> k) & 1u8 == 0u8,
        k < 8 ==> (0xFFu8 >> k) & 1u8 == 1u8,
        (0u8 >> k) & 1u8 == 0u8,
{
}

/// The bits of the all-zero and all-one words.
proof fn lemma_word_const_bits(k: u64)
    by (bit_vector)
    requires
        k < 64,
    ensures
        (0u64 >> k) & 1u64 == 0u64,
        (0xFFFF_FFFF_FFFF_FFFFu64 >> k) & 1u64 == 1u64,
{
}

} // verus!
