//! Bit-level model of a byte buffer.
//!
//! The wire format is specified in two layers: a byte layer (sequences of
//! `u8`, big-endian multi-byte integers) and a bit layer (sequences of
//! `bool`, most significant bit first).  This module defines both layers and
//! proves the lemmas that connect them, so that the cursor in [`crate::cursor`]
//! can expose byte-aligned reads with byte-level contracts while still
//! supporting reads and writes of arbitrary bit width.

use vstd::arithmetic::div_mod::{
    lemma_div_denominator, lemma_fundamental_div_mod, lemma_fundamental_div_mod_converse,
    lemma_mod_mod, lemma_mod_multiples_basic,
};
use vstd::arithmetic::mul::{
    lemma_mul_inequality, lemma_mul_is_associative, lemma_mul_is_commutative,
    lemma_mul_is_distributive_add,
};
use vstd::arithmetic::power2::{
    lemma2_to64, lemma_pow2_adds, lemma_pow2_pos, lemma_pow2_strictly_increases,
    lemma_pow2_unfold, pow2,
};
use vstd::prelude::*;

verus! {

/// The unsigned value of a bit sequence read in big-endian order: the first
/// bit of the sequence is the most significant.
pub open spec fn bits_value(s: Seq<bool>) -> nat
    decreases s.len(),
{
    if s.len() == 0 {
        0
    } else {
        2 * bits_value(s.drop_last()) + (if s.last() {
            1nat
        } else {
            0nat
        })
    }
}

/// The unsigned value of a byte sequence read as a big-endian integer.
pub open spec fn bytes_value(s: Seq<u8>) -> nat
    decreases s.len(),
{
    if s.len() == 0 {
        0
    } else {
        256 * bytes_value(s.drop_last()) + s.last() as nat
    }
}

/// Bit `i` of a byte buffer, counting the most significant bit of each byte
/// first, so that bit `0` is the top bit of the first byte.
pub open spec fn bit_at(bytes: Seq<u8>, i: int) -> bool {
    (bytes[i / 8] as nat / pow2((7 - i % 8) as nat)) % 2 == 1
}

/// The eight bits of one byte, most significant first.
pub open spec fn bits_of_byte(b: u8) -> Seq<bool> {
    Seq::new(8, |i: int| (b as nat / pow2((7 - i) as nat)) % 2 == 1)
}

/// A whole byte buffer as a bit sequence, eight bits per byte.
pub open spec fn byte_bits(bytes: Seq<u8>) -> Seq<bool> {
    Seq::new(bytes.len() * 8, |i: int| bit_at(bytes, i))
}

/// One step of reading an integer most-significant-bit first: the quotient by
/// `m` is twice the quotient by `2 * m` plus the bit at weight `m`.
pub proof fn lemma_div_bit_split(x: int, m: int)
    requires
        0 <= x,
        0 < m,
    ensures
        x / m == 2 * (x / (2 * m)) + (x / m) % 2,
{
    lemma_div_denominator(x, m, 2);
    lemma_fundamental_div_mod(x / m, 2);
}

/// Concatenating bit sequences concatenates their digits: the left part is
/// shifted up by the length of the right part.
pub proof fn lemma_bits_value_concat(a: Seq<bool>, b: Seq<bool>)
    ensures
        bits_value(a + b) == bits_value(a) * pow2(b.len()) + bits_value(b),
    decreases b.len(),
{
    if b.len() == 0 {
        assert(a + b =~= a);
        lemma2_to64();
    } else {
        let b1 = b.drop_last();
        let ab = a + b;
        let last: nat = if b.last() {
            1
        } else {
            0
        };
        assert(ab.len() > 0);
        assert(ab.last() == b.last());
        assert(ab.drop_last() =~= a + b1);
        assert(bits_value(ab) == 2 * bits_value(a + b1) + last);
        lemma_bits_value_concat(a, b1);
        lemma_pow2_unfold(b.len());
        assert(bits_value(b) == 2 * bits_value(b1) + last);
        assert(2 * (bits_value(a) * pow2(b1.len())) == bits_value(a) * pow2(b.len())) by {
            lemma_mul_is_associative(2, bits_value(a) as int, pow2(b1.len()) as int);
            lemma_mul_is_commutative(2, bits_value(a) as int);
            lemma_mul_is_associative(bits_value(a) as int, 2, pow2(b1.len()) as int);
            lemma_mul_is_commutative(bits_value(a) as int, 2);
            assert(pow2(b.len()) == 2 * pow2(b1.len()));
        }
        assert(bits_value(ab) == 2 * (bits_value(a) * pow2(b1.len())) + 2 * bits_value(b1) + last);
    }
}

/// A sequence of `n` bits always has a value below `pow2(n)`.
pub proof fn lemma_bits_value_bound(s: Seq<bool>)
    ensures
        bits_value(s) < pow2(s.len()),
    decreases s.len(),
{
    if s.len() == 0 {
        lemma2_to64();
    } else {
        lemma_bits_value_bound(s.drop_last());
        lemma_pow2_unfold(s.len());
    }
}

/// The first `k` bits of a byte are worth the byte shifted down by `8 - k`.
proof fn lemma_bits_of_byte_prefix(b: u8, k: int)
    requires
        0 <= k <= 8,
    ensures
        bits_value(bits_of_byte(b).take(k)) == b as nat / pow2((8 - k) as nat),
    decreases k,
{
    lemma2_to64();
    if k == 0 {
        assert(bits_of_byte(b).take(0) =~= Seq::<bool>::empty());
        assert(b as nat / pow2(8) == 0);
    } else {
        lemma_bits_of_byte_prefix(b, k - 1);
        let s = bits_of_byte(b).take(k);
        let m = pow2((8 - k) as nat) as int;
        lemma_pow2_pos((8 - k) as nat);
        assert(s.len() == k);
        assert(s.drop_last() =~= bits_of_byte(b).take(k - 1));
        assert(s.last() == bits_of_byte(b)[k - 1]);
        assert(s.last() == ((b as nat / pow2((8 - k) as nat)) % 2 == 1));
        let last: nat = if s.last() {
            1
        } else {
            0
        };
        assert(last == (b as int / m) % 2);
        assert(bits_value(s) == 2 * bits_value(bits_of_byte(b).take(k - 1)) + last);
        lemma_pow2_unfold((9 - k) as nat);
        assert(pow2((9 - k) as nat) == 2 * m);
        lemma_div_bit_split(b as int, m);
        assert(b as int / m == 2 * (b as int / (2 * m)) + (b as int / m) % 2);
        assert(bits_value(bits_of_byte(b).take(k - 1)) == b as nat / pow2((9 - k) as nat));
    }
}

/// A byte's eight bits are worth exactly the byte.
pub proof fn lemma_bits_of_byte_value(b: u8)
    ensures
        bits_value(bits_of_byte(b)) == b,
{
    lemma_bits_of_byte_prefix(b, 8);
    assert(bits_of_byte(b).take(8) =~= bits_of_byte(b));
    lemma2_to64();
}

/// The bits of a byte after the first `k` are worth the byte modulo
/// `pow2(8 - k)`.
pub proof fn lemma_bits_of_byte_suffix(b: u8, k: int)
    requires
        0 <= k <= 8,
    ensures
        bits_value(bits_of_byte(b).skip(k)) == b as nat % pow2((8 - k) as nat),
{
    let m = pow2((8 - k) as nat);
    lemma_pow2_pos((8 - k) as nat);
    assert(bits_of_byte(b) =~= bits_of_byte(b).take(k) + bits_of_byte(b).skip(k));
    lemma_bits_value_concat(bits_of_byte(b).take(k), bits_of_byte(b).skip(k));
    lemma_bits_of_byte_value(b);
    lemma_bits_of_byte_prefix(b, k);
    assert(bits_of_byte(b).skip(k).len() == 8 - k);
    lemma_fundamental_div_mod(b as int, m as int);
    assert((b as nat / m) * m == m * (b as nat / m)) by {
        lemma_mul_is_commutative((b as nat / m) as int, m as int);
    }
}

/// Slicing one byte out of the bit view of a buffer yields that byte's bits.
pub proof fn lemma_byte_bits_slice(bytes: Seq<u8>, k: int)
    requires
        0 <= k < bytes.len(),
    ensures
        byte_bits(bytes).subrange(8 * k, 8 * k + 8) =~= bits_of_byte(bytes[k]),
{
    assert forall|j: int| 0 <= j < 8 implies byte_bits(bytes).subrange(8 * k, 8 * k + 8)[j]
        == bits_of_byte(bytes[k])[j] by {
        lemma_fundamental_div_mod_converse(8 * k + j, 8, k, j);
    }
}

/// The bit view of a byte subrange is the corresponding subrange of the bit
/// view of the whole buffer.
pub proof fn lemma_byte_bits_subrange(bytes: Seq<u8>, a: int, b: int)
    requires
        0 <= a <= b <= bytes.len(),
    ensures
        byte_bits(bytes).subrange(8 * a, 8 * b) =~= byte_bits(bytes.subrange(a, b)),
{
    let sub = bytes.subrange(a, b);
    assert forall|i: int| 0 <= i < 8 * (b - a) implies byte_bits(bytes).subrange(8 * a, 8 * b)[i]
        == byte_bits(sub)[i] by {
        lemma_fundamental_div_mod(i, 8);
        lemma_fundamental_div_mod_converse(8 * a + i, 8, a + i / 8, i % 8);
        assert(bytes[(8 * a + i) / 8] == sub[i / 8]);
    }
}

/// The bit view of a buffer is worth the buffer's big-endian byte value.
pub proof fn lemma_byte_bits_value(bytes: Seq<u8>)
    ensures
        bits_value(byte_bits(bytes)) == bytes_value(bytes),
    decreases bytes.len(),
{
    if bytes.len() == 0 {
        assert(byte_bits(bytes) =~= Seq::<bool>::empty());
    } else {
        let n = bytes.len() as int;
        let b1 = bytes.drop_last();
        lemma_byte_bits_value(b1);
        assert forall|i: int| 0 <= i < 8 * (n - 1) implies bit_at(bytes, i) == bit_at(b1, i) by {
            lemma_fundamental_div_mod(i, 8);
            assert(i / 8 < n - 1);
        }
        lemma_byte_bits_slice(bytes, n - 1);
        assert(byte_bits(bytes) =~= byte_bits(b1) + bits_of_byte(bytes.last())) by {
            assert forall|i: int| 0 <= i < 8 * n implies byte_bits(bytes)[i] == (byte_bits(b1)
                + bits_of_byte(bytes.last()))[i] by {
                if i >= 8 * (n - 1) {
                    assert(bits_of_byte(bytes.last())[i - 8 * (n - 1)] == byte_bits(
                        bytes,
                    ).subrange(8 * (n - 1), 8 * n)[i - 8 * (n - 1)]);
                }
            }
        }
        lemma_bits_value_concat(byte_bits(b1), bits_of_byte(bytes.last()));
        lemma_bits_of_byte_value(bytes.last());
        lemma2_to64();
        assert(bytes_value(b1) * pow2(8) == 256 * bytes_value(b1)) by {
            lemma_mul_is_commutative(bytes_value(b1) as int, 256);
        }
    }
}

/// Reading a byte-aligned range of bits is the same as reading those bytes.
pub proof fn lemma_bits_value_byte_range(bytes: Seq<u8>, a: int, b: int)
    requires
        0 <= a <= b <= bytes.len(),
    ensures
        bits_value(byte_bits(bytes).subrange(8 * a, 8 * b)) == bytes_value(bytes.subrange(a, b)),
{
    lemma_byte_bits_subrange(bytes, a, b);
    lemma_byte_bits_value(bytes.subrange(a, b));
}

/// A nonnegative multiple of `m` strictly below another multiple of `m` is at
/// least `m` away from it.
pub proof fn lemma_multiple_below(l: int, m: int, bound: int)
    requires
        0 < m,
        0 <= l,
        l % m == 0,
        l < bound,
        bound % m == 0,
    ensures
        l + m <= bound,
{
    lemma_fundamental_div_mod(l, m);
    lemma_fundamental_div_mod(bound, m);
    assert(l == m * (l / m));
    assert(bound == m * (bound / m));
    if l / m >= bound / m {
        lemma_mul_inequality(bound / m, l / m, m);
        lemma_mul_is_commutative(bound / m, m);
        lemma_mul_is_commutative(l / m, m);
        assert(false);
    }
    lemma_mul_inequality(l / m + 1, bound / m, m);
    lemma_mul_is_commutative(l / m + 1, m);
    lemma_mul_is_commutative(bound / m, m);
    assert(m * (l / m + 1) == m * (l / m) + m) by {
        lemma_mul_is_distributive_add(m, l / m, 1);
    }
}

/// Setting the bit of weight `pow2(7 - r)` in a byte whose bits of weight
/// below `pow2(8 - r)` are all clear does not disturb any higher bit: the
/// quotient by `pow2(s)` is unchanged for every `s >= 8 - r`.
pub proof fn lemma_set_bit_preserves_high(x: int, r: int, s: int)
    requires
        0 <= x,
        1 <= r <= 7,
        8 - r <= s,
        x % pow2((8 - r) as nat) as int == 0,
    ensures
        (x + pow2((7 - r) as nat)) / pow2(s as nat) as int == x / pow2(s as nat) as int,
{
    let m = pow2((8 - r) as nat) as int;
    let c = pow2((7 - r) as nat) as int;
    let big = pow2(s as nat) as int;
    lemma_pow2_pos((8 - r) as nat);
    lemma_pow2_pos((7 - r) as nat);
    lemma_pow2_pos(s as nat);
    lemma_pow2_unfold((8 - r) as nat);
    assert(m == 2 * c);
    lemma_pow2_adds((8 - r) as nat, (s - (8 - r)) as nat);
    lemma_pow2_pos((s - (8 - r)) as nat);
    let k = pow2((s - (8 - r)) as nat) as int;
    assert(big == m * k);
    let h = x / big;
    let l = x % big;
    lemma_fundamental_div_mod(x, big);
    assert(l % m == 0) by {
        lemma_mod_mod(x, m, k);
    }
    assert(big % m == 0) by {
        lemma_mod_multiples_basic(k, m);
        lemma_mul_is_commutative(k, m);
    }
    if l == 0 {
        assert(c < m <= big) by {
            if 8 - r < s {
                lemma_pow2_strictly_increases((8 - r) as nat, s as nat);
            }
        }
    } else {
        lemma_multiple_below(l, m, big);
    }
    assert(0 <= l + c < big);
    assert(x + c == h * big + (l + c)) by {
        lemma_mul_is_commutative(h, big);
    }
    lemma_fundamental_div_mod_converse(x + c, big, h, l + c);
}

/// The two big-endian bytes of a 16-bit value.
pub open spec fn u16_be(v: u16) -> Seq<u8> {
    seq![(v / 256) as u8, (v % 256) as u8]
}

/// The four big-endian bytes of a 32-bit value.
pub open spec fn u32_be(v: u32) -> Seq<u8> {
    seq![
        (v / 0x100_0000) as u8,
        ((v / 0x1_0000) % 256) as u8,
        ((v / 0x100) % 256) as u8,
        (v % 256) as u8,
    ]
}

/// Reading two big-endian bytes and writing the value back gives the same bytes.
pub proof fn lemma_u16_be_of_bytes(hi: u8, lo: u8)
    ensures
        u16_be((256 * hi + lo) as u16) =~= seq![hi, lo],
{
    let v = (256 * hi + lo) as u16;
    lemma_fundamental_div_mod_converse(v as int, 256, hi as int, lo as int);
}

} // verus!
