//! Cursors over byte buffers.
//!
//! [`BitReader`] walks an existing buffer and consumes a chosen number of
//! bits per read; [`BitWriter`] grows a fresh buffer.  Positions are counted
//! in bits and advance monotonically; reads that would run past the end of
//! the buffer fail with [`DecodeError::OutOfData`] and leave the cursor
//! unchanged.  Byte-aligned operations carry byte-level contracts so that the
//! record codecs can be specified directly over byte sequences.

use crate::bits::{
    bit_at, bits_value, byte_bits, bytes_value, lemma_bits_value_bound, lemma_multiple_below,
    lemma_set_bit_preserves_high, u16_be, u32_be,
};
use crate::error::DecodeError;
use vstd::arithmetic::div_mod::{
    lemma_div_multiples_vanish, lemma_fundamental_div_mod, lemma_fundamental_div_mod_converse,
    lemma_mod_add_multiples_vanish, lemma_mod_mod, lemma_mod_multiples_basic,
};
use vstd::arithmetic::mul::{
    lemma_mul_is_associative, lemma_mul_is_commutative, lemma_mul_is_distributive_add,
};
use vstd::arithmetic::power2::{
    lemma2_to64, lemma_pow2_adds, lemma_pow2_pos, lemma_pow2_strictly_increases,
    lemma_pow2_unfold, pow2,
};
use vstd::prelude::*;

verus! {

/// `pow2(e)` for a bit position inside one byte.
pub fn pow2_small(e: usize) -> (p: u8)
    requires
        e < 8,
    ensures
        p as nat == pow2(e as nat),
        p >= 1,
{
    proof {
        lemma2_to64();
    }
    match e {
        0 => 1,
        1 => 2,
        2 => 4,
        3 => 8,
        4 => 16,
        5 => 32,
        6 => 64,
        _ => 128,
    }
}

/// A read cursor over an existing byte buffer.  The position is in bits.
pub struct BitReader<'a> {
    pub data: &'a Vec<u8>,
    pub pos: usize,
}

impl<'a> BitReader<'a> {
    /// The cursor is inside the buffer and the buffer is small enough that
    /// bit positions fit comfortably in a `usize`.
    pub open spec fn wf(self) -> bool {
        &&& self.pos <= 8 * self.data@.len()
        &&& self.data@.len() < 0x1000_0000
    }

    /// A cursor at the start of `data`.
    pub fn new(data: &'a Vec<u8>) -> (r: Self)
        requires
            data@.len() < 0x1000_0000,
        ensures
            r.wf(),
            r.data == data,
            r.pos == 0,
    {
        BitReader { data, pos: 0 }
    }

    /// A cursor positioned at byte offset `byte_pos` of `data`.
    pub fn new_at_byte(data: &'a Vec<u8>, byte_pos: usize) -> (r: Self)
        requires
            data@.len() < 0x1000_0000,
            byte_pos <= data@.len(),
        ensures
            r.wf(),
            r.data == data,
            r.pos == 8 * byte_pos,
    {
        BitReader { data, pos: 8 * byte_pos }
    }

    /// Read the next byte and advance by eight bits.
    pub fn read_u8(&mut self) -> (r: Result<u8, DecodeError>)
        requires
            old(self).wf(),
            old(self).pos % 8 == 0,
        ensures
            final(self).wf(),
            final(self).data == old(self).data,
            match r {
                Ok(b) => {
                    &&& old(self).pos + 8 <= 8 * old(self).data@.len()
                    &&& final(self).pos == old(self).pos + 8
                    &&& b == old(self).data@[old(self).pos as int / 8]
                },
                Err(e) => {
                    &&& e == DecodeError::OutOfData
                    &&& old(self).pos + 8 > 8 * old(self).data@.len()
                    &&& *final(self) == *old(self)
                },
            },
    {
        let idx = self.pos / 8;
        if idx < self.data.len() {
            let b = self.data[idx];
            self.pos = self.pos + 8;
            Ok(b)
        } else {
            Err(DecodeError::OutOfData)
        }
    }

    /// Read the next two bytes as a big-endian integer.
    pub fn read_u16(&mut self) -> (r: Result<u16, DecodeError>)
        requires
            old(self).wf(),
            old(self).pos % 8 == 0,
        ensures
            final(self).wf(),
            final(self).data == old(self).data,
            match r {
                Ok(v) => {
                    &&& old(self).pos + 16 <= 8 * old(self).data@.len()
                    &&& final(self).pos == old(self).pos + 16
                    &&& v as int == 256 * old(self).data@[old(self).pos as int / 8]
                        + old(self).data@[old(self).pos as int / 8 + 1]
                },
                Err(e) => {
                    &&& e == DecodeError::OutOfData
                    &&& old(self).pos + 16 > 8 * old(self).data@.len()
                    &&& *final(self) == *old(self)
                },
            },
    {
        let idx = self.pos / 8;
        if self.data.len() - idx >= 2 {
            let hi = self.data[idx];
            let lo = self.data[idx + 1];
            self.pos = self.pos + 16;
            Ok((hi as u16) * 256 + (lo as u16))
        } else {
            Err(DecodeError::OutOfData)
        }
    }

    /// Read the next four bytes as a big-endian integer.
    pub fn read_u32(&mut self) -> (r: Result<u32, DecodeError>)
        requires
            old(self).wf(),
            old(self).pos % 8 == 0,
        ensures
            final(self).wf(),
            final(self).data == old(self).data,
            match r {
                Ok(v) => {
                    &&& old(self).pos + 32 <= 8 * old(self).data@.len()
                    &&& final(self).pos == old(self).pos + 32
                    &&& v as int == 0x100_0000 * old(self).data@[old(self).pos as int / 8]
                        + 0x1_0000 * old(self).data@[old(self).pos as int / 8 + 1]
                        + 0x100 * old(self).data@[old(self).pos as int / 8 + 2]
                        + old(self).data@[old(self).pos as int / 8 + 3]
                },
                Err(e) => {
                    &&& e == DecodeError::OutOfData
                    &&& old(self).pos + 32 > 8 * old(self).data@.len()
                    &&& *final(self) == *old(self)
                },
            },
    {
        let idx = self.pos / 8;
        if self.data.len() - idx >= 4 {
            let b0 = self.data[idx];
            let b1 = self.data[idx + 1];
            let b2 = self.data[idx + 2];
            let b3 = self.data[idx + 3];
            self.pos = self.pos + 32;
            Ok((b0 as u32) * 0x100_0000 + (b1 as u32) * 0x1_0000 + (b2 as u32) * 0x100
                + (b3 as u32))
        } else {
            Err(DecodeError::OutOfData)
        }
    }

    /// Read the next `n` bytes as an owned byte vector.
    pub fn read_bytes(&mut self, n: usize) -> (r: Result<Vec<u8>, DecodeError>)
        requires
            old(self).wf(),
            old(self).pos % 8 == 0,
        ensures
            final(self).wf(),
            final(self).data == old(self).data,
            match r {
                Ok(v) => {
                    &&& old(self).pos + 8 * n <= 8 * old(self).data@.len()
                    &&& final(self).pos == old(self).pos + 8 * n
                    &&& v@ == old(self).data@.subrange(
                        old(self).pos as int / 8,
                        old(self).pos as int / 8 + n,
                    )
                },
                Err(e) => {
                    &&& e == DecodeError::OutOfData
                    &&& old(self).pos + 8 * n > 8 * old(self).data@.len()
                    &&& *final(self) == *old(self)
                },
            },
    {
        let idx = self.pos / 8;
        if n > self.data.len() - idx {
            return Err(DecodeError::OutOfData);
        }
        let mut out: Vec<u8> = Vec::new();
        let mut k: usize = 0;
        while k < n
            invariant
                k <= n,
                idx + n <= self.data@.len(),
                self.data@.len() < 0x1000_0000,
                idx == self.pos / 8,
                out@ == self.data@.subrange(idx as int, idx as int + k),
            decreases n - k,
        {
            out.push(self.data[idx + k]);
            proof {
                assert(out@ =~= self.data@.subrange(idx as int, idx as int + k + 1));
            }
            k = k + 1;
        }
        self.pos = self.pos + 8 * n;
        Ok(out)
    }

    /// Read the next `n` bits as a big-endian integer, for any width up to 128.
    pub fn read_bits(&mut self, n: usize) -> (r: Result<u128, DecodeError>)
        requires
            old(self).wf(),
            n <= 128,
        ensures
            final(self).wf(),
            final(self).data == old(self).data,
            match r {
                Ok(v) => {
                    &&& old(self).pos + n <= 8 * old(self).data@.len()
                    &&& final(self).pos == old(self).pos + n
                    &&& v == bits_value(
                        byte_bits(old(self).data@).subrange(
                            old(self).pos as int,
                            old(self).pos + n,
                        ),
                    )
                    &&& old(self).pos % 8 == 0 && n % 8 == 0 ==> v == bytes_value(
                        old(self).data@.subrange(
                            old(self).pos as int / 8,
                            old(self).pos as int / 8 + n as int / 8,
                        ),
                    )
                },
                Err(e) => {
                    &&& e == DecodeError::OutOfData
                    &&& old(self).pos + n > 8 * old(self).data@.len()
                    &&& *final(self) == *old(self)
                },
            },
    {
        if n > 8 * self.data.len() - self.pos {
            return Err(DecodeError::OutOfData);
        }
        let ghost bits = byte_bits(self.data@);
        let start = self.pos;
        let mut acc: u128 = 0;
        let mut k: usize = 0;
        while k < n
            invariant
                self.wf(),
                self.data == old(self).data,
                k <= n,
                n <= 128,
                self.pos == start + k,
                start + n <= 8 * self.data@.len(),
                bits == byte_bits(self.data@),
                acc == bits_value(bits.subrange(start as int, start as int + k)),
            decreases n - k,
        {
            let prefix = Ghost(bits.subrange(start as int, start as int + k));
            proof {
                lemma_bits_value_bound(prefix@);
                lemma2_to64();
                lemma_pow2_unfold((k + 1) as nat);
                if k + 1 < 128 {
                    lemma_pow2_strictly_increases((k + 1) as nat, 128);
                }
                lemma_pow2_adds(64, 64);
                lemma_pow2_pos(64);
                assert(pow2(128) == 0x1_0000_0000_0000_0000 * 0x1_0000_0000_0000_0000);
                assert(2 * acc + 1 < pow2((k + 1) as nat));
            }
            let byte = self.data[self.pos / 8];
            let shift = 7 - self.pos % 8;
            let p = pow2_small(shift);
            let bit: u8 = (byte / p) % 2;
            proof {
                assert(self.pos as int / 8 < self.data@.len());
                assert(bit_at(self.data@, self.pos as int) == (bit == 1));
                assert(bits[start + k] == bit_at(self.data@, self.pos as int));
                let longer = bits.subrange(start as int, start as int + k + 1);
                assert(longer.drop_last() =~= prefix@);
                assert(longer.last() == bits[start + k]);
                assert(bits_value(longer) == 2 * bits_value(prefix@) + (if bits[start + k] {
                    1nat
                } else {
                    0nat
                }));
            }
            acc = acc * 2 + (bit as u128);
            self.pos = self.pos + 1;
            k = k + 1;
        }
        proof {
            // On byte-aligned reads the bit value agrees with the buffer's
            // big-endian byte value over the same range.
            if start % 8 == 0 && n % 8 == 0 {
                lemma_fundamental_div_mod(start as int, 8);
                lemma_fundamental_div_mod_converse(
                    start as int + n as int,
                    8,
                    start as int / 8 + n as int / 8,
                    0,
                );
                crate::bits::lemma_bits_value_byte_range(
                    self.data@,
                    start as int / 8,
                    start as int / 8 + n as int / 8,
                );
            }
        }
        Ok(acc)
    }

    /// Look at the next `n` bits without consuming them.
    pub fn peek_bits(&self, n: usize) -> (r: Result<u128, DecodeError>)
        requires
            self.wf(),
            n <= 128,
        ensures
            match r {
                Ok(v) => {
                    &&& self.pos + n <= 8 * self.data@.len()
                    &&& v == bits_value(
                        byte_bits(self.data@).subrange(self.pos as int, self.pos + n),
                    )
                },
                Err(e) => {
                    &&& e == DecodeError::OutOfData
                    &&& self.pos + n > 8 * self.data@.len()
                },
            },
    {
        let mut probe = BitReader { data: self.data, pos: self.pos };
        probe.read_bits(n)
    }
}

/// `pow2(e)` for a bit width of up to 128 bits.
pub fn pow2_u128(e: usize) -> (p: u128)
    requires
        e < 128,
    ensures
        p as nat == pow2(e as nat),
        p >= 1,
{
    proof {
        lemma2_to64();
    }
    let mut p: u128 = 1;
    let mut i: usize = 0;
    while i < e
        invariant
            i <= e,
            e < 128,
            p as nat == pow2(i as nat),
        decreases e - i,
    {
        proof {
            lemma_pow2_unfold((i + 1) as nat);
            lemma2_to64();
            lemma_pow2_adds(64, 64);
            assert(pow2(128) == 0x1_0000_0000_0000_0000 * 0x1_0000_0000_0000_0000);
            if i + 1 < 128 {
                lemma_pow2_strictly_increases((i + 1) as nat, 128);
            }
        }
        p = p * 2;
        i = i + 1;
    }
    proof {
        lemma_pow2_pos(e as nat);
    }
    p
}

/// A write cursor over a growable byte buffer.  The position is in bits;
/// bit positions of the last byte that have not been written yet hold zero.
pub struct BitWriter {
    pub buf: Vec<u8>,
    pub bitlen: usize,
}

impl BitWriter {
    /// The buffer holds exactly the bytes the written bits touch, and the
    /// unwritten low bits of the final byte are all zero.
    pub open spec fn wf(self) -> bool {
        &&& self.buf@.len() == (self.bitlen + 7) / 8
        &&& self.buf@.len() < 0x1000_0000
        &&& (self.bitlen % 8 != 0 ==> self.buf@.last() as nat % pow2(
            (8 - self.bitlen % 8) as nat,
        ) == 0)
    }

    /// The bits written so far, most significant bit of each byte first.
    pub open spec fn bits(self) -> Seq<bool> {
        byte_bits(self.buf@).take(self.bitlen as int)
    }

    /// A writer over a fresh, empty buffer.
    pub fn new() -> (w: Self)
        ensures
            w.wf(),
            w.bitlen == 0,
            w.buf@ == Seq::<u8>::empty(),
            w.bits() == Seq::<bool>::empty(),
    {
        let w = BitWriter { buf: Vec::new(), bitlen: 0 };
        proof {
            assert(w.bits() =~= Seq::<bool>::empty());
        }
        w
    }

    /// Append a single bit.
    pub fn push_bit(&mut self, b: bool)
        requires
            old(self).wf(),
            old(self).bitlen < 0x0800_0000,
        ensures
            final(self).wf(),
            final(self).bitlen == old(self).bitlen + 1,
            final(self).bits() == old(self).bits().push(b),
    {
        let ghost oldw = *old(self);
        proof {
            lemma_fundamental_div_mod(self.bitlen as int, 8);
        }
        let r = self.bitlen % 8;
        let ghost q = self.bitlen as int / 8;
        if r == 0 {
            let v: u8 = if b {
                128
            } else {
                0
            };
            proof {
                lemma_fundamental_div_mod_converse(8 * q + 7, 8, q, 7);
                assert(self.buf@.len() == q);
            }
            self.buf.push(v);
            self.bitlen = self.bitlen + 1;
            proof {
                lemma2_to64();
                lemma_fundamental_div_mod_converse(8 * q + 8, 8, q + 1, 0);
                assert(self.buf@.len() == (self.bitlen + 7) / 8);
                assert(self.buf@.last() as nat % pow2(7) == 0);
                assert(self.bits() =~= oldw.bits().push(b)) by {
                    assert forall|i: int| 0 <= i <= 8 * q implies #[trigger] self.bits()[i]
                        == oldw.bits().push(b)[i] by {
                        lemma_fundamental_div_mod(i, 8);
                        if i < 8 * q {
                            assert(i / 8 < q);
                            assert(self.buf@[i / 8] == oldw.buf@[i / 8]);
                        } else {
                            assert(i / 8 == q);
                            assert(i % 8 == 0);
                            assert(self.buf@[q] == v);
                            assert(bit_at(self.buf@, i) == ((v as nat / pow2(7)) % 2 == 1));
                        }
                    }
                }
            }
        } else {
            let ghost m = pow2((8 - r) as nat) as int;
            let ghost c = pow2((7 - r) as nat) as int;
            let last_idx = self.buf.len() - 1;
            let x = self.buf[last_idx];
            proof {
                lemma_pow2_pos((8 - r) as nat);
                lemma_pow2_pos((7 - r) as nat);
                lemma_pow2_unfold((8 - r) as nat);
                lemma_pow2_adds((8 - r) as nat, r as nat);
                lemma2_to64();
                lemma_mod_multiples_basic(pow2(r as nat) as int, m);
                lemma_mul_is_commutative(pow2(r as nat) as int, m);
                assert(256int % m == 0);
                lemma_multiple_below(x as int, m, 256);
                assert(x + c <= 255);
            }
            let y: u8 = if b {
                x + pow2_small(7 - r)
            } else {
                x
            };
            self.buf[last_idx] = y;
            self.bitlen = self.bitlen + 1;
            proof {
                // The buffer keeps its length: the new bit lands in the same
                // final byte.
                lemma_fundamental_div_mod_converse(8 * q + r as int + 7, 8, q + 1, r as int - 1);
                lemma_fundamental_div_mod_converse(8 * q + r as int + 8, 8, q + 1, r as int);
                if r < 7 {
                    lemma_fundamental_div_mod_converse(8 * q + r as int + 1, 8, q, r as int + 1);
                } else {
                    lemma_fundamental_div_mod_converse(8 * q + 8, 8, q + 1, 0);
                }
                assert(self.buf@.len() == (self.bitlen + 7) / 8);
                assert(x % (m as u8) == 0) by {
                    assert(x as nat % pow2((8 - r) as nat) == 0);
                }
                // The bits already written keep their values, and the new bit
                // reads back as `b`.
                assert(x as int == m * (x as int / m)) by {
                    lemma_fundamental_div_mod(x as int, m);
                }
                let ghost half = x as int / m;
                assert(x as int == c * (2 * half)) by {
                    lemma_mul_is_associative(2, c, half);
                    lemma_mul_is_commutative(2, c);
                    lemma_mul_is_associative(c, 2, half);
                }
                assert(x as int / c == 2 * half) by {
                    lemma_div_multiples_vanish(2 * half, c);
                }
                if b {
                    assert(y as int == c * (2 * half + 1)) by {
                        lemma_mul_is_distributive_add(c, 2 * half, 1);
                    }
                    assert(y as int / c == 2 * half + 1) by {
                        lemma_div_multiples_vanish(2 * half + 1, c);
                    }
                } else {
                    assert(y as int / c == 2 * half);
                }
                if self.bitlen % 8 != 0 {
                    // The still-unwritten bits of the final byte stay zero.
                    assert((self.bitlen % 8) == r + 1);
                    assert(y as nat % pow2((7 - r) as nat) == 0) by {
                        lemma_mod_mod(x as int, c, 2);
                        lemma_mul_is_commutative(c, 2);
                        assert(x as int % c == 0);
                        lemma_mod_add_multiples_vanish(x as int, c);
                        assert((c + x) % c == x as int % c);
                    }
                }
                assert(self.bits() =~= oldw.bits().push(b)) by {
                    assert forall|i: int| 0 <= i <= 8 * q + r implies #[trigger] self.bits()[i]
                        == oldw.bits().push(b)[i] by {
                        lemma_fundamental_div_mod(i, 8);
                        if i / 8 < q {
                            assert(self.buf@[i / 8] == oldw.buf@[i / 8]);
                        } else {
                            assert(i / 8 == q);
                            let j = i % 8;
                            let s = 7 - j;
                            if i < 8 * q + r {
                                assert(j < r);
                                if b {
                                    lemma_set_bit_preserves_high(x as int, r as int, s);
                                    assert(y as int / pow2(s as nat) as int == x as int / pow2(
                                        s as nat,
                                    ) as int);
                                }
                                assert(bit_at(self.buf@, i) == bit_at(oldw.buf@, i));
                            } else {
                                assert(j == r);
                                assert(bit_at(self.buf@, i) == ((y as nat / pow2((7 - r) as nat))
                                    % 2 == 1));
                                if b {
                                    assert((2 * half + 1) % 2 == 1);
                                } else {
                                    assert((2 * half) % 2 == 0);
                                }
                            }
                        }
                    }
                }
            }
        }
    }

    /// Append the `n` low bits of `v`, most significant first.
    pub fn write_bits(&mut self, v: u128, n: usize)
        requires
            old(self).wf(),
            n <= 128,
            (v as nat) < pow2(n as nat),
            old(self).bitlen + n < 0x0800_0000,
        ensures
            final(self).wf(),
            final(self).bitlen == old(self).bitlen + n,
            final(self).bits().subrange(0, old(self).bitlen as int) == old(self).bits(),
            bits_value(final(self).bits().skip(old(self).bitlen as int)) == v,
    {
        let ghost base = self.bits();
        let ghost start = self.bitlen as int;
        proof {
            assert(self.bits().skip(start) =~= Seq::<bool>::empty());
            assert(self.bits().subrange(0, start) =~= base);
            lemma2_to64();
            lemma_pow2_pos(n as nat);
            vstd::arithmetic::div_mod::lemma_basic_div(v as int, pow2(n as nat) as int);
        }
        let mut k: usize = 0;
        while k < n
            invariant
                self.wf(),
                0 <= start,
                k <= n,
                n <= 128,
                (v as nat) < pow2(n as nat),
                self.bitlen == start + k,
                start + n < 0x0800_0000,
                self.bits().subrange(0, start) == base,
                self.bits().len() == start + k,
                bits_value(self.bits().skip(start)) == v as nat / pow2((n - k) as nat),
            decreases n - k,
        {
            let w = pow2_u128(n - 1 - k);
            let bit = (v / w) % 2 == 1;
            let ghost before = self.bits();
            self.push_bit(bit);
            proof {
                assert(before.len() == start + k);
                assert(before.subrange(0, start) == base);
                assert(before.subrange(0, start).len() == start);
                assert(base.len() == start);
                assert(self.bits() == before.push(bit));
                assert(self.bits().len() == start + k + 1);
                assert(self.bits().subrange(0, start) =~= base) by {
                    assert forall|i: int| 0 <= i < start implies self.bits().subrange(0, start)[i]
                        == base[i] by {
                        assert(before.push(bit)[i] == before[i]);
                        assert(base[i] == before.subrange(0, start)[i]);
                    }
                }
                let suffix = self.bits().skip(start);
                assert(suffix =~= before.skip(start).push(bit)) by {
                    assert forall|i: int| 0 <= i < k + 1 implies suffix[i] == before.skip(
                        start,
                    ).push(bit)[i] by {
                        if i < k {
                            assert(before.push(bit)[start + i] == before[start + i]);
                        } else {
                            assert(before.push(bit)[start + i] == bit);
                        }
                    }
                }
                assert(suffix.drop_last() =~= before.skip(start));
                let bitv: nat = if bit {
                    1
                } else {
                    0
                };
                assert(bits_value(suffix) == 2 * bits_value(before.skip(start)) + bitv);
                lemma_pow2_unfold((n - k) as nat);
                crate::bits::lemma_div_bit_split(v as int, pow2((n - 1 - k) as nat) as int);
                assert(bitv == (v as int / pow2((n - 1 - k) as nat) as int) % 2);
            }
            k = k + 1;
        }
        proof {
            assert(pow2(0) == 1);
            vstd::arithmetic::div_mod::lemma_div_basics(v as int);
        }
    }

    /// Append one byte; the writer must be byte-aligned.
    pub fn write_u8(&mut self, b: u8)
        requires
            old(self).wf(),
            old(self).bitlen % 8 == 0,
            old(self).bitlen < 0x0800_0000,
        ensures
            final(self).wf(),
            final(self).bitlen == old(self).bitlen + 8,
            final(self).bitlen % 8 == 0,
            final(self).buf@ == old(self).buf@ + seq![b],
    {
        proof {
            lemma_fundamental_div_mod(self.bitlen as int, 8);
            let q = self.bitlen as int / 8;
            lemma_fundamental_div_mod_converse(8 * q + 7, 8, q, 7);
            lemma_fundamental_div_mod_converse(8 * q + 8 + 7, 8, q + 1, 7);
        }
        self.buf.push(b);
        self.bitlen = self.bitlen + 8;
        proof {
            assert(self.buf@ =~= old(self).buf@ + seq![b]);
        }
    }

    /// Append a 16-bit value as two big-endian bytes; byte-aligned.
    pub fn write_u16(&mut self, v: u16)
        requires
            old(self).wf(),
            old(self).bitlen % 8 == 0,
            old(self).bitlen < 0x0400_0000,
        ensures
            final(self).wf(),
            final(self).bitlen == old(self).bitlen + 16,
            final(self).bitlen % 8 == 0,
            final(self).buf@ == old(self).buf@ + u16_be(v),
    {
        self.write_u8((v / 256) as u8);
        self.write_u8((v % 256) as u8);
        proof {
            assert(self.buf@ =~= old(self).buf@ + u16_be(v));
        }
    }

    /// Append a 32-bit value as four big-endian bytes; byte-aligned.
    pub fn write_u32(&mut self, v: u32)
        requires
            old(self).wf(),
            old(self).bitlen % 8 == 0,
            old(self).bitlen < 0x0400_0000,
        ensures
            final(self).wf(),
            final(self).bitlen == old(self).bitlen + 32,
            final(self).bitlen % 8 == 0,
            final(self).buf@ == old(self).buf@ + u32_be(v),
    {
        self.write_u8((v / 0x100_0000) as u8);
        self.write_u8(((v / 0x1_0000) % 256) as u8);
        self.write_u8(((v / 0x100) % 256) as u8);
        self.write_u8((v % 256) as u8);
        proof {
            assert(self.buf@ =~= old(self).buf@ + u32_be(v));
        }
    }

    /// Append a run of raw bytes; byte-aligned.
    pub fn write_bytes(&mut self, v: &Vec<u8>)
        requires
            old(self).wf(),
            old(self).bitlen % 8 == 0,
            old(self).bitlen + 8 * v@.len() < 0x0400_0000,
        ensures
            final(self).wf(),
            final(self).bitlen == old(self).bitlen + 8 * v@.len(),
            final(self).bitlen % 8 == 0,
            final(self).buf@ == old(self).buf@ + v@,
    {
        let n = v.len();
        let mut k: usize = 0;
        while k < n
            invariant
                self.wf(),
                self.bitlen % 8 == 0,
                k <= n,
                n == v@.len(),
                self.bitlen == old(self).bitlen + 8 * k,
                old(self).bitlen + 8 * n < 0x0400_0000,
                self.buf@ =~= old(self).buf@ + v@.subrange(0, k as int),
            decreases n - k,
        {
            self.write_u8(v[k]);
            proof {
                assert(self.buf@ =~= old(self).buf@ + v@.subrange(0, k + 1));
            }
            k = k + 1;
        }
        proof {
            assert(v@.subrange(0, n as int) =~= v@);
        }
    }

    /// Hand the finished buffer out; the writer must be byte-aligned.
    pub fn into_bytes(self) -> (out: Vec<u8>)
        requires
            self.wf(),
            self.bitlen % 8 == 0,
        ensures
            out@ == self.buf@,
            8 * out@.len() == self.bitlen,
    {
        proof {
            lemma_fundamental_div_mod(self.bitlen as int, 8);
            let q = self.bitlen as int / 8;
            lemma_fundamental_div_mod_converse(8 * q + 7, 8, q, 7);
        }
        self.buf
    }
}

} // verus!
