//! The compound flag-plus-value field codec.
//!
//! One 16-bit wire word packs a boolean into its top bit and a 15-bit
//! unsigned value into the remaining bits.  The query class field (with its
//! unicast-response flag) and the resource-record class field (with its
//! cache-flush flag) both use this layout.  Values that do not fit in 15
//! bits are rejected when the field is built, so a well-formed field always
//! round-trips.

use crate::bits::{
    bits_value, byte_bits, bits_of_byte, lemma_bits_of_byte_suffix, lemma_bits_of_byte_value,
    lemma_bits_value_concat, lemma_byte_bits_slice, u16_be,
};
use crate::cursor::{BitReader, BitWriter};
use crate::error::DecodeError;
use vstd::arithmetic::div_mod::{lemma_fundamental_div_mod, lemma_fundamental_div_mod_converse};
use vstd::arithmetic::power2::{lemma2_to64, pow2};
use vstd::prelude::*;

verus! {

/// A 16-bit compound wire field: one flag bit packed above a 15-bit value.
#[derive(Debug, PartialEq, Eq, Clone, Copy, Structural)]
pub struct BoolU15 {
    pub flag: bool,
    pub value: u16,
}

impl BoolU15 {
    /// The value fits in the fifteen bits below the flag.
    pub open spec fn wf(self) -> bool {
        self.value < 0x8000
    }

    /// The combined 16-bit word: the flag on top, the value below.
    pub open spec fn spec_word(self) -> u16
        recommends
            self.wf(),
    {
        ((if self.flag {
            0x8000int
        } else {
            0int
        }) + self.value) as u16
    }

    /// The two wire bytes of this field.
    pub open spec fn spec_pack(self) -> Seq<u8> {
        u16_be(self.spec_word())
    }

    /// Build the field, rejecting a value that does not fit in 15 bits.
    pub fn new(flag: bool, value: u16) -> (r: Result<BoolU15, DecodeError>)
        ensures
            match r {
                Ok(b) => {
                    &&& value < 0x8000
                    &&& b == (BoolU15 { flag, value })
                    &&& b.wf()
                },
                Err(e) => {
                    &&& e == DecodeError::OversizedField
                    &&& value >= 0x8000
                },
            },
    {
        if value < 0x8000 {
            Ok(BoolU15 { flag, value })
        } else {
            Err(DecodeError::OversizedField)
        }
    }

    /// Encode to the writer as one 16-bit big-endian word.
    pub fn pack(self, w: &mut BitWriter)
        requires
            self.wf(),
            old(w).wf(),
            old(w).bitlen % 8 == 0,
            old(w).bitlen < 0x0400_0000,
        ensures
            final(w).wf(),
            final(w).bitlen == old(w).bitlen + 16,
            final(w).bitlen % 8 == 0,
            final(w).buf@ == old(w).buf@ + self.spec_pack(),
    {
        let word: u16 = if self.flag {
            0x8000 + self.value
        } else {
            self.value
        };
        w.write_u16(word);
    }

    /// Decode from the reader: the top bit becomes the flag and the low
    /// fifteen bits the value.
    pub fn unpack(r: &mut BitReader) -> (res: Result<BoolU15, DecodeError>)
        requires
            old(r).wf(),
            old(r).pos % 8 == 0,
        ensures
            final(r).wf(),
            final(r).data == old(r).data,
            match res {
                Ok(b) => {
                    &&& old(r).pos + 16 <= 8 * old(r).data@.len()
                    &&& final(r).pos == old(r).pos + 16
                    &&& b.wf()
                    &&& b.spec_pack() == old(r).data@.subrange(
                        old(r).pos as int / 8,
                        old(r).pos as int / 8 + 2,
                    )
                },
                Err(e) => {
                    &&& e == DecodeError::OutOfData
                    &&& old(r).pos + 16 > 8 * old(r).data@.len()
                    &&& *final(r) == *old(r)
                },
            },
    {
        let ghost k = old(r).pos as int / 8;
        let word = match r.read_u16() {
            Ok(v) => v,
            Err(e) => {
                return Err(e);
            },
        };
        let flag = word >= 0x8000;
        let value = word % 0x8000;
        let b = BoolU15 { flag, value };
        proof {
            assert(b.spec_word() == word);
            let hi = old(r).data@[k];
            let lo = old(r).data@[k + 1];
            assert(word as int == 256 * hi + lo);
            crate::bits::lemma_u16_be_of_bytes(hi, lo);
            assert(b.spec_pack() =~= old(r).data@.subrange(k, k + 2));
        }
        Ok(b)
    }
}

/// Law: the compound field's encoding is injective, so decoding an encoded
/// flag and 15-bit value always gives the same flag and value back.
pub proof fn lemma_bool_u15_round_trip(a: BoolU15, b: BoolU15)
    requires
        a.wf(),
        b.wf(),
        a.spec_pack() == b.spec_pack(),
    ensures
        a == b,
{
    let wa = a.spec_word();
    let wb = b.spec_word();
    assert(u16_be(wa)[0] == u16_be(wb)[0]);
    assert(u16_be(wa)[1] == u16_be(wb)[1]);
    lemma_fundamental_div_mod(wa as int, 256);
    lemma_fundamental_div_mod(wb as int, 256);
    assert(wa == wb);
}

/// Law: in the packed bytes, the first transmitted bit is the flag and the
/// remaining fifteen bits carry the value, most significant bit first.
pub proof fn lemma_bool_u15_bit_layout(b: BoolU15)
    requires
        b.wf(),
    ensures
        byte_bits(b.spec_pack()).len() == 16,
        byte_bits(b.spec_pack())[0] == b.flag,
        bits_value(byte_bits(b.spec_pack()).skip(1)) == b.value,
{
    lemma2_to64();
    let word = b.spec_word();
    let f: int = if b.flag {
        1
    } else {
        0
    };
    let v = b.value as int;
    lemma_fundamental_div_mod(v, 256);
    assert(word as int == 256 * (f * 128 + v / 256) + v % 256) by {
        assert(256 * (f * 128 + v / 256) == f * 0x8000 + 256 * (v / 256));
    }
    lemma_fundamental_div_mod_converse(word as int, 256, f * 128 + v / 256, v % 256);
    let hi = (word / 256) as u8;
    let lo = (word % 256) as u8;
    assert(hi as int == f * 128 + v / 256);
    assert(v / 256 < 128);
    lemma_fundamental_div_mod_converse(hi as int, 128, f, v / 256);
    assert(hi as int / 128 == f);
    let bytes = b.spec_pack();
    assert(bytes =~= seq![hi, lo]);
    assert(byte_bits(bytes).len() == 16);
    // The first bit is the flag.
    lemma_byte_bits_slice(bytes, 0);
    lemma_byte_bits_slice(bytes, 1);
    assert(byte_bits(bytes)[0] == bits_of_byte(hi)[0]) by {
        assert(byte_bits(bytes).subrange(0, 8)[0] == byte_bits(bytes)[0]);
    }
    assert(bits_of_byte(hi)[0] == ((hi as nat / pow2(7)) % 2 == 1));
    assert(byte_bits(bytes)[0] == b.flag);
    // The remaining fifteen bits carry the value.
    let tail = byte_bits(bytes).skip(1);
    assert(tail =~= bits_of_byte(hi).skip(1) + bits_of_byte(lo)) by {
        assert forall|i: int| 0 <= i < 15 implies tail[i] == (bits_of_byte(hi).skip(1)
            + bits_of_byte(lo))[i] by {
            if i < 7 {
                assert(byte_bits(bytes).subrange(0, 8)[i + 1] == byte_bits(bytes)[i + 1]);
            } else {
                assert(byte_bits(bytes).subrange(8, 16)[i - 7] == byte_bits(bytes)[i + 1]);
            }
        }
    }
    lemma_bits_value_concat(bits_of_byte(hi).skip(1), bits_of_byte(lo));
    lemma_bits_of_byte_suffix(hi, 1);
    lemma_bits_of_byte_value(lo);
    assert(hi as nat % pow2(7) == v / 256) by {
        lemma_fundamental_div_mod_converse(hi as int, 128, f, v / 256);
    }
    assert(bits_value(tail) == (v / 256) * 256 + v % 256);
    assert((v / 256) * 256 == 256 * (v / 256));
}

} // verus!
