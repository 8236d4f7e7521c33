//! The fixed 12-byte message header.
//!
//! Six big-endian 16-bit fields: transaction id, flags, and the four
//! section counts.  The counts are load-bearing: they alone drive how many
//! queries and resource records the message decoder reads.

use crate::bits::u16_be;
use crate::cursor::{BitReader, BitWriter};
use crate::error::DecodeError;
use crate::util::read_u16s_be;
use vstd::prelude::*;

verus! {

/// The message header.
#[derive(Debug, PartialEq, Eq, Clone, Copy, Structural)]
pub struct MDNSHeader {
    pub transaction_id: u16,
    pub flags: u16,
    pub questions: u16,
    pub answer_rrs: u16,
    pub authority_rrs: u16,
    pub additional_rrs: u16,
}

/// The header's twelve wire bytes.
pub open spec fn spec_pack_header(h: MDNSHeader) -> Seq<u8> {
    u16_be(h.transaction_id) + u16_be(h.flags) + u16_be(h.questions) + u16_be(h.answer_rrs)
        + u16_be(h.authority_rrs) + u16_be(h.additional_rrs)
}

/// The header parsed from twelve bytes at `pos`, or `OutOfData`.
pub open spec fn spec_parse_header(data: Seq<u8>, pos: int) -> Result<
    (MDNSHeader, int),
    DecodeError,
> {
    if pos < 0 || pos + 12 > data.len() {
        Err(DecodeError::OutOfData)
    } else {
        Ok(
            (
                MDNSHeader {
                    transaction_id: (256 * data[pos] + data[pos + 1]) as u16,
                    flags: (256 * data[pos + 2] + data[pos + 3]) as u16,
                    questions: (256 * data[pos + 4] + data[pos + 5]) as u16,
                    answer_rrs: (256 * data[pos + 6] + data[pos + 7]) as u16,
                    authority_rrs: (256 * data[pos + 8] + data[pos + 9]) as u16,
                    additional_rrs: (256 * data[pos + 10] + data[pos + 11]) as u16,
                },
                pos + 12,
            ),
        )
    }
}

/// Parsing twelve packed header bytes gives the header back.
pub proof fn lemma_header_round_trip(data: Seq<u8>, pos: int, h: MDNSHeader)
    requires
        0 <= pos,
        pos + 12 <= data.len(),
        data.subrange(pos, pos + 12) == spec_pack_header(h),
    ensures
        spec_parse_header(data, pos) == Ok::<_, DecodeError>((h, pos + 12)),
{
    let enc = spec_pack_header(h);
    assert forall|j: int| 0 <= j < 12 implies data[pos + j] == enc[j] by {
        assert(data.subrange(pos, pos + 12)[j] == data[pos + j]);
    }
    assert(enc[0] == (h.transaction_id / 256) as u8 && enc[1] == (h.transaction_id % 256) as u8);
    assert(enc[2] == (h.flags / 256) as u8 && enc[3] == (h.flags % 256) as u8);
    assert(enc[4] == (h.questions / 256) as u8 && enc[5] == (h.questions % 256) as u8);
    assert(enc[6] == (h.answer_rrs / 256) as u8 && enc[7] == (h.answer_rrs % 256) as u8);
    assert(enc[8] == (h.authority_rrs / 256) as u8 && enc[9] == (h.authority_rrs % 256) as u8);
    assert(enc[10] == (h.additional_rrs / 256) as u8 && enc[11] == (h.additional_rrs % 256) as u8);
}

impl Default for MDNSHeader {
    /// A query header: one question, everything else zero.
    fn default() -> (h: Self)
        ensures
            h.transaction_id == 0,
            h.flags == 0,
            h.questions == 1,
            h.answer_rrs == 0,
            h.authority_rrs == 0,
            h.additional_rrs == 0,
    {
        MDNSHeader {
            transaction_id: 0,
            flags: 0,
            questions: 1,
            answer_rrs: 0,
            authority_rrs: 0,
            additional_rrs: 0,
        }
    }
}

impl MDNSHeader {
    /// A query header: one question, everything else zero.
    pub fn new() -> (h: Self)
        ensures
            h.transaction_id == 0,
            h.flags == 0,
            h.questions == 1,
            h.answer_rrs == 0,
            h.authority_rrs == 0,
            h.additional_rrs == 0,
    {
        Default::default()
    }

    /// Encode the header's twelve bytes.
    pub fn pack(&self, w: &mut BitWriter)
        requires
            old(w).wf(),
            old(w).bitlen % 8 == 0,
            old(w).bitlen < 0x0200_0000,
        ensures
            final(w).wf(),
            final(w).bitlen % 8 == 0,
            final(w).bitlen == old(w).bitlen + 96,
            final(w).buf@ == old(w).buf@ + spec_pack_header(*self),
    {
        w.write_u16(self.transaction_id);
        w.write_u16(self.flags);
        w.write_u16(self.questions);
        w.write_u16(self.answer_rrs);
        w.write_u16(self.authority_rrs);
        w.write_u16(self.additional_rrs);
        proof {
            assert(w.buf@ =~= old(w).buf@ + spec_pack_header(*self));
        }
    }

    /// Decode a header from the reader.
    pub fn unpack(r: &mut BitReader) -> (res: Result<MDNSHeader, DecodeError>)
        requires
            old(r).wf(),
            old(r).pos % 8 == 0,
        ensures
            final(r).wf(),
            final(r).data == old(r).data,
            final(r).pos % 8 == 0,
            match res {
                Ok(h) => spec_parse_header(old(r).data@, old(r).pos as int / 8) == Ok::<
                    _,
                    DecodeError,
                >((h, final(r).pos as int / 8)),
                Err(e) => spec_parse_header(old(r).data@, old(r).pos as int / 8) == Err::<
                    (MDNSHeader, int),
                    _,
                >(e),
            },
    {
        let fields = match read_u16s_be(r, 6) {
            Ok(v) => v,
            Err(e) => {
                return Err(e);
            },
        };
        let h = MDNSHeader {
            transaction_id: fields[0],
            flags: fields[1],
            questions: fields[2],
            answer_rrs: fields[3],
            authority_rrs: fields[4],
            additional_rrs: fields[5],
        };
        Ok(h)
    }
}

} // verus!
