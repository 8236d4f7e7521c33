//! Query records.
//!
//! A query is a name, a 16-bit record-type code, and the compound class
//! field whose top bit asks for a unicast response.

use crate::bits::u16_be;
use crate::cursor::{BitReader, BitWriter};
use crate::error::DecodeError;
use crate::fqdn::{spec_pack_name, spec_parse_name, MDNSFQDN, SpecLabel};
use crate::resolve::{spec_resolve_name, labels_of_texts, ResolveCache};
use crate::rtype::MDNSTYPE;
use vstd::prelude::*;
use vstd::string::StringSliceAdditionalSpecFns;

verus! {

/// A query record.
#[derive(Debug, PartialEq, Eq, Clone)]
pub struct MDNSQuery {
    pub qname: MDNSFQDN,
    pub qtype: MDNSTYPE,
    pub qu_qclass: u16,
}

impl View for MDNSQuery {
    type V = (Seq<SpecLabel>, MDNSTYPE, u16);

    open spec fn view(&self) -> (Seq<SpecLabel>, MDNSTYPE, u16) {
        (self.qname@, self.qtype, self.qu_qclass)
    }
}

/// A query's wire bytes: name, type code, class field.
pub open spec fn spec_pack_query(q: (Seq<SpecLabel>, MDNSTYPE, u16)) -> Seq<u8> {
    spec_pack_name(q.0) + u16_be(q.1.spec_code()) + u16_be(q.2)
}

/// The query parsed at byte offset `pos`: a name, then a recognized type
/// code, then the class field.
pub open spec fn spec_parse_query(data: Seq<u8>, pos: int) -> Result<
    ((Seq<SpecLabel>, MDNSTYPE, u16), int),
    DecodeError,
> {
    match spec_parse_name(data, pos) {
        Err(e) => Err(e),
        Ok((ls, p1)) => {
            if p1 + 2 > data.len() {
                Err(DecodeError::OutOfData)
            } else {
                let code = (256 * data[p1] + data[p1 + 1]) as u16;
                match MDNSTYPE::spec_from_code(code) {
                    None => Err(DecodeError::UnknownRecordType),
                    Some(t) => {
                        if p1 + 4 > data.len() {
                            Err(DecodeError::OutOfData)
                        } else {
                            Ok(((ls, t, (256 * data[p1 + 2] + data[p1 + 3]) as u16), p1 + 4))
                        }
                    },
                }
            }
        },
    }
}

/// Parsing the encoding of a query with an uncompressed name, wherever it
/// sits in a buffer, gives the query back.
pub proof fn lemma_query_round_trip(data: Seq<u8>, pos: int, q: (Seq<SpecLabel>, MDNSTYPE, u16))
    requires
        crate::fqdn::name_uncompressed(q.0),
        0 <= pos,
        pos + spec_pack_query(q).len() <= data.len(),
        data.subrange(pos, pos + spec_pack_query(q).len() as int) == spec_pack_query(q),
    ensures
        spec_parse_query(data, pos) == Ok::<_, DecodeError>((q, pos + spec_pack_query(q).len())),
{
    let name_enc = spec_pack_name(q.0);
    let enc = spec_pack_query(q);
    let nl = name_enc.len() as int;
    assert forall|j: int| 0 <= j < enc.len() implies data[pos + j] == enc[j] by {
        assert(data.subrange(pos, pos + enc.len() as int)[j] == data[pos + j]);
    }
    assert(data.subrange(pos, pos + nl) =~= name_enc) by {
        assert forall|j: int| 0 <= j < nl implies data.subrange(pos, pos + nl)[j] == name_enc[j] by {
            assert(data[pos + j] == enc[j]);
        }
    }
    crate::fqdn::lemma_name_round_trip(data, pos, q.0);
    let p1 = pos + nl;
    let code = q.1.spec_code();
    assert(data[p1] == (code / 256) as u8 && data[p1 + 1] == (code % 256) as u8) by {
        assert(enc[nl] == u16_be(code)[0] && enc[nl + 1] == u16_be(code)[1]);
    }
    vstd::arithmetic::div_mod::lemma_fundamental_div_mod(code as int, 256);
    crate::rtype::lemma_type_code_round_trip(q.1);
    assert(data[p1 + 2] == (q.2 / 256) as u8 && data[p1 + 3] == (q.2 % 256) as u8) by {
        assert(enc[nl + 2] == u16_be(q.2)[0] && enc[nl + 3] == u16_be(q.2)[1]);
    }
    vstd::arithmetic::div_mod::lemma_fundamental_div_mod(q.2 as int, 256);
}

impl MDNSQuery {
    /// A query for one service name, asking for a unicast response in the
    /// Internet class.
    pub fn new(name: &str, qtype: MDNSTYPE) -> (q: Self)
        ensures
            q.qtype == qtype,
            q.qu_qclass == 0x8001u16,
            q.qname@ == crate::fqdn::labels_of_pieces(
                crate::fqdn::spec_split_dots(name.spec_bytes()),
            ),
            q.qname@.len() >= 1,
            forall|i: int|
                0 <= i < q.qname@.len() ==> match #[trigger] q.qname@[i] {
                    SpecLabel::Literal(b) => !b.contains(0x2eu8) && vstd::utf8::valid_utf8(b),
                    SpecLabel::Pointer(_) => false,
                },
            crate::fqdn::spec_text_join(q.qname@) == name.spec_bytes(),
    {
        let qname = MDNSFQDN::new(name);
        MDNSQuery { qname, qtype, qu_qclass: 0x8001 }
    }

    /// Encode this query: the name, then type and class.
    pub fn pack(&self, w: &mut BitWriter) -> (res: Result<(), DecodeError>)
        requires
            old(w).wf(),
            old(w).bitlen % 8 == 0,
            old(w).bitlen < 0x0100_0000,
        ensures
            final(w).wf(),
            final(w).bitlen % 8 == 0,
            match res {
                Ok(u) => {
                    &&& final(w).buf@ == old(w).buf@ + spec_pack_query(self@)
                    &&& final(w).bitlen == old(w).bitlen + 8 * spec_pack_query(self@).len()
                },
                Err(e) => {
                    &&& e == DecodeError::OversizedField
                    &&& !(crate::fqdn::name_packable(self@.0) && old(w).bitlen + 8
                        * spec_pack_name(self@.0).len() < 0x0200_0000)
                    &&& *final(w) == *old(w)
                },
            },
    {
        match self.qname.pack(w) {
            Ok(()) => {},
            Err(e) => {
                return Err(e);
            },
        }
        w.write_u16(self.qtype.code());
        w.write_u16(self.qu_qclass);
        proof {
            assert(w.buf@ =~= old(w).buf@ + spec_pack_query(self@));
        }
        Ok(())
    }

    /// Decode a query from the reader.
    pub fn unpack(r: &mut BitReader) -> (res: Result<MDNSQuery, DecodeError>)
        requires
            old(r).wf(),
            old(r).pos % 8 == 0,
        ensures
            final(r).wf(),
            final(r).data == old(r).data,
            final(r).pos % 8 == 0,
            match res {
                Ok(q) => spec_parse_query(old(r).data@, old(r).pos as int / 8) == Ok::<
                    _,
                    DecodeError,
                >((q@, final(r).pos as int / 8)),
                Err(e) => spec_parse_query(old(r).data@, old(r).pos as int / 8) == Err::<
                    ((Seq<SpecLabel>, MDNSTYPE, u16), int),
                    _,
                >(e),
            },
    {
        let qname = match MDNSFQDN::unpack(r) {
            Ok(n) => n,
            Err(e) => {
                return Err(e);
            },
        };
        let code = match r.read_u16() {
            Ok(v) => v,
            Err(e) => {
                return Err(e);
            },
        };
        let qtype = match MDNSTYPE::from_code(code) {
            Some(t) => t,
            None => {
                return Err(DecodeError::UnknownRecordType);
            },
        };
        let qu_qclass = match r.read_u16() {
            Ok(v) => v,
            Err(e) => {
                return Err(e);
            },
        };
        Ok(MDNSQuery { qname, qtype, qu_qclass })
    }

    /// Resolve any compression pointers in the query's name against the
    /// message buffer.
    pub fn resolve(&mut self, data: &Vec<u8>, cache: &mut ResolveCache) -> (res: Result<
        (),
        DecodeError,
    >)
        requires
            data@.len() < 0x1000_0000,
            old(cache).wf(data@),
        ensures
            final(cache).wf(data@),
            final(self).qtype == old(self).qtype,
            final(self).qu_qclass == old(self).qu_qclass,
            match res {
                Ok(u) => spec_resolve_name(data@, old(self).qname@) is Ok && final(self).qname@
                    == labels_of_texts(spec_resolve_name(data@, old(self).qname@)->Ok_0),
                Err(e) => spec_resolve_name(data@, old(self).qname@) == Err::<Seq<Seq<u8>>, _>(e)
                    && *final(self) == *old(self),
            },
    {
        self.qname.resolve(data, cache)
    }
}

} // verus!
