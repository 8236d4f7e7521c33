//! The outgoing message: a header and its queries.
//!
//! A packet is built directly by the caller from a service name and a
//! record type; its header states one question.  Encoding is the header's
//! twelve bytes followed by each query in order; decoding reads exactly as
//! many queries as the header's question count demands.

use crate::cursor::{BitReader, BitWriter};
use crate::error::DecodeError;
use crate::fqdn::{name_packable, spec_pack_name, MDNSFQDN, SpecLabel};
use crate::header::{spec_pack_header, spec_parse_header, MDNSHeader};
use crate::query::{spec_pack_query, spec_parse_query, MDNSQuery};
use crate::rtype::MDNSTYPE;
use vstd::prelude::*;
use vstd::string::StringSliceAdditionalSpecFns;

verus! {

/// The wire bytes of a run of queries.
pub open spec fn spec_pack_queries(qs: Seq<(Seq<SpecLabel>, MDNSTYPE, u16)>) -> Seq<u8>
    decreases qs.len(),
{
    if qs.len() == 0 {
        Seq::empty()
    } else {
        spec_pack_query(qs[0]) + spec_pack_queries(qs.skip(1))
    }
}

/// The wire bytes of a query run split after the first `k` queries.
pub proof fn lemma_pack_queries_split(qs: Seq<(Seq<SpecLabel>, MDNSTYPE, u16)>, k: int)
    requires
        0 <= k <= qs.len(),
    ensures
        spec_pack_queries(qs) == spec_pack_queries(qs.take(k)) + spec_pack_queries(qs.skip(k)),
    decreases k,
{
    if k == 0 {
        assert(qs.take(0) =~= Seq::<(Seq<SpecLabel>, MDNSTYPE, u16)>::empty());
        assert(qs.skip(0) =~= qs);
        assert(spec_pack_queries(qs.take(0)) + spec_pack_queries(qs) =~= spec_pack_queries(qs));
    } else {
        let t = qs.take(k);
        assert(t[0] == qs[0]);
        assert(t.skip(1) =~= qs.skip(1).take(k - 1));
        lemma_pack_queries_split(qs.skip(1), k - 1);
        assert(qs.skip(1).skip(k - 1) =~= qs.skip(k));
        assert(spec_pack_queries(qs) =~= spec_pack_queries(t) + spec_pack_queries(qs.skip(k)));
    }
}

/// Exactly `n` queries parsed one after another from byte offset `pos`.
pub open spec fn spec_parse_queries(data: Seq<u8>, pos: int, n: int) -> Result<
    (Seq<(Seq<SpecLabel>, MDNSTYPE, u16)>, int),
    DecodeError,
>
    decreases n,
{
    if n <= 0 {
        Ok((Seq::empty(), pos))
    } else {
        match spec_parse_query(data, pos) {
            Err(e) => Err(e),
            Ok((q, p2)) => match spec_parse_queries(data, p2, n - 1) {
                Err(e) => Err(e),
                Ok((rest, end)) => Ok((seq![q] + rest, end)),
            },
        }
    }
}

/// Parsing the encodings of a run of queries with uncompressed names gives
/// the run back.
pub proof fn lemma_queries_round_trip(data: Seq<u8>, pos: int, qs: Seq<(Seq<SpecLabel>, MDNSTYPE, u16)>)
    requires
        forall|i: int| 0 <= i < qs.len() ==> crate::fqdn::name_uncompressed((#[trigger] qs[i]).0),
        0 <= pos,
        pos + spec_pack_queries(qs).len() <= data.len(),
        data.subrange(pos, pos + spec_pack_queries(qs).len() as int) == spec_pack_queries(qs),
    ensures
        spec_parse_queries(data, pos, qs.len() as int) == Ok::<_, DecodeError>(
            (qs, pos + spec_pack_queries(qs).len()),
        ),
    decreases qs.len(),
{
    if qs.len() == 0 {
        assert(qs =~= Seq::<(Seq<SpecLabel>, MDNSTYPE, u16)>::empty());
    } else {
        let q0 = qs[0];
        let rest = qs.skip(1);
        let enc = spec_pack_queries(qs);
        let e0 = spec_pack_query(q0);
        let l0 = e0.len() as int;
        assert(enc == e0 + spec_pack_queries(rest));
        assert forall|j: int| 0 <= j < enc.len() implies data[pos + j] == enc[j] by {
            assert(data.subrange(pos, pos + enc.len() as int)[j] == data[pos + j]);
        }
        assert(data.subrange(pos, pos + l0) =~= e0) by {
            assert forall|j: int| 0 <= j < l0 implies data.subrange(pos, pos + l0)[j] == e0[j] by {
                assert(data[pos + j] == enc[j]);
            }
        }
        crate::query::lemma_query_round_trip(data, pos, q0);
        let p2 = pos + l0;
        let rl = spec_pack_queries(rest).len() as int;
        assert(data.subrange(p2, p2 + rl) =~= spec_pack_queries(rest)) by {
            assert forall|j: int| 0 <= j < rl implies data.subrange(p2, p2 + rl)[j]
                == spec_pack_queries(rest)[j] by {
                assert(data[p2 + j] == enc[l0 + j]);
            }
        }
        assert(forall|i: int| 0 <= i < rest.len() ==> rest[i] == #[trigger] qs[i + 1]);
        lemma_queries_round_trip(data, p2, rest);
        assert(seq![q0] + rest =~= qs);
    }
}

/// Law: a packet whose question count matches its queries, and whose names
/// are all uncompressed text, decodes from its own encoding back to
/// itself.
pub proof fn lemma_packet_round_trip(m: (MDNSHeader, Seq<(Seq<SpecLabel>, MDNSTYPE, u16)>))
    requires
        m.0.questions == m.1.len(),
        forall|i: int| 0 <= i < m.1.len() ==> crate::fqdn::name_uncompressed((#[trigger] m.1[i]).0),
    ensures
        spec_parse_packet(spec_pack_packet(m)) == Ok::<_, DecodeError>(
            (m, spec_pack_packet(m).len() as int),
        ),
{
    let data = spec_pack_packet(m);
    let he = spec_pack_header(m.0);
    assert(he.len() == 12);
    assert(data.subrange(0, 12) =~= he);
    crate::header::lemma_header_round_trip(data, 0, m.0);
    let qe = spec_pack_queries(m.1);
    assert(data.subrange(12, 12 + qe.len() as int) =~= qe) by {
        assert forall|j: int| 0 <= j < qe.len() implies data.subrange(
            12,
            12 + qe.len() as int,
        )[j] == qe[j] by {
            assert(data[12 + j] == qe[j]);
        }
    }
    lemma_queries_round_trip(data, 12, m.1);
}

/// Whether every query's name fits its wire fields.
pub open spec fn queries_packable(qs: Seq<(Seq<SpecLabel>, MDNSTYPE, u16)>) -> bool {
    forall|i: int| 0 <= i < qs.len() ==> name_packable((#[trigger] qs[i]).0)
}

/// An outgoing message: the header and its queries.
#[derive(Debug, PartialEq, Eq, Clone)]
pub struct MDNSPacket {
    pub header: MDNSHeader,
    pub queries: Vec<MDNSQuery>,
}

impl View for MDNSPacket {
    type V = (MDNSHeader, Seq<(Seq<SpecLabel>, MDNSTYPE, u16)>);

    open spec fn view(&self) -> (MDNSHeader, Seq<(Seq<SpecLabel>, MDNSTYPE, u16)>) {
        (self.header, self.queries@.map_values(|q: MDNSQuery| q@))
    }
}

/// A whole packet's wire bytes.
pub open spec fn spec_pack_packet(m: (MDNSHeader, Seq<(Seq<SpecLabel>, MDNSTYPE, u16)>)) -> Seq<
    u8,
> {
    spec_pack_header(m.0) + spec_pack_queries(m.1)
}

/// The packet parsed from the start of a buffer: a header, then exactly as
/// many queries as the header announces.
pub open spec fn spec_parse_packet(data: Seq<u8>) -> Result<
    ((MDNSHeader, Seq<(Seq<SpecLabel>, MDNSTYPE, u16)>), int),
    DecodeError,
> {
    match spec_parse_header(data, 0) {
        Err(e) => Err(e),
        Ok((h, p1)) => match spec_parse_queries(data, p1, h.questions as int) {
            Err(e) => Err(e),
            Ok((qs, end)) => Ok(((h, qs), end)),
        },
    }
}

impl MDNSPacket {
    /// A one-question query packet for a service name.
    pub fn new(name: &str, qtype: MDNSTYPE) -> (p: Self)
        ensures
            p.header.transaction_id == 0,
            p.header.flags == 0,
            p.header.questions == 1,
            p.header.answer_rrs == 0,
            p.header.authority_rrs == 0,
            p.header.additional_rrs == 0,
            p.queries@.len() == 1,
            p.queries@[0].qtype == qtype,
            p.queries@[0].qu_qclass == 0x8001u16,
            p.queries@[0].qname@ == crate::fqdn::labels_of_pieces(
                crate::fqdn::spec_split_dots(name.spec_bytes()),
            ),
            p.queries@[0].qname@.len() >= 1,
            forall|i: int|
                0 <= i < p.queries@[0].qname@.len() ==> match #[trigger] p.queries@[0].qname@[i] {
                    SpecLabel::Literal(b) => !b.contains(0x2eu8) && vstd::utf8::valid_utf8(b),
                    SpecLabel::Pointer(_) => false,
                },
            crate::fqdn::spec_text_join(p.queries@[0].qname@) == name.spec_bytes(),
    {
        let header = MDNSHeader::new();
        let query = MDNSQuery::new(name, qtype);
        let mut queries: Vec<MDNSQuery> = Vec::new();
        queries.push(query);
        MDNSPacket { header, queries }
    }

    /// Encode the whole packet to fresh bytes: the header, then each query
    /// in order.  Success is owed whenever every name fits its wire fields
    /// and the total encoding stays within the output buffer's bounds.
    pub fn pack(&self) -> (res: Result<Vec<u8>, DecodeError>)
        ensures
            match res {
                Ok(out) => out@ == spec_pack_packet(self@),
                Err(e) => e == DecodeError::OversizedField,
            },
            queries_packable(self@.1) && spec_pack_packet(self@).len() <= 0x0010_0000 ==> res
                is Ok,
    {
        let ghost qs = self@.1;
        let mut w = BitWriter::new();
        self.header.pack(&mut w);
        let n = self.queries.len();
        let mut k: usize = 0;
        while k < n
            invariant
                k <= n,
                n == self.queries@.len(),
                qs == self@.1,
                w.wf(),
                w.bitlen % 8 == 0,
                w.buf@ == spec_pack_header(self@.0) + spec_pack_queries(qs.take(k as int)),
                w.bitlen == 8 * w.buf@.len(),
                queries_packable(qs) && spec_pack_packet(self@).len() <= 0x0010_0000 ==> w.bitlen
                    + 8 * (spec_pack_queries(qs).len() - spec_pack_queries(
                    qs.take(k as int),
                ).len()) <= 8 * 0x0010_0000 + 96,
            decreases n - k,
        {
            proof {
                assert(self.queries@[k as int]@ == qs[k as int]);
                lemma_pack_queries_split(qs, k as int);
                lemma_pack_queries_split(qs, k + 1);
                lemma_pack_queries_split(qs.take(k + 1), k as int);
                assert(qs.take(k + 1).take(k as int) =~= qs.take(k as int));
                assert(qs.take(k + 1).skip(k as int) =~= seq![qs[k as int]]);
                assert(spec_pack_queries(seq![qs[k as int]]) == spec_pack_query(qs[k as int])
                    + spec_pack_queries(Seq::<(Seq<SpecLabel>, MDNSTYPE, u16)>::empty())) by {
                    assert(seq![qs[k as int]].skip(1) =~= Seq::<
                        (Seq<SpecLabel>, MDNSTYPE, u16),
                    >::empty());
                }
                assert(spec_pack_query(qs[k as int]) + Seq::<u8>::empty() =~= spec_pack_query(
                    qs[k as int],
                ));
            }
            proof {
                assert(qs.skip(k as int)[0] == qs[k as int]);
                assert(qs.skip(k as int).skip(1) =~= qs.skip(k + 1));
                assert(spec_pack_queries(qs.skip(k as int)) == spec_pack_query(qs[k as int])
                    + spec_pack_queries(qs.skip(k + 1)));
            }
            if w.bitlen >= 0x0100_0000 {
                proof {
                    if queries_packable(qs) && spec_pack_packet(self@).len() <= 0x0010_0000 {
                        assert(false);
                    }
                }
                return Err(DecodeError::OversizedField);
            }
            match self.queries[k].pack(&mut w) {
                Ok(()) => {},
                Err(e) => {
                    proof {
                        if queries_packable(qs) && spec_pack_packet(self@).len() <= 0x0010_0000 {
                            assert(name_packable(qs[k as int].0));
                            assert(spec_pack_query(qs[k as int]).len() == spec_pack_name(
                                qs[k as int].0,
                            ).len() + 4);
                            assert(false);
                        }
                    }
                    return Err(e);
                },
            }
            proof {
                assert(w.buf@ =~= spec_pack_header(self@.0) + spec_pack_queries(qs.take(k + 1)));
            }
            k = k + 1;
        }
        proof {
            assert(qs.take(n as int) =~= qs);
            assert(w.buf@ =~= spec_pack_packet(self@));
        }
        Ok(w.into_bytes())
    }

    /// Decode a packet: the header, then exactly the announced number of
    /// queries.
    pub fn unpack(data: &Vec<u8>) -> (res: Result<MDNSPacket, DecodeError>)
        requires
            data@.len() < 0x1000_0000,
        ensures
            match res {
                Ok(p) => {
                    &&& spec_parse_packet(data@) is Ok
                    &&& p@ == spec_parse_packet(data@)->Ok_0.0
                    &&& p.queries@.len() == p.header.questions
                },
                Err(e) => spec_parse_packet(data@) == Err::<
                    ((MDNSHeader, Seq<(Seq<SpecLabel>, MDNSTYPE, u16)>), int),
                    _,
                >(e),
            },
    {
        let mut r = BitReader::new(data);
        let header = match MDNSHeader::unpack(&mut r) {
            Ok(h) => h,
            Err(e) => {
                return Err(e);
            },
        };
        let queries = match unpack_queries(&mut r, header.questions as usize) {
            Ok(v) => v,
            Err(e) => {
                return Err(e);
            },
        };
        Ok(MDNSPacket { header, queries })
    }
}

/// Read exactly `n` queries one after another.
pub fn unpack_queries(r: &mut BitReader, n: usize) -> (res: Result<Vec<MDNSQuery>, DecodeError>)
    requires
        old(r).wf(),
        old(r).pos % 8 == 0,
    ensures
        final(r).wf(),
        final(r).data == old(r).data,
        final(r).pos % 8 == 0,
        match res {
            Ok(v) => {
                &&& spec_parse_queries(old(r).data@, old(r).pos as int / 8, n as int) == Ok::<
                    _,
                    DecodeError,
                >((v@.map_values(|q: MDNSQuery| q@), final(r).pos as int / 8))
                &&& v@.len() == n
            },
            Err(e) => spec_parse_queries(old(r).data@, old(r).pos as int / 8, n as int) == Err::<
                (Seq<(Seq<SpecLabel>, MDNSTYPE, u16)>, int),
                _,
            >(e),
        },
{
    let ghost d = old(r).data@;
    let ghost p0 = old(r).pos as int / 8;
    let mut out: Vec<MDNSQuery> = Vec::new();
    let mut k: usize = 0;
    proof {
        assert(out@.map_values(|q: MDNSQuery| q@) =~= Seq::<(Seq<SpecLabel>, MDNSTYPE, u16)>::empty());
    }
    while k < n
        invariant
            k <= n,
            r.wf(),
            r.pos % 8 == 0,
            r.data == old(r).data,
            r.data@ == d,
            d == old(r).data@,
            p0 == old(r).pos as int / 8,
            out@.len() == k,
            ({
                let cur = r.pos as int / 8;
                match spec_parse_queries(d, cur, n - k) {
                    Ok((rest, end)) => spec_parse_queries(d, p0, n as int) == Ok::<_, DecodeError>(
                        (out@.map_values(|q: MDNSQuery| q@) + rest, end),
                    ),
                    Err(e) => spec_parse_queries(d, p0, n as int) == Err::<
                        (Seq<(Seq<SpecLabel>, MDNSTYPE, u16)>, int),
                        _,
                    >(e),
                }
            }),
        decreases n - k,
    {
        let ghost cur = r.pos as int / 8;
        let ghost accv = out@.map_values(|q: MDNSQuery| q@);
        let q = match MDNSQuery::unpack(r) {
            Ok(q) => q,
            Err(e) => {
                return Err(e);
            },
        };
        let ghost qv = q@;
        let ghost oq = out@;
        out.push(q);
        proof {
            assert(out@ == oq.push(out@[k as int]));
            assert(out@[k as int]@ == qv);
            assert(out@.map_values(|q2: MDNSQuery| q2@) =~= accv + seq![qv]) by {
                assert(oq.map_values(|q2: MDNSQuery| q2@).len() == oq.len());
                assert forall|j: int| 0 <= j < k + 1 implies out@.map_values(|q2: MDNSQuery| q2@)[j]
                    == #[trigger] ((accv + seq![qv])[j]) by {
                    if j < k {
                        assert(out@[j] == oq[j]);
                        assert(oq.map_values(|q2: MDNSQuery| q2@)[j] == accv[j]);
                    }
                }
            }
            let cur2 = r.pos as int / 8;
            match spec_parse_queries(d, cur2, n - k - 1) {
                Ok((rest, end)) => {
                    assert((accv + seq![qv]) + rest =~= accv + (seq![qv] + rest));
                },
                Err(e) => {},
            }
        }
        k = k + 1;
    }
    proof {
        assert(spec_parse_queries(d, r.pos as int / 8, 0) == Ok::<_, DecodeError>((
            Seq::<(Seq<SpecLabel>, MDNSTYPE, u16)>::empty(),
            r.pos as int / 8,
        )));
        assert(out@.map_values(|q: MDNSQuery| q@) + Seq::<
            (Seq<SpecLabel>, MDNSTYPE, u16),
        >::empty() =~= out@.map_values(|q: MDNSQuery| q@));
    }
    Ok(out)
}

} // verus!
