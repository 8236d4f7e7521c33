//! Resource records.
//!
//! A resource record is a name, a type, the compound class field (with its
//! cache-flush flag), a time to live, and a length-prefixed run of record
//! data.  For the record types whose data carries a domain name, a trailing
//! two-byte compression pointer may end the data; it is split off at decode
//! time and resolved with the rest of the message's names, after which its
//! text is appended to the data.  `rd_length` always keeps the length as
//! transmitted, before any such split.

use crate::bits::{u16_be, u32_be};
use crate::cursor::{BitReader, BitWriter};
use crate::error::DecodeError;
use crate::fqdn::{spec_pack_name, spec_parse_name, spec_text_join, Label, MDNSFQDN, SpecLabel};
use crate::resolve::{
    labels_of_texts, resolve_at, spec_resolve_name, spec_resolved_at, ResolveCache,
};
use crate::rtype::MDNSTYPE;
use vstd::prelude::*;

verus! {

/// A resource record.
#[derive(Debug, PartialEq, Eq, Clone)]
pub struct MDNSResourceRecord {
    pub rr_name: MDNSFQDN,
    pub rr_type: MDNSTYPE,
    pub cache_flush_rr_class: u16,
    pub ttl: u32,
    /// The length of the record data in bytes as transmitted, before any
    /// trailing compression pointer is split off.
    pub rd_length: u16,
    pub r_data: Vec<u8>,
    /// A trailing compression pointer split off the record data, kept
    /// separate until the resolution pass.
    pub r_data_pointer: Option<Label>,
}

/// The specification-level form of a resource record.
pub struct SpecResourceRecord {
    pub rr_name: Seq<SpecLabel>,
    pub rr_type: MDNSTYPE,
    pub cache_flush_rr_class: u16,
    pub ttl: u32,
    pub rd_length: u16,
    pub r_data: Seq<u8>,
    pub r_data_pointer: Option<SpecLabel>,
}

impl View for MDNSResourceRecord {
    type V = SpecResourceRecord;

    open spec fn view(&self) -> SpecResourceRecord {
        SpecResourceRecord {
            rr_name: self.rr_name@,
            rr_type: self.rr_type,
            cache_flush_rr_class: self.cache_flush_rr_class,
            ttl: self.ttl,
            rd_length: self.rd_length,
            r_data: self.r_data@,
            r_data_pointer: match &self.r_data_pointer {
                Some(l) => Some(l@),
                None => None,
            },
        }
    }
}

/// The record types whose data may carry a compressed name, so that a
/// trailing pointer in their data is interpreted rather than kept literal.
pub open spec fn spec_rdata_compressible(t: MDNSTYPE) -> bool {
    ||| t == MDNSTYPE::NS
    ||| t == MDNSTYPE::CNAME
    ||| t == MDNSTYPE::PTR
    ||| t == MDNSTYPE::DNAME
    ||| t == MDNSTYPE::SOA
    ||| t == MDNSTYPE::MX
    ||| t == MDNSTYPE::AFSDB
    ||| t == MDNSTYPE::KX
    ||| t == MDNSTYPE::RP
    ||| t == MDNSTYPE::SRV
    ||| t == MDNSTYPE::NSEC
}

/// Whether a record's data may carry a compressed name.
pub fn rdata_compressible(t: MDNSTYPE) -> (r: bool)
    ensures
        r == spec_rdata_compressible(t),
{
    matches!(
        t,
        MDNSTYPE::NS | MDNSTYPE::CNAME | MDNSTYPE::PTR | MDNSTYPE::DNAME | MDNSTYPE::SOA
            | MDNSTYPE::MX | MDNSTYPE::AFSDB | MDNSTYPE::KX | MDNSTYPE::RP | MDNSTYPE::SRV
            | MDNSTYPE::NSEC
    )
}

/// A record's wire bytes: the name, type and class, time to live, the
/// transmitted data length, and the data bytes held in the record.  (A
/// split-off pointer is never re-encoded: outgoing compression is not
/// performed.)
pub open spec fn spec_pack_rr(m: SpecResourceRecord) -> Seq<u8> {
    spec_pack_name(m.rr_name) + u16_be(m.rr_type.spec_code()) + u16_be(m.cache_flush_rr_class)
        + u32_be(m.ttl) + u16_be(m.rd_length) + m.r_data
}

/// The record parsed at byte offset `pos`, with the trailing-pointer split
/// applied for the compressible record types.
pub open spec fn spec_parse_rr(data: Seq<u8>, pos: int) -> Result<
    (SpecResourceRecord, int),
    DecodeError,
> {
    match spec_parse_name(data, pos) {
        Err(e) => Err(e),
        Ok((ls, p1)) => {
            if p1 + 2 > data.len() {
                Err(DecodeError::OutOfData)
            } else {
                let code = (256 * data[p1] + data[p1 + 1]) as u16;
                match MDNSTYPE::spec_from_code(code) {
                    None => Err(DecodeError::UnknownRecordType),
                    Some(t) => {
                        if p1 + 10 > data.len() {
                            Err(DecodeError::OutOfData)
                        } else {
                            let cls = (256 * data[p1 + 2] + data[p1 + 3]) as u16;
                            let ttl = (0x100_0000 * data[p1 + 4] + 0x1_0000 * data[p1 + 5] + 0x100
                                * data[p1 + 6] + data[p1 + 7]) as u32;
                            let rdlen = (256 * data[p1 + 8] + data[p1 + 9]) as u16;
                            let q = p1 + 10;
                            if q + rdlen > data.len() {
                                Err(DecodeError::OutOfData)
                            } else {
                                let rd = data.subrange(q, q + rdlen);
                                if spec_rdata_compressible(t) && rdlen >= 2 && rd[rdlen - 2]
                                    >= 0xC0 {
                                    let ptr = (rd[rdlen - 2] - 0xC0) * 256 + rd[rdlen - 1];
                                    if ptr < q + rdlen - 2 {
                                        Ok(
                                            (
                                                SpecResourceRecord {
                                                    rr_name: ls,
                                                    rr_type: t,
                                                    cache_flush_rr_class: cls,
                                                    ttl,
                                                    rd_length: rdlen,
                                                    r_data: rd.take(rdlen - 2),
                                                    r_data_pointer: Some(
                                                        SpecLabel::Pointer(ptr as u16),
                                                    ),
                                                },
                                                q + rdlen,
                                            ),
                                        )
                                    } else {
                                        Err(DecodeError::InvalidPointer)
                                    }
                                } else {
                                    Ok(
                                        (
                                            SpecResourceRecord {
                                                rr_name: ls,
                                                rr_type: t,
                                                cache_flush_rr_class: cls,
                                                ttl,
                                                rd_length: rdlen,
                                                r_data: rd,
                                                r_data_pointer: None,
                                            },
                                            q + rdlen,
                                        ),
                                    )
                                }
                            }
                        }
                    },
                }
            }
        },
    }
}

/// The record after the resolution pass: the name fully resolved, and a
/// split-off data pointer replaced by the text it resolves to, appended to
/// the data.
pub open spec fn spec_resolve_rr(data: Seq<u8>, m: SpecResourceRecord) -> Result<
    SpecResourceRecord,
    DecodeError,
> {
    match spec_resolve_name(data, m.rr_name) {
        Err(e) => Err(e),
        Ok(ts) => {
            let resolved = labels_of_texts(ts);
            match m.r_data_pointer {
                None => Ok(SpecResourceRecord { rr_name: resolved, r_data_pointer: None, ..m }),
                Some(SpecLabel::Literal(b)) => Ok(
                    SpecResourceRecord {
                        rr_name: resolved,
                        r_data: m.r_data + b,
                        r_data_pointer: None,
                        ..m
                    },
                ),
                Some(SpecLabel::Pointer(p)) => {
                    if p >= data.len() {
                        Err(DecodeError::InvalidPointer)
                    } else {
                        match spec_resolved_at(data, p as int) {
                            Err(e) => Err(e),
                            Ok(ts2) => Ok(
                                SpecResourceRecord {
                                    rr_name: resolved,
                                    r_data: m.r_data + spec_text_join(labels_of_texts(ts2)),
                                    r_data_pointer: None,
                                    ..m
                                },
                            ),
                        }
                    }
                },
            }
        },
    }
}

/// A record in the form whose encoding is guaranteed to decode back to
/// itself: the name uncompressed, the stored data exactly as long as the
/// transmitted length says, no split-off pointer, and — for the record
/// types whose data may carry a compressed name — no accidental pointer
/// tag in the final two data bytes.
pub open spec fn rr_round_trippable(m: SpecResourceRecord) -> bool {
    &&& crate::fqdn::name_uncompressed(m.rr_name)
    &&& m.r_data_pointer is None
    &&& m.rd_length == m.r_data.len()
    &&& (spec_rdata_compressible(m.rr_type) && m.rd_length >= 2 ==> m.r_data[m.rd_length - 2]
        < 0xC0)
}

/// Parsing the encoding of a round-trippable record, wherever it sits in a
/// buffer, gives the record back.
pub proof fn lemma_rr_round_trip(data: Seq<u8>, pos: int, m: SpecResourceRecord)
    requires
        rr_round_trippable(m),
        0 <= pos,
        pos + spec_pack_rr(m).len() <= data.len(),
        data.subrange(pos, pos + spec_pack_rr(m).len() as int) == spec_pack_rr(m),
    ensures
        spec_parse_rr(data, pos) == Ok::<_, DecodeError>((m, pos + spec_pack_rr(m).len())),
{
    let name_enc = spec_pack_name(m.rr_name);
    let enc = spec_pack_rr(m);
    let nl = name_enc.len() as int;
    assert forall|j: int| 0 <= j < enc.len() implies data[pos + j] == enc[j] by {
        assert(data.subrange(pos, pos + enc.len() as int)[j] == data[pos + j]);
    }
    assert(data.subrange(pos, pos + nl) =~= name_enc) by {
        assert forall|j: int| 0 <= j < nl implies data.subrange(pos, pos + nl)[j] == name_enc[j] by {
            assert(data[pos + j] == enc[j]);
        }
    }
    crate::fqdn::lemma_name_round_trip(data, pos, m.rr_name);
    let p1 = pos + nl;
    let code = m.rr_type.spec_code();
    assert(data[p1] == (code / 256) as u8 && data[p1 + 1] == (code % 256) as u8) by {
        assert(enc[nl] == u16_be(code)[0] && enc[nl + 1] == u16_be(code)[1]);
    }
    vstd::arithmetic::div_mod::lemma_fundamental_div_mod(code as int, 256);
    crate::rtype::lemma_type_code_round_trip(m.rr_type);
    let cls = m.cache_flush_rr_class;
    assert(data[p1 + 2] == (cls / 256) as u8 && data[p1 + 3] == (cls % 256) as u8) by {
        assert(enc[nl + 2] == u16_be(cls)[0] && enc[nl + 3] == u16_be(cls)[1]);
    }
    vstd::arithmetic::div_mod::lemma_fundamental_div_mod(cls as int, 256);
    let t = m.ttl;
    assert(data[p1 + 4] == (t / 0x100_0000) as u8 && data[p1 + 5] == ((t / 0x1_0000) % 256) as u8
        && data[p1 + 6] == ((t / 0x100) % 256) as u8 && data[p1 + 7] == (t % 256) as u8) by {
        assert(enc[nl + 4] == u32_be(t)[0] && enc[nl + 5] == u32_be(t)[1] && enc[nl + 6] == u32_be(
            t,
        )[2] && enc[nl + 7] == u32_be(t)[3]);
    }
    assert(0x100_0000 * ((t / 0x100_0000) as u8) + 0x1_0000 * (((t / 0x1_0000) % 256) as u8)
        + 0x100 * (((t / 0x100) % 256) as u8) + ((t % 256) as u8) == t) by {
        vstd::arithmetic::div_mod::lemma_fundamental_div_mod(t as int, 0x100_0000);
        vstd::arithmetic::div_mod::lemma_fundamental_div_mod(t as int, 0x1_0000);
        vstd::arithmetic::div_mod::lemma_fundamental_div_mod(t as int, 0x100);
        vstd::arithmetic::div_mod::lemma_fundamental_div_mod(t as int / 0x1_0000, 0x100);
        vstd::arithmetic::div_mod::lemma_fundamental_div_mod(t as int / 0x100, 0x100);
        vstd::arithmetic::div_mod::lemma_div_denominator(t as int, 0x100, 0x100);
        vstd::arithmetic::div_mod::lemma_div_denominator(t as int, 0x1_0000, 0x100);
        vstd::arithmetic::div_mod::lemma_breakdown(t as int, 0x100, 0x100);
        vstd::arithmetic::div_mod::lemma_breakdown(t as int, 0x1_0000, 0x100);
    }
    let rdl = m.rd_length;
    assert(data[p1 + 8] == (rdl / 256) as u8 && data[p1 + 9] == (rdl % 256) as u8) by {
        assert(enc[nl + 8] == u16_be(rdl)[0] && enc[nl + 9] == u16_be(rdl)[1]);
    }
    vstd::arithmetic::div_mod::lemma_fundamental_div_mod(rdl as int, 256);
    let q = p1 + 10;
    assert(data.subrange(q, q + rdl) =~= m.r_data) by {
        assert forall|j: int| 0 <= j < rdl implies data.subrange(q, q + rdl)[j] == m.r_data[j] by {
            assert(data[q + j] == enc[nl + 10 + j]);
        }
    }
}

impl MDNSResourceRecord {
    /// Encode this record.  The name must fit its wire fields and the data
    /// must fit the 16-bit length that describes it.
    pub fn pack(&self, w: &mut BitWriter) -> (res: Result<(), DecodeError>)
        requires
            old(w).wf(),
            old(w).bitlen % 8 == 0,
            old(w).bitlen < 0x0100_0000,
        ensures
            final(w).wf(),
            final(w).bitlen % 8 == 0,
            match res {
                Ok(u) => {
                    &&& self.r_data@.len() <= 0xFFFF
                    &&& final(w).buf@ == old(w).buf@ + spec_pack_rr(self@)
                    &&& final(w).bitlen == old(w).bitlen + 8 * spec_pack_rr(self@).len()
                },
                Err(e) => {
                    &&& e == DecodeError::OversizedField
                    &&& !(crate::fqdn::name_packable(self@.rr_name) && self.r_data@.len() <= 0xFFFF
                        && old(w).bitlen + 8 * spec_pack_rr(self@).len() < 0x0200_0000)
                    &&& *final(w) == *old(w)
                },
            },
    {
        proof {
            assert(spec_pack_rr(self@).len() == spec_pack_name(self@.rr_name).len() + 10
                + self.r_data@.len());
        }
        if self.r_data.len() > 0xFFFF {
            return Err(DecodeError::OversizedField);
        }
        match self.rr_name.pack(w) {
            Ok(()) => {},
            Err(e) => {
                return Err(e);
            },
        }
        w.write_u16(self.rr_type.code());
        w.write_u16(self.cache_flush_rr_class);
        w.write_u32(self.ttl);
        w.write_u16(self.rd_length);
        w.write_bytes(&self.r_data);
        proof {
            assert(w.buf@ =~= old(w).buf@ + spec_pack_rr(self@));
        }
        Ok(())
    }

    /// Decode a record from the reader.
    pub fn unpack(r: &mut BitReader) -> (res: Result<MDNSResourceRecord, DecodeError>)
        requires
            old(r).wf(),
            old(r).pos % 8 == 0,
        ensures
            final(r).wf(),
            final(r).data == old(r).data,
            final(r).pos % 8 == 0,
            match res {
                Ok(rr) => spec_parse_rr(old(r).data@, old(r).pos as int / 8) == Ok::<
                    _,
                    DecodeError,
                >((rr@, final(r).pos as int / 8)),
                Err(e) => spec_parse_rr(old(r).data@, old(r).pos as int / 8) == Err::<
                    (SpecResourceRecord, int),
                    _,
                >(e),
            },
    {
        let ghost d = old(r).data@;
        let ghost p0 = old(r).pos as int / 8;
        let rr_name = match MDNSFQDN::unpack(r) {
            Ok(n) => n,
            Err(e) => {
                return Err(e);
            },
        };
        let ghost p1 = r.pos as int / 8;
        let code = match r.read_u16() {
            Ok(v) => v,
            Err(e) => {
                return Err(e);
            },
        };
        let rr_type = match MDNSTYPE::from_code(code) {
            Some(t) => t,
            None => {
                return Err(DecodeError::UnknownRecordType);
            },
        };
        let cache_flush_rr_class = match r.read_u16() {
            Ok(v) => v,
            Err(e) => {
                proof {
                    assert(p1 + 4 > d.len() && p1 + 10 > d.len());
                }
                return Err(e);
            },
        };
        let ttl = match r.read_u32() {
            Ok(v) => v,
            Err(e) => {
                proof {
                    assert(p1 + 8 > d.len() && p1 + 10 > d.len());
                }
                return Err(e);
            },
        };
        let rd_length = match r.read_u16() {
            Ok(v) => v,
            Err(e) => {
                return Err(e);
            },
        };
        let mut r_data = match r.read_bytes(rd_length as usize) {
            Ok(v) => v,
            Err(e) => {
                return Err(e);
            },
        };
        let ghost q = p1 + 10;
        let mut r_data_pointer: Option<Label> = None;
        if rdata_compressible(rr_type) && rd_length >= 2 {
            let tag = r_data[(rd_length - 2) as usize];
            if tag >= 0xC0 {
                let lo = r_data[(rd_length - 1) as usize];
                let ptr: u16 = ((tag - 0xC0) as u16) * 256 + (lo as u16);
                // The pointer may only reference a strictly earlier offset
                // than the place where it appeared.
                let tag_pos = (r.pos / 8) - 2;
                if (ptr as usize) < tag_pos {
                    let ghost full = r_data@;
                    let tail = r_data.split_off((rd_length - 2) as usize);
                    proof {
                        assert(r_data@ =~= full.take(rd_length - 2));
                        assert(full.take(rd_length - 2) =~= d.subrange(q, q + rd_length).take(
                            rd_length - 2,
                        ));
                    }
                    r_data_pointer = Some(Label::Pointer(ptr));
                } else {
                    return Err(DecodeError::InvalidPointer);
                }
            }
        }
        let rr = MDNSResourceRecord {
            rr_name,
            rr_type,
            cache_flush_rr_class,
            ttl,
            rd_length,
            r_data,
            r_data_pointer,
        };
        Ok(rr)
    }

    /// Resolve the record's name, and a split-off data pointer, against the
    /// message buffer.  The text the data pointer resolves to is appended
    /// to the record data and the pointer is cleared.  On failure the
    /// record is left unchanged.
    pub fn resolve(&mut self, data: &Vec<u8>, cache: &mut ResolveCache) -> (res: Result<
        (),
        DecodeError,
    >)
        requires
            data@.len() < 0x1000_0000,
            old(cache).wf(data@),
        ensures
            final(cache).wf(data@),
            match res {
                Ok(u) => spec_resolve_rr(data@, old(self)@) == Ok::<_, DecodeError>(final(self)@),
                Err(e) => {
                    &&& spec_resolve_rr(data@, old(self)@) == Err::<SpecResourceRecord, _>(e)
                    &&& *final(self) == *old(self)
                },
            },
    {
        let ghost m = old(self)@;
        // Resolve into a fresh copy of the name: the record itself is only
        // written once everything has succeeded.
        let mut name = MDNSFQDN { labels: self.rr_name.get_labels() };
        proof {
            assert(name@ == m.rr_name);
        }
        match name.resolve(data, cache) {
            Ok(()) => {},
            Err(e) => {
                return Err(e);
            },
        }
        let append: Vec<u8> = match &self.r_data_pointer {
            None => Vec::new(),
            Some(Label::Literal(v)) => {
                let mut c: Vec<u8> = Vec::new();
                let mut j: usize = 0;
                while j < v.len()
                    invariant
                        j <= v@.len(),
                        c@ == v@.subrange(0, j as int),
                    decreases v@.len() - j,
                {
                    c.push(v[j]);
                    proof {
                        assert(c@ =~= v@.subrange(0, j + 1));
                    }
                    j = j + 1;
                }
                proof {
                    assert(v@.subrange(0, v@.len() as int) =~= v@);
                }
                c
            },
            Some(Label::Pointer(p)) => {
                let target = *p;
                if target as usize >= data.len() {
                    return Err(DecodeError::InvalidPointer);
                }
                let ts = match resolve_at(data, cache, target) {
                    Ok(ts) => ts,
                    Err(e) => {
                        return Err(e);
                    },
                };
                let resolved = MDNSFQDN { labels: texts_to_labels(&ts) };
                resolved.display_bytes()
            },
        };
        proof {
            assert(append@ == (match m.r_data_pointer {
                None => Seq::<u8>::empty(),
                Some(SpecLabel::Literal(b)) => b,
                Some(SpecLabel::Pointer(p)) => spec_text_join(
                    labels_of_texts(spec_resolved_at(data@, p as int)->Ok_0),
                ),
            }));
        }
        self.rr_name = name;
        self.r_data_pointer = None;
        let mut j: usize = 0;
        let ghost base = self.r_data@;
        while j < append.len()
            invariant
                j <= append@.len(),
                self.r_data@ == base + append@.subrange(0, j as int),
                base == m.r_data,
                m == old(self)@,
                cache.wf(data@),
                spec_resolve_name(data@, m.rr_name) is Ok,
                self.rr_name@ == labels_of_texts(spec_resolve_name(data@, m.rr_name)->Ok_0),
                self.r_data_pointer is None,
                self.rr_type == m.rr_type,
                self.cache_flush_rr_class == m.cache_flush_rr_class,
                self.ttl == m.ttl,
                self.rd_length == m.rd_length,
                append@ == (match m.r_data_pointer {
                    None => Seq::<u8>::empty(),
                    Some(SpecLabel::Literal(b)) => b,
                    Some(SpecLabel::Pointer(p)) => spec_text_join(
                        labels_of_texts(spec_resolved_at(data@, p as int)->Ok_0),
                    ),
                }),
                (m.r_data_pointer matches Some(SpecLabel::Pointer(p)) ==> spec_resolved_at(
                    data@,
                    m.r_data_pointer->Some_0->Pointer_0 as int,
                ) is Ok),
            decreases append@.len() - j,
        {
            let b = append[j];
            self.r_data.push(b);
            proof {
                assert(self.r_data@ =~= base + append@.subrange(0, j + 1));
            }
            j = j + 1;
        }
        proof {
            assert(append@.subrange(0, append@.len() as int) =~= append@);
            assert(base == m.r_data);
            let want = spec_resolve_rr(data@, m);
            assert(want is Ok);
            match m.r_data_pointer {
                None => {
                    assert(self.r_data@ =~= m.r_data);
                },
                Some(SpecLabel::Literal(b)) => {},
                Some(SpecLabel::Pointer(p)) => {},
            }
            assert(self@.rr_name == want->Ok_0.rr_name);
            assert(self@.r_data_pointer == want->Ok_0.r_data_pointer);
            assert(self@.r_data == want->Ok_0.r_data);
        }
        Ok(())
    }
}

/// Resolved texts as a vector of literal labels.
fn texts_to_labels(ts: &Vec<Vec<u8>>) -> (r: Vec<Label>)
    ensures
        r@.map_values(|l: Label| l@) == labels_of_texts(crate::resolve::texts_of(*ts)),
{
    let n = ts.len();
    let mut r: Vec<Label> = Vec::new();
    proof {
        assert(r@.map_values(|l: Label| l@) =~= labels_of_texts(
            crate::resolve::texts_of(*ts),
        ).subrange(0, 0));
    }
    let mut i: usize = 0;
    while i < n
        invariant
            i <= n,
            n == ts@.len(),
            r@.map_values(|l: Label| l@) == labels_of_texts(crate::resolve::texts_of(*ts)).subrange(
                0,
                i as int,
            ),
        decreases n - i,
    {
        let mut c: Vec<u8> = Vec::new();
        let src = &ts[i];
        let mut j: usize = 0;
        while j < src.len()
            invariant
                j <= src@.len(),
                c@ == src@.subrange(0, j as int),
            decreases src@.len() - j,
        {
            c.push(src[j]);
            proof {
                assert(c@ =~= src@.subrange(0, j + 1));
            }
            j = j + 1;
        }
        proof {
            assert(src@.subrange(0, src@.len() as int) =~= src@);
        }
        let ghost cv = c@;
        let ghost rq = r@;
        r.push(Label::Literal(c));
        proof {
            let want = labels_of_texts(crate::resolve::texts_of(*ts));
            assert(rq.map_values(|l: Label| l@).len() == rq.len());
            assert(want.subrange(0, i as int).len() == i);
            assert(rq.len() == i);
            assert(r@ == rq.push(Label::Literal(c)));
            assert forall|j2: int| 0 <= j2 < i + 1 implies r@.map_values(|l: Label| l@)[j2]
                == #[trigger] (want.subrange(0, i + 1)[j2]) by {
                if j2 < i {
                    assert(r@[j2] == rq[j2]);
                    assert(rq.map_values(|l: Label| l@)[j2] == want.subrange(0, i as int)[j2]);
                } else {
                    assert(r@[j2]@ == SpecLabel::Literal(cv));
                    assert(want[j2] == SpecLabel::Literal(ts@[j2]@));
                }
            }
            assert(r@.map_values(|l: Label| l@) =~= want.subrange(0, i + 1));
        }
        i = i + 1;
    }
    proof {
        assert(labels_of_texts(crate::resolve::texts_of(*ts)).subrange(0, n as int)
            =~= labels_of_texts(crate::resolve::texts_of(*ts)));
    }
    r
}

} // verus!
