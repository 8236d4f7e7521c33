//! The incoming message: a header, queries, and three record sections.
//!
//! Decoding is driven entirely by the header's four counts: exactly that
//! many queries, answers, authorities and additional records are read, and
//! a count that cannot be satisfied is a decode error, never a silently
//! shorter message.  After parsing, one resolution pass walks every name
//! and every split-off record-data pointer against the original buffer,
//! sharing one cache, so that a message with any unresolvable or cyclic
//! pointer is rejected whole.

use crate::cursor::BitReader;
use crate::error::DecodeError;
use crate::fqdn::{Label, MDNSFQDN, SpecLabel};
use crate::header::{spec_parse_header, MDNSHeader};
use crate::packet::{spec_parse_queries, unpack_queries};
use crate::query::MDNSQuery;
use crate::resolve::{labels_of_texts, spec_resolve_name, ResolveCache};
use crate::resource_record::{
    spec_parse_rr, spec_resolve_rr, MDNSResourceRecord, SpecResourceRecord,
};
use crate::rtype::MDNSTYPE;
use vstd::prelude::*;

verus! {

/// Exactly `n` resource records parsed one after another from offset `pos`.
pub open spec fn spec_parse_rrs(data: Seq<u8>, pos: int, n: int) -> Result<
    (Seq<SpecResourceRecord>, int),
    DecodeError,
>
    decreases n,
{
    if n <= 0 {
        Ok((Seq::empty(), pos))
    } else {
        match spec_parse_rr(data, pos) {
            Err(e) => Err(e),
            Ok((rr, p2)) => match spec_parse_rrs(data, p2, n - 1) {
                Err(e) => Err(e),
                Ok((rest, end)) => Ok((seq![rr] + rest, end)),
            },
        }
    }
}

/// Every query of a run, its name resolved in order.
pub open spec fn spec_resolve_queries(data: Seq<u8>, qs: Seq<(Seq<SpecLabel>, MDNSTYPE, u16)>)
    -> Result<Seq<(Seq<SpecLabel>, MDNSTYPE, u16)>, DecodeError>
    decreases qs.len(),
{
    if qs.len() == 0 {
        Ok(Seq::empty())
    } else {
        match spec_resolve_queries(data, qs.drop_last()) {
            Err(e) => Err(e),
            Ok(front) => match spec_resolve_name(data, qs.last().0) {
                Err(e) => Err(e),
                Ok(ts) => Ok(front.push((labels_of_texts(ts), qs.last().1, qs.last().2))),
            },
        }
    }
}

/// Every record of a run, resolved in order.
pub open spec fn spec_resolve_rrs(data: Seq<u8>, rs: Seq<SpecResourceRecord>) -> Result<
    Seq<SpecResourceRecord>,
    DecodeError,
>
    decreases rs.len(),
{
    if rs.len() == 0 {
        Ok(Seq::empty())
    } else {
        match spec_resolve_rrs(data, rs.drop_last()) {
            Err(e) => Err(e),
            Ok(front) => match spec_resolve_rr(data, rs.last()) {
                Err(e) => Err(e),
                Ok(rr) => Ok(front.push(rr)),
            },
        }
    }
}

/// The decoded, fully resolved message.
pub struct SpecResponse {
    pub header: MDNSHeader,
    pub queries: Seq<(Seq<SpecLabel>, MDNSTYPE, u16)>,
    pub answers: Seq<SpecResourceRecord>,
    pub authorities: Seq<SpecResourceRecord>,
    pub additional: Seq<SpecResourceRecord>,
}

/// A whole response decoded from the start of a buffer: the header, the
/// four count-driven sections, then the resolution pass over every name.
pub open spec fn spec_decode_response(data: Seq<u8>) -> Result<SpecResponse, DecodeError> {
    match spec_parse_header(data, 0) {
        Err(e) => Err(e),
        Ok((h, p1)) => match spec_parse_queries(data, p1, h.questions as int) {
            Err(e) => Err(e),
            Ok((qs, p2)) => match spec_parse_rrs(data, p2, h.answer_rrs as int) {
                Err(e) => Err(e),
                Ok((ans, p3)) => match spec_parse_rrs(data, p3, h.authority_rrs as int) {
                    Err(e) => Err(e),
                    Ok((auth, p4)) => match spec_parse_rrs(data, p4, h.additional_rrs as int) {
                        Err(e) => Err(e),
                        Ok((addl, p5)) => match spec_resolve_queries(data, qs) {
                            Err(e) => Err(e),
                            Ok(rqs) => match spec_resolve_rrs(data, ans) {
                                Err(e) => Err(e),
                                Ok(rans) => match spec_resolve_rrs(data, auth) {
                                    Err(e) => Err(e),
                                    Ok(rauth) => match spec_resolve_rrs(data, addl) {
                                        Err(e) => Err(e),
                                        Ok(raddl) => Ok(
                                            SpecResponse {
                                                header: h,
                                                queries: rqs,
                                                answers: rans,
                                                authorities: rauth,
                                                additional: raddl,
                                            },
                                        ),
                                    },
                                },
                            },
                        },
                    },
                },
            },
        },
    }
}

/// An incoming message, fully decoded and resolved.
#[derive(Debug, PartialEq, Eq, Clone)]
pub struct MDNSResponse {
    pub header: MDNSHeader,
    pub queries: Vec<MDNSQuery>,
    pub answers: Vec<MDNSResourceRecord>,
    pub authorities: Vec<MDNSResourceRecord>,
    pub additional: Vec<MDNSResourceRecord>,
}

impl View for MDNSResponse {
    type V = SpecResponse;

    open spec fn view(&self) -> SpecResponse {
        SpecResponse {
            header: self.header,
            queries: self.queries@.map_values(|q: MDNSQuery| q@),
            answers: self.answers@.map_values(|r: MDNSResourceRecord| r@),
            authorities: self.authorities@.map_values(|r: MDNSResourceRecord| r@),
            additional: self.additional@.map_values(|r: MDNSResourceRecord| r@),
        }
    }
}

/// The three record sections chained in order: answers, authorities,
/// additional.
pub open spec fn spec_all_records(m: SpecResponse) -> Seq<SpecResourceRecord> {
    m.answers + m.authorities + m.additional
}

/// Read exactly `n` resource records one after another.
pub fn unpack_rrs(r: &mut BitReader, n: usize) -> (res: Result<
    Vec<MDNSResourceRecord>,
    DecodeError,
>)
    requires
        old(r).wf(),
        old(r).pos % 8 == 0,
    ensures
        final(r).wf(),
        final(r).data == old(r).data,
        final(r).pos % 8 == 0,
        match res {
            Ok(v) => {
                &&& spec_parse_rrs(old(r).data@, old(r).pos as int / 8, n as int) == Ok::<
                    _,
                    DecodeError,
                >((v@.map_values(|x: MDNSResourceRecord| x@), final(r).pos as int / 8))
                &&& v@.len() == n
            },
            Err(e) => spec_parse_rrs(old(r).data@, old(r).pos as int / 8, n as int) == Err::<
                (Seq<SpecResourceRecord>, int),
                _,
            >(e),
        },
{
    let ghost d = old(r).data@;
    let ghost p0 = old(r).pos as int / 8;
    let mut out: Vec<MDNSResourceRecord> = Vec::new();
    let mut k: usize = 0;
    proof {
        assert(out@.map_values(|x: MDNSResourceRecord| x@) =~= Seq::<SpecResourceRecord>::empty());
    }
    while k < n
        invariant
            k <= n,
            r.wf(),
            r.pos % 8 == 0,
            r.data == old(r).data,
            r.data@ == d,
            d == old(r).data@,
            p0 == old(r).pos as int / 8,
            out@.len() == k,
            ({
                let cur = r.pos as int / 8;
                match spec_parse_rrs(d, cur, n - k) {
                    Ok((rest, end)) => spec_parse_rrs(d, p0, n as int) == Ok::<_, DecodeError>(
                        (out@.map_values(|x: MDNSResourceRecord| x@) + rest, end),
                    ),
                    Err(e) => spec_parse_rrs(d, p0, n as int) == Err::<
                        (Seq<SpecResourceRecord>, int),
                        _,
                    >(e),
                }
            }),
        decreases n - k,
    {
        let ghost accv = out@.map_values(|x: MDNSResourceRecord| x@);
        let rr = match MDNSResourceRecord::unpack(r) {
            Ok(rr) => rr,
            Err(e) => {
                return Err(e);
            },
        };
        let ghost rv = rr@;
        let ghost oq = out@;
        out.push(rr);
        proof {
            assert(out@ == oq.push(out@[k as int]));
            assert(out@[k as int]@ == rv);
            assert(out@.map_values(|x: MDNSResourceRecord| x@) =~= accv + seq![rv]) by {
                assert(oq.map_values(|x: MDNSResourceRecord| x@).len() == oq.len());
                assert forall|j: int| 0 <= j < k + 1 implies out@.map_values(
                    |x: MDNSResourceRecord| x@,
                )[j] == #[trigger] ((accv + seq![rv])[j]) by {
                    if j < k {
                        assert(out@[j] == oq[j]);
                        assert(oq.map_values(|x: MDNSResourceRecord| x@)[j] == accv[j]);
                    }
                }
            }
            let cur2 = r.pos as int / 8;
            match spec_parse_rrs(d, cur2, n - k - 1) {
                Ok((rest, end)) => {
                    assert((accv + seq![rv]) + rest =~= accv + (seq![rv] + rest));
                },
                Err(e) => {},
            }
        }
        k = k + 1;
    }
    proof {
        assert(spec_parse_rrs(d, r.pos as int / 8, 0) == Ok::<_, DecodeError>((
            Seq::<SpecResourceRecord>::empty(),
            r.pos as int / 8,
        )));
        assert(out@.map_values(|x: MDNSResourceRecord| x@) + Seq::<SpecResourceRecord>::empty()
            =~= out@.map_values(|x: MDNSResourceRecord| x@));
    }
    Ok(out)
}

/// Resolve every query of a section in order.
fn resolve_queries(
    qs: &mut Vec<MDNSQuery>,
    data: &Vec<u8>,
    cache: &mut ResolveCache,
) -> (res: Result<(), DecodeError>)
    requires
        data@.len() < 0x1000_0000,
        old(cache).wf(data@),
    ensures
        final(cache).wf(data@),
        match res {
            Ok(u) => spec_resolve_queries(data@, old(qs)@.map_values(|q: MDNSQuery| q@)) == Ok::<
                _,
                DecodeError,
            >(final(qs)@.map_values(|q: MDNSQuery| q@)),
            Err(e) => spec_resolve_queries(data@, old(qs)@.map_values(|q: MDNSQuery| q@)) == Err::<
                Seq<(Seq<SpecLabel>, MDNSTYPE, u16)>,
                _,
            >(e),
        },
{
    let ghost orig = old(qs)@.map_values(|q: MDNSQuery| q@);
    let n = qs.len();
    let mut i: usize = 0;
    proof {
        assert(orig.subrange(0, 0) =~= Seq::<(Seq<SpecLabel>, MDNSTYPE, u16)>::empty());
        assert(qs@.map_values(|q: MDNSQuery| q@).subrange(0, 0) =~= Seq::<
            (Seq<SpecLabel>, MDNSTYPE, u16),
        >::empty());
    }
    while i < n
        invariant
            i <= n,
            n == qs@.len(),
            qs@.len() == old(qs)@.len(),
            data@.len() < 0x1000_0000,
            cache.wf(data@),
            orig == old(qs)@.map_values(|q: MDNSQuery| q@),
            forall|j: int| i <= j < n ==> qs@[j] == old(qs)@[j],
            spec_resolve_queries(data@, orig.subrange(0, i as int)) == Ok::<_, DecodeError>(
                qs@.map_values(|q: MDNSQuery| q@).subrange(0, i as int),
            ),
        decreases n - i,
    {
        let ghost prefix = orig.subrange(0, i as int);
        let ghost prefix2 = orig.subrange(0, i + 1);
        let ghost before = qs@;
        proof {
            assert(prefix2.drop_last() =~= prefix);
            assert(prefix2.last() == orig[i as int]);
            assert(qs@[i as int] == old(qs)@[i as int]);
            assert(orig[i as int] == old(qs)@[i as int]@);
        }
        let q = &mut qs[i];
        proof {
        }
        let r = q.resolve(data, cache);
        match r {
            Ok(()) => {},
            Err(e) => {
                proof {
                    assert(spec_resolve_queries(data@, prefix2) == Err::<
                        Seq<(Seq<SpecLabel>, MDNSTYPE, u16)>,
                        _,
                    >(e));
                    lemma_resolve_queries_prefix_error(data@, orig, i + 1, e);
                }
                return Err(e);
            },
        }
        proof {
            let cur = qs@.map_values(|q2: MDNSQuery| q2@);
            let prev = before.map_values(|q2: MDNSQuery| q2@);
            assert(qs@ == before.update(i as int, qs@[i as int]));
            assert forall|j: int| 0 <= j < i + 1 implies cur.subrange(0, i + 1)[j] == #[trigger] (
            spec_resolve_queries(data@, prefix2)->Ok_0[j]) by {
                if j < i {
                    assert(qs@[j] == before[j]);
                    assert(prev.subrange(0, i as int)[j] == prev[j]);
                    assert(spec_resolve_queries(data@, prefix)->Ok_0[j] == prev.subrange(
                        0,
                        i as int,
                    )[j]);
                } else {
                    assert(cur[j] == qs@[i as int]@);
                }
            }
            assert(cur.subrange(0, i + 1) =~= spec_resolve_queries(data@, prefix2)->Ok_0);
            assert(forall|j: int| i + 1 <= j < n ==> qs@[j] == before[j]);
        }
        i = i + 1;
    }
    proof {
        assert(orig.subrange(0, n as int) =~= orig);
        assert(qs@.map_values(|q: MDNSQuery| q@).subrange(0, n as int) =~= qs@.map_values(
            |q: MDNSQuery| q@,
        ));
    }
    Ok(())
}

/// If resolving a prefix of a query run fails, the whole run fails with
/// that error.
proof fn lemma_resolve_queries_prefix_error(
    data: Seq<u8>,
    qs: Seq<(Seq<SpecLabel>, MDNSTYPE, u16)>,
    i: int,
    e: DecodeError,
)
    requires
        0 <= i <= qs.len(),
        spec_resolve_queries(data, qs.subrange(0, i)) == Err::<
            Seq<(Seq<SpecLabel>, MDNSTYPE, u16)>,
            DecodeError,
        >(e),
    ensures
        spec_resolve_queries(data, qs) == Err::<Seq<(Seq<SpecLabel>, MDNSTYPE, u16)>, DecodeError>(
            e,
        ),
    decreases qs.len() - i,
{
    if i == qs.len() {
        assert(qs.subrange(0, i) =~= qs);
    } else {
        let next = qs.subrange(0, i + 1);
        assert(next.drop_last() =~= qs.subrange(0, i));
        lemma_resolve_queries_prefix_error(data, qs, i + 1, e);
    }
}

/// Resolve every record of a section in order.
fn resolve_rrs(
    rs: &mut Vec<MDNSResourceRecord>,
    data: &Vec<u8>,
    cache: &mut ResolveCache,
) -> (res: Result<(), DecodeError>)
    requires
        data@.len() < 0x1000_0000,
        old(cache).wf(data@),
    ensures
        final(cache).wf(data@),
        match res {
            Ok(u) => spec_resolve_rrs(data@, old(rs)@.map_values(|x: MDNSResourceRecord| x@))
                == Ok::<_, DecodeError>(final(rs)@.map_values(|x: MDNSResourceRecord| x@)),
            Err(e) => spec_resolve_rrs(data@, old(rs)@.map_values(|x: MDNSResourceRecord| x@))
                == Err::<Seq<SpecResourceRecord>, _>(e),
        },
{
    let ghost orig = old(rs)@.map_values(|x: MDNSResourceRecord| x@);
    let n = rs.len();
    let mut i: usize = 0;
    proof {
        assert(orig.subrange(0, 0) =~= Seq::<SpecResourceRecord>::empty());
        assert(rs@.map_values(|x: MDNSResourceRecord| x@).subrange(0, 0) =~= Seq::<
            SpecResourceRecord,
        >::empty());
    }
    while i < n
        invariant
            i <= n,
            n == rs@.len(),
            rs@.len() == old(rs)@.len(),
            data@.len() < 0x1000_0000,
            cache.wf(data@),
            orig == old(rs)@.map_values(|x: MDNSResourceRecord| x@),
            forall|j: int| i <= j < n ==> rs@[j] == old(rs)@[j],
            spec_resolve_rrs(data@, orig.subrange(0, i as int)) == Ok::<_, DecodeError>(
                rs@.map_values(|x: MDNSResourceRecord| x@).subrange(0, i as int),
            ),
        decreases n - i,
    {
        let ghost prefix = orig.subrange(0, i as int);
        let ghost prefix2 = orig.subrange(0, i + 1);
        let ghost before = rs@;
        proof {
            assert(prefix2.drop_last() =~= prefix);
            assert(prefix2.last() == orig[i as int]);
            assert(rs@[i as int] == old(rs)@[i as int]);
            assert(orig[i as int] == old(rs)@[i as int]@);
        }
        let rr = &mut rs[i];
        let r = rr.resolve(data, cache);
        match r {
            Ok(()) => {},
            Err(e) => {
                proof {
                    assert(spec_resolve_rrs(data@, prefix2) == Err::<Seq<SpecResourceRecord>, _>(
                        e,
                    ));
                    lemma_resolve_rrs_prefix_error(data@, orig, i + 1, e);
                }
                return Err(e);
            },
        }
        proof {
            let cur = rs@.map_values(|x: MDNSResourceRecord| x@);
            let prev = before.map_values(|x: MDNSResourceRecord| x@);
            assert(rs@ == before.update(i as int, rs@[i as int]));
            assert forall|j: int| 0 <= j < i + 1 implies cur.subrange(0, i + 1)[j] == #[trigger] (
            spec_resolve_rrs(data@, prefix2)->Ok_0[j]) by {
                if j < i {
                    assert(rs@[j] == before[j]);
                    assert(prev.subrange(0, i as int)[j] == prev[j]);
                    assert(spec_resolve_rrs(data@, prefix)->Ok_0[j] == prev.subrange(
                        0,
                        i as int,
                    )[j]);
                } else {
                    assert(cur[j] == rs@[i as int]@);
                }
            }
            assert(cur.subrange(0, i + 1) =~= spec_resolve_rrs(data@, prefix2)->Ok_0);
            assert(forall|j: int| i + 1 <= j < n ==> rs@[j] == before[j]);
        }
        i = i + 1;
    }
    proof {
        assert(orig.subrange(0, n as int) =~= orig);
        assert(rs@.map_values(|x: MDNSResourceRecord| x@).subrange(0, n as int) =~= rs@.map_values(
            |x: MDNSResourceRecord| x@,
        ));
    }
    Ok(())
}

/// If resolving a prefix of a record run fails, the whole run fails with
/// that error.
proof fn lemma_resolve_rrs_prefix_error(
    data: Seq<u8>,
    rs: Seq<SpecResourceRecord>,
    i: int,
    e: DecodeError,
)
    requires
        0 <= i <= rs.len(),
        spec_resolve_rrs(data, rs.subrange(0, i)) == Err::<Seq<SpecResourceRecord>, DecodeError>(
            e,
        ),
    ensures
        spec_resolve_rrs(data, rs) == Err::<Seq<SpecResourceRecord>, DecodeError>(e),
    decreases rs.len() - i,
{
    if i == rs.len() {
        assert(rs.subrange(0, i) =~= rs);
    } else {
        let next = rs.subrange(0, i + 1);
        assert(next.drop_last() =~= rs.subrange(0, i));
        lemma_resolve_rrs_prefix_error(data, rs, i + 1, e);
    }
}

impl MDNSResponse {
    /// Assemble a response from its parsed pieces: run the resolution pass
    /// over every section, sharing one cache for the whole message.
    pub fn new(
        data: &Vec<u8>,
        header: MDNSHeader,
        queries: Vec<MDNSQuery>,
        answers: Vec<MDNSResourceRecord>,
        authorities: Vec<MDNSResourceRecord>,
        additional: Vec<MDNSResourceRecord>,
    ) -> (res: Result<MDNSResponse, DecodeError>)
        requires
            data@.len() < 0x1000_0000,
        ensures
            ({
                let qv = queries@.map_values(|q: MDNSQuery| q@);
                let av = answers@.map_values(|x: MDNSResourceRecord| x@);
                let uv = authorities@.map_values(|x: MDNSResourceRecord| x@);
                let dv = additional@.map_values(|x: MDNSResourceRecord| x@);
                match res {
                    Ok(resp) => {
                        &&& resp.header == header
                        &&& spec_resolve_queries(data@, qv) == Ok::<_, DecodeError>(
                            resp@.queries,
                        )
                        &&& spec_resolve_rrs(data@, av) == Ok::<_, DecodeError>(resp@.answers)
                        &&& spec_resolve_rrs(data@, uv) == Ok::<_, DecodeError>(
                            resp@.authorities,
                        )
                        &&& spec_resolve_rrs(data@, dv) == Ok::<_, DecodeError>(resp@.additional)
                        &&& resp@.queries.len() == queries@.len()
                        &&& resp@.answers.len() == answers@.len()
                        &&& resp@.authorities.len() == authorities@.len()
                        &&& resp@.additional.len() == additional@.len()
                    },
                    Err(e) => {
                        match spec_resolve_queries(data@, qv) {
                            Err(e1) => e == e1,
                            Ok(_) => match spec_resolve_rrs(data@, av) {
                                Err(e2) => e == e2,
                                Ok(_) => match spec_resolve_rrs(data@, uv) {
                                    Err(e3) => e == e3,
                                    Ok(_) => spec_resolve_rrs(data@, dv) == Err::<
                                        Seq<SpecResourceRecord>,
                                        _,
                                    >(e),
                                },
                            },
                        }
                    },
                }
            }),
    {
        let ghost qv0 = queries@.map_values(|q: MDNSQuery| q@);
        let ghost av0 = answers@.map_values(|x: MDNSResourceRecord| x@);
        let ghost uv0 = authorities@.map_values(|x: MDNSResourceRecord| x@);
        let ghost dv0 = additional@.map_values(|x: MDNSResourceRecord| x@);
        let mut queries = queries;
        let mut answers = answers;
        let mut authorities = authorities;
        let mut additional = additional;
        let mut cache = ResolveCache::new();
        match resolve_queries(&mut queries, data, &mut cache) {
            Ok(()) => {},
            Err(e) => {
                return Err(e);
            },
        }
        match resolve_rrs(&mut answers, data, &mut cache) {
            Ok(()) => {},
            Err(e) => {
                return Err(e);
            },
        }
        match resolve_rrs(&mut authorities, data, &mut cache) {
            Ok(()) => {},
            Err(e) => {
                return Err(e);
            },
        }
        match resolve_rrs(&mut additional, data, &mut cache) {
            Ok(()) => {},
            Err(e) => {
                return Err(e);
            },
        }
        proof {
            lemma_resolve_queries_len(data@, qv0);
            lemma_resolve_rrs_len(data@, av0);
            lemma_resolve_rrs_len(data@, uv0);
            lemma_resolve_rrs_len(data@, dv0);
        }
        Ok(MDNSResponse { header, queries, answers, authorities, additional })
    }

    /// Decode a whole response: header, the four count-driven sections,
    /// then the resolution pass.  A response whose header announces `N`
    /// records of a section always yields exactly `N` records of it, or an
    /// error — never a different count.
    pub fn unpack(data: &Vec<u8>) -> (res: Result<MDNSResponse, DecodeError>)
        requires
            data@.len() < 0x1000_0000,
        ensures
            match res {
                Ok(resp) => {
                    &&& spec_decode_response(data@) == Ok::<_, DecodeError>(resp@)
                    &&& resp@.queries.len() == resp.header.questions
                    &&& resp@.answers.len() == resp.header.answer_rrs
                    &&& resp@.authorities.len() == resp.header.authority_rrs
                    &&& resp@.additional.len() == resp.header.additional_rrs
                },
                Err(e) => spec_decode_response(data@) == Err::<SpecResponse, _>(e),
            },
    {
        let mut r = BitReader::new(data);
        let header = match MDNSHeader::unpack(&mut r) {
            Ok(h) => h,
            Err(e) => {
                return Err(e);
            },
        };
        let queries = match unpack_queries(&mut r, header.questions as usize) {
            Ok(v) => v,
            Err(e) => {
                return Err(e);
            },
        };
        let answers = match unpack_rrs(&mut r, header.answer_rrs as usize) {
            Ok(v) => v,
            Err(e) => {
                return Err(e);
            },
        };
        let authorities = match unpack_rrs(&mut r, header.authority_rrs as usize) {
            Ok(v) => v,
            Err(e) => {
                return Err(e);
            },
        };
        let additional = match unpack_rrs(&mut r, header.additional_rrs as usize) {
            Ok(v) => v,
            Err(e) => {
                return Err(e);
            },
        };
        MDNSResponse::new(data, header, queries, answers, authorities, additional)
    }
}

/// The wire bytes of a run of resource records.
pub open spec fn spec_pack_rrs(rs: Seq<SpecResourceRecord>) -> Seq<u8>
    decreases rs.len(),
{
    if rs.len() == 0 {
        Seq::empty()
    } else {
        crate::resource_record::spec_pack_rr(rs[0]) + spec_pack_rrs(rs.skip(1))
    }
}

/// Parsing the encodings of a run of round-trippable records gives the run
/// back.
pub proof fn lemma_rrs_round_trip(data: Seq<u8>, pos: int, rs: Seq<SpecResourceRecord>)
    requires
        forall|i: int|
            0 <= i < rs.len() ==> crate::resource_record::rr_round_trippable(#[trigger] rs[i]),
        0 <= pos,
        pos + spec_pack_rrs(rs).len() <= data.len(),
        data.subrange(pos, pos + spec_pack_rrs(rs).len() as int) == spec_pack_rrs(rs),
    ensures
        spec_parse_rrs(data, pos, rs.len() as int) == Ok::<_, DecodeError>(
            (rs, pos + spec_pack_rrs(rs).len()),
        ),
    decreases rs.len(),
{
    if rs.len() == 0 {
        assert(rs =~= Seq::<SpecResourceRecord>::empty());
    } else {
        let r0 = rs[0];
        let rest = rs.skip(1);
        let enc = spec_pack_rrs(rs);
        let e0 = crate::resource_record::spec_pack_rr(r0);
        let l0 = e0.len() as int;
        assert(enc == e0 + spec_pack_rrs(rest));
        assert forall|j: int| 0 <= j < enc.len() implies data[pos + j] == enc[j] by {
            assert(data.subrange(pos, pos + enc.len() as int)[j] == data[pos + j]);
        }
        assert(data.subrange(pos, pos + l0) =~= e0) by {
            assert forall|j: int| 0 <= j < l0 implies data.subrange(pos, pos + l0)[j] == e0[j] by {
                assert(data[pos + j] == enc[j]);
            }
        }
        crate::resource_record::lemma_rr_round_trip(data, pos, r0);
        let p2 = pos + l0;
        let rl = spec_pack_rrs(rest).len() as int;
        assert(data.subrange(p2, p2 + rl) =~= spec_pack_rrs(rest)) by {
            assert forall|j: int| 0 <= j < rl implies data.subrange(p2, p2 + rl)[j]
                == spec_pack_rrs(rest)[j] by {
                assert(data[p2 + j] == enc[l0 + j]);
            }
        }
        assert(forall|i: int| 0 <= i < rest.len() ==> rest[i] == #[trigger] rs[i + 1]);
        lemma_rrs_round_trip(data, p2, rest);
        assert(seq![r0] + rest =~= rs);
    }
}

/// A whole response's wire bytes: the header, then each section in order.
pub open spec fn spec_pack_response(m: SpecResponse) -> Seq<u8> {
    crate::header::spec_pack_header(m.header) + crate::packet::spec_pack_queries(m.queries)
        + spec_pack_rrs(m.answers) + spec_pack_rrs(m.authorities) + spec_pack_rrs(m.additional)
}

/// A response in the form whose encoding decodes back to itself: the
/// section counts match the header, every name is uncompressed text, and
/// every record is round-trippable.
pub open spec fn response_round_trippable(m: SpecResponse) -> bool {
    &&& m.header.questions == m.queries.len()
    &&& m.header.answer_rrs == m.answers.len()
    &&& m.header.authority_rrs == m.authorities.len()
    &&& m.header.additional_rrs == m.additional.len()
    &&& forall|i: int|
        0 <= i < m.queries.len() ==> crate::fqdn::name_uncompressed((#[trigger] m.queries[i]).0)
    &&& forall|i: int|
        0 <= i < m.answers.len() ==> crate::resource_record::rr_round_trippable(
            #[trigger] m.answers[i],
        )
    &&& forall|i: int|
        0 <= i < m.authorities.len() ==> crate::resource_record::rr_round_trippable(
            #[trigger] m.authorities[i],
        )
    &&& forall|i: int|
        0 <= i < m.additional.len() ==> crate::resource_record::rr_round_trippable(
            #[trigger] m.additional[i],
        )
}

/// Resolved texts of a fully literal name are that name.
proof fn lemma_literal_labels_identity(ls: Seq<SpecLabel>)
    requires
        forall|i: int| 0 <= i < ls.len() ==> (#[trigger] ls[i]) matches SpecLabel::Literal(_),
    ensures
        labels_of_texts(crate::resolve::spec_literal_texts(ls)) == ls,
{
    assert(labels_of_texts(crate::resolve::spec_literal_texts(ls)) =~= ls);
}

/// Resolution leaves a run of queries with uncompressed names unchanged.
proof fn lemma_resolve_queries_identity(data: Seq<u8>, qs: Seq<(Seq<SpecLabel>, MDNSTYPE, u16)>)
    requires
        forall|i: int| 0 <= i < qs.len() ==> crate::fqdn::name_uncompressed((#[trigger] qs[i]).0),
    ensures
        spec_resolve_queries(data, qs) == Ok::<_, DecodeError>(qs),
    decreases qs.len(),
{
    if qs.len() == 0 {
        assert(qs =~= Seq::<(Seq<SpecLabel>, MDNSTYPE, u16)>::empty());
    } else {
        assert(forall|i: int| 0 <= i < qs.len() - 1 ==> qs.drop_last()[i] == #[trigger] qs[i]);
        lemma_resolve_queries_identity(data, qs.drop_last());
        let ls = qs.last().0;
        assert(crate::fqdn::name_uncompressed(ls));
        assert forall|i: int| 0 <= i < ls.len() implies (#[trigger] ls[i])
            matches SpecLabel::Literal(_) by {
            match ls[i] {
                SpecLabel::Literal(_) => {},
                SpecLabel::Pointer(_) => {
                    assert(false);
                },
            }
        }
        crate::resolve::lemma_resolve_literal_name(data, ls);
        lemma_literal_labels_identity(ls);
        let ts = crate::resolve::spec_literal_texts(ls);
        assert(spec_resolve_name(data, ls) == Ok::<_, DecodeError>(ts));
        assert(spec_resolve_queries(data, qs.drop_last()) == Ok::<_, DecodeError>(qs.drop_last()));
        assert(spec_resolve_queries(data, qs) == Ok::<_, DecodeError>(
            qs.drop_last().push((labels_of_texts(ts), qs.last().1, qs.last().2)),
        ));
        assert((labels_of_texts(ts), qs.last().1, qs.last().2) == qs.last());
        assert(qs.drop_last().push(qs.last()) =~= qs);
    }
}

/// Resolution leaves a run of round-trippable records unchanged.
proof fn lemma_resolve_rrs_identity(data: Seq<u8>, rs: Seq<SpecResourceRecord>)
    requires
        forall|i: int|
            0 <= i < rs.len() ==> crate::resource_record::rr_round_trippable(#[trigger] rs[i]),
    ensures
        spec_resolve_rrs(data, rs) == Ok::<_, DecodeError>(rs),
    decreases rs.len(),
{
    if rs.len() == 0 {
        assert(rs =~= Seq::<SpecResourceRecord>::empty());
    } else {
        assert(forall|i: int| 0 <= i < rs.len() - 1 ==> rs.drop_last()[i] == #[trigger] rs[i]);
        lemma_resolve_rrs_identity(data, rs.drop_last());
        let last = rs.last();
        assert(crate::resource_record::rr_round_trippable(last));
        let ls = last.rr_name;
        assert forall|i: int| 0 <= i < ls.len() implies (#[trigger] ls[i])
            matches SpecLabel::Literal(_) by {
            match ls[i] {
                SpecLabel::Literal(_) => {},
                SpecLabel::Pointer(_) => {
                    assert(false);
                },
            }
        }
        crate::resolve::lemma_resolve_literal_name(data, ls);
        lemma_literal_labels_identity(ls);
        let ts = crate::resolve::spec_literal_texts(ls);
        assert(spec_resolve_name(data, ls) == Ok::<_, DecodeError>(ts));
        assert(spec_resolve_rr(data, last) == Ok::<_, DecodeError>(
            SpecResourceRecord { rr_name: labels_of_texts(ts), r_data_pointer: None, ..last },
        ));
        assert((SpecResourceRecord { rr_name: labels_of_texts(ts), r_data_pointer: None, ..last })
            == last);
        assert(spec_resolve_rrs(data, rs.drop_last()) == Ok::<_, DecodeError>(rs.drop_last()));
        assert(spec_resolve_rrs(data, rs) == Ok::<_, DecodeError>(rs.drop_last().push(last)));
        assert(rs.drop_last().push(last) =~= rs);
    }
}

/// Law: a response whose counts match its sections and whose names and
/// records are all in uncompressed form decodes from its own encoding back
/// to itself — the resolution pass included.
#[verifier::rlimit(50)]
pub proof fn lemma_response_round_trip(m: SpecResponse)
    requires
        response_round_trippable(m),
    ensures
        spec_decode_response(spec_pack_response(m)) == Ok::<_, DecodeError>(m),
{
    let data = spec_pack_response(m);
    let he = crate::header::spec_pack_header(m.header);
    let qe = crate::packet::spec_pack_queries(m.queries);
    let ae = spec_pack_rrs(m.answers);
    let ue = spec_pack_rrs(m.authorities);
    let de = spec_pack_rrs(m.additional);
    assert(he.len() == 12);
    let p1: int = 12;
    let p2 = p1 + qe.len() as int;
    let p3 = p2 + ae.len() as int;
    let p4 = p3 + ue.len() as int;
    let p5 = p4 + de.len() as int;
    assert(data.len() == p5);
    assert(data.subrange(0, 12) =~= he);
    crate::header::lemma_header_round_trip(data, 0, m.header);
    assert(data.subrange(p1, p2) =~= qe) by {
        assert forall|j: int| 0 <= j < qe.len() implies data.subrange(p1, p2)[j] == qe[j] by {
            assert(data[p1 + j] == ((he + qe) + ae + ue + de)[p1 + j]);
        }
    }
    crate::packet::lemma_queries_round_trip(data, p1, m.queries);
    assert(data.subrange(p2, p3) =~= ae) by {
        assert forall|j: int| 0 <= j < ae.len() implies data.subrange(p2, p3)[j] == ae[j] by {
            assert(data[p2 + j] == (((he + qe) + ae) + ue + de)[p2 + j]);
        }
    }
    lemma_rrs_round_trip(data, p2, m.answers);
    assert(data.subrange(p3, p4) =~= ue) by {
        assert forall|j: int| 0 <= j < ue.len() implies data.subrange(p3, p4)[j] == ue[j] by {
            assert(data[p3 + j] == ((((he + qe) + ae) + ue) + de)[p3 + j]);
        }
    }
    lemma_rrs_round_trip(data, p3, m.authorities);
    assert(data.subrange(p4, p5) =~= de) by {
        assert forall|j: int| 0 <= j < de.len() implies data.subrange(p4, p5)[j] == de[j] by {
            assert(data[p4 + j] == ((((he + qe) + ae) + ue) + de)[p4 + j]);
        }
    }
    lemma_rrs_round_trip(data, p4, m.additional);
    lemma_resolve_queries_identity(data, m.queries);
    lemma_resolve_rrs_identity(data, m.answers);
    lemma_resolve_rrs_identity(data, m.authorities);
    lemma_resolve_rrs_identity(data, m.additional);
}

/// The record at index `i` is the first of its type in the chained
/// sections.
pub open spec fn first_match_at(all: Seq<SpecResourceRecord>, ty: MDNSTYPE, i: int) -> bool {
    &&& 0 <= i < all.len()
    &&& all[i].rr_type == ty
    &&& forall|j: int| 0 <= j < i ==> (#[trigger] all[j]).rr_type != ty
}

/// Copy a byte vector.
fn copy_bytes(v: &Vec<u8>) -> (r: Vec<u8>)
    ensures
        r@ == v@,
{
    let mut r: Vec<u8> = Vec::new();
    let mut i: usize = 0;
    while i < v.len()
        invariant
            i <= v@.len(),
            r@ =~= v@.subrange(0, i as int),
        decreases v@.len() - i,
    {
        r.push(v[i]);
        proof {
            assert(r@ =~= v@.subrange(0, i + 1));
        }
        i = i + 1;
    }
    proof {
        assert(v@.subrange(0, v@.len() as int) =~= v@);
    }
    r
}

/// Copy a resource record.
fn copy_rr(rr: &MDNSResourceRecord) -> (r: MDNSResourceRecord)
    ensures
        r@ == rr@,
{
    let rr_name = MDNSFQDN { labels: rr.rr_name.get_labels() };
    let r_data = copy_bytes(&rr.r_data);
    let r_data_pointer = match &rr.r_data_pointer {
        None => None,
        Some(Label::Pointer(p)) => Some(Label::Pointer(*p)),
        Some(Label::Literal(v)) => Some(Label::Literal(copy_bytes(v))),
    };
    let r = MDNSResourceRecord {
        rr_name,
        rr_type: rr.rr_type,
        cache_flush_rr_class: rr.cache_flush_rr_class,
        ttl: rr.ttl,
        rd_length: rr.rd_length,
        r_data,
        r_data_pointer,
    };
    proof {
        assert(r@.rr_name == rr@.rr_name);
        assert(r@.r_data_pointer == rr@.r_data_pointer);
    }
    r
}

impl MDNSResponse {
    /// The first record of the given type, searching the answers, then the
    /// authorities, then the additional records — or nothing, when no
    /// record of that type exists anywhere in the message.
    pub fn get_resource_record_of_type(&self, ty: MDNSTYPE) -> (res: Option<MDNSResourceRecord>)
        ensures
            ({
                let all = spec_all_records(self@);
                match res {
                    Some(rec) => exists|i: int| #[trigger] first_match_at(all, ty, i) && rec@
                        == all[i],
                    None => forall|i: int|
                        0 <= i < all.len() ==> (#[trigger] all[i]).rr_type != ty,
                }
            }),
    {
        let ghost all = spec_all_records(self@);
        let na = self.answers.len();
        let nu = self.authorities.len();
        let nd = self.additional.len();
        proof {
            assert(all.len() == na + nu + nd);
            assert(forall|j: int| 0 <= j < na ==> all[j] == self.answers@[j]@);
            assert(forall|j: int| 0 <= j < nu ==> all[na + j] == self.authorities@[j]@);
            assert(forall|j: int| 0 <= j < nd ==> all[na + nu + j] == self.additional@[j]@);
        }
        let mut i: usize = 0;
        while i < na
            invariant
                i <= na,
                na == self.answers@.len(),
                all == spec_all_records(self@),
                forall|j: int| 0 <= j < na ==> all[j] == self.answers@[j]@,
                forall|j: int| 0 <= j < i ==> (#[trigger] all[j]).rr_type != ty,
            decreases na - i,
        {
            if self.answers[i].rr_type.code() == ty.code() {
                proof {
                    crate::rtype::lemma_type_code_round_trip(self.answers@[i as int].rr_type);
                    crate::rtype::lemma_type_code_round_trip(ty);
                    assert(first_match_at(all, ty, i as int));
                }
                return Some(copy_rr(&self.answers[i]));
            }
            proof {
                crate::rtype::lemma_type_code_round_trip(self.answers@[i as int].rr_type);
                crate::rtype::lemma_type_code_round_trip(ty);
            }
            i = i + 1;
        }
        let mut i: usize = 0;
        while i < nu
            invariant
                i <= nu,
                na == self.answers@.len(),
                nu == self.authorities@.len(),
                all == spec_all_records(self@),
                forall|j: int| 0 <= j < nu ==> all[na + j] == self.authorities@[j]@,
                forall|j: int| 0 <= j < na + i ==> (#[trigger] all[j]).rr_type != ty,
            decreases nu - i,
        {
            if self.authorities[i].rr_type.code() == ty.code() {
                proof {
                    crate::rtype::lemma_type_code_round_trip(self.authorities@[i as int].rr_type);
                    crate::rtype::lemma_type_code_round_trip(ty);
                    assert(first_match_at(all, ty, na + i));
                }
                return Some(copy_rr(&self.authorities[i]));
            }
            proof {
                crate::rtype::lemma_type_code_round_trip(self.authorities@[i as int].rr_type);
                crate::rtype::lemma_type_code_round_trip(ty);
                assert(all[na + i].rr_type != ty);
            }
            i = i + 1;
        }
        let mut i: usize = 0;
        while i < nd
            invariant
                i <= nd,
                na == self.answers@.len(),
                nu == self.authorities@.len(),
                nd == self.additional@.len(),
                all == spec_all_records(self@),
                forall|j: int| 0 <= j < nd ==> all[na + nu + j] == self.additional@[j]@,
                forall|j: int| 0 <= j < na + nu + i ==> (#[trigger] all[j]).rr_type != ty,
            decreases nd - i,
        {
            if self.additional[i].rr_type.code() == ty.code() {
                proof {
                    crate::rtype::lemma_type_code_round_trip(self.additional@[i as int].rr_type);
                    crate::rtype::lemma_type_code_round_trip(ty);
                    assert(first_match_at(all, ty, na + nu + i));
                }
                return Some(copy_rr(&self.additional[i]));
            }
            proof {
                crate::rtype::lemma_type_code_round_trip(self.additional@[i as int].rr_type);
                crate::rtype::lemma_type_code_round_trip(ty);
                assert(all[na + nu + i].rr_type != ty);
            }
            i = i + 1;
        }
        None
    }

    /// All resource records of the message, in section order: answers,
    /// authorities, additional.
    pub fn get_resource_records(&self) -> (res: Vec<MDNSResourceRecord>)
        ensures
            res@.map_values(|x: MDNSResourceRecord| x@) == spec_all_records(self@),
    {
        let ghost all = spec_all_records(self@);
        let na = self.answers.len();
        let nu = self.authorities.len();
        let nd = self.additional.len();
        proof {
            assert(all.len() == na + nu + nd);
            assert(forall|j: int| 0 <= j < na ==> all[j] == self.answers@[j]@);
            assert(forall|j: int| 0 <= j < nu ==> all[na + j] == self.authorities@[j]@);
            assert(forall|j: int| 0 <= j < nd ==> all[na + nu + j] == self.additional@[j]@);
        }
        let mut out: Vec<MDNSResourceRecord> = Vec::new();
        let mut i: usize = 0;
        while i < na
            invariant
                i <= na,
                na == self.answers@.len(),
                all == spec_all_records(self@),
                forall|j: int| 0 <= j < na ==> all[j] == self.answers@[j]@,
                out@.len() == i,
                forall|j: int|
                    0 <= j < i ==> (#[trigger] out@[j])@ == all[j],
            decreases na - i,
        {
            let c = copy_rr(&self.answers[i]);
            out.push(c);
            i = i + 1;
        }
        let mut i: usize = 0;
        while i < nu
            invariant
                i <= nu,
                na == self.answers@.len(),
                nu == self.authorities@.len(),
                all == spec_all_records(self@),
                forall|j: int| 0 <= j < nu ==> all[na + j] == self.authorities@[j]@,
                out@.len() == na + i,
                forall|j: int|
                    0 <= j < na + i ==> (#[trigger] out@[j])@ == all[j],
            decreases nu - i,
        {
            let c = copy_rr(&self.authorities[i]);
            out.push(c);
            i = i + 1;
        }
        let mut i: usize = 0;
        while i < nd
            invariant
                i <= nd,
                na == self.answers@.len(),
                nu == self.authorities@.len(),
                nd == self.additional@.len(),
                all == spec_all_records(self@),
                forall|j: int| 0 <= j < nd ==> all[na + nu + j] == self.additional@[j]@,
                out@.len() == na + nu + i,
                forall|j: int|
                    0 <= j < na + nu + i ==> (#[trigger] out@[j])@ == all[j],
            decreases nd - i,
        {
            let c = copy_rr(&self.additional[i]);
            out.push(c);
            i = i + 1;
        }
        proof {
            assert(out@.map_values(|x: MDNSResourceRecord| x@) =~= all);
        }
        out
    }
}

/// Resolving a query run keeps its length.
proof fn lemma_resolve_queries_len(data: Seq<u8>, qs: Seq<(Seq<SpecLabel>, MDNSTYPE, u16)>)
    ensures
        spec_resolve_queries(data, qs) matches Ok(rqs) ==> rqs.len() == qs.len(),
    decreases qs.len(),
{
    if qs.len() > 0 {
        lemma_resolve_queries_len(data, qs.drop_last());
    }
}

/// Resolving a record run keeps its length.
proof fn lemma_resolve_rrs_len(data: Seq<u8>, rs: Seq<SpecResourceRecord>)
    ensures
        spec_resolve_rrs(data, rs) matches Ok(rrs) ==> rrs.len() == rs.len(),
    decreases rs.len(),
{
    if rs.len() > 0 {
        lemma_resolve_rrs_len(data, rs.drop_last());
    }
}

} // verus!
