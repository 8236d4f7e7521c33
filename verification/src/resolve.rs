//! Pointer resolution over a whole message buffer.
//!
//! After a message is parsed, every name that ends in a compression pointer
//! is resolved against the original buffer: the decoder re-enters at the
//! pointer's byte offset, reads the name there, and splices its labels in
//! place of the pointer.  A pointer may only reference a strictly earlier
//! offset than the name it is resolved for; anything else — including a
//! pointer chain that revisits or advances — is rejected as
//! [`DecodeError::InvalidPointer`].  That strict descent is also the
//! termination argument, checked by the verifier.  A cache shared across
//! one message memoizes the text resolved at each offset.

use crate::cursor::BitReader;
use crate::error::DecodeError;
use crate::fqdn::{
    ends_in_pointer, spec_parse_name, Label, MDNSFQDN, SpecLabel,
};
use std::collections::HashMap;
use vstd::prelude::*;

verus! {

broadcast use vstd::std_specs::hash::group_hash_axioms;

/// The text bytes a label contributes once resolved: a literal's own bytes.
/// (A pointer contributes the labels at its target instead; this function
/// is only applied to literal labels.)
pub open spec fn spec_label_bytes(l: SpecLabel) -> Seq<u8> {
    match l {
        SpecLabel::Literal(b) => b,
        SpecLabel::Pointer(_) => Seq::empty(),
    }
}

/// The literal texts of a label run.
pub open spec fn spec_literal_texts(ls: Seq<SpecLabel>) -> Seq<Seq<u8>> {
    ls.map_values(|l: SpecLabel| spec_label_bytes(l))
}

/// The mathematical view of a vector of texts.
pub open spec fn texts_of(v: Vec<Vec<u8>>) -> Seq<Seq<u8>> {
    v@.map_values(|x: Vec<u8>| x@)
}

/// The resolution of the name that starts at byte offset `o` of the
/// buffer: parse the name there; if it ends in a pointer, that pointer must
/// reference a strictly earlier offset, whose own resolution is spliced on.
/// The strictly decreasing offset bounds the recursion.
pub open spec fn spec_resolved_at(data: Seq<u8>, o: int) -> Result<Seq<Seq<u8>>, DecodeError>
    decreases o,
{
    match spec_parse_name(data, o) {
        Err(e) => Err(e),
        Ok((ls, end)) => {
            if ends_in_pointer(ls) {
                let p = ls.last()->Pointer_0;
                if 0 <= p < o {
                    match spec_resolved_at(data, p as int) {
                        Err(e) => Err(e),
                        Ok(rest) => Ok(spec_literal_texts(ls.drop_last()) + rest),
                    }
                } else {
                    Err(DecodeError::InvalidPointer)
                }
            } else {
                Ok(spec_literal_texts(ls))
            }
        },
    }
}

/// The resolution of an in-memory name against the buffer: literal labels
/// keep their text; each pointer label is replaced by the texts resolved at
/// its target offset.  A pointer whose target lies at or past the end of
/// the buffer is invalid.
pub open spec fn spec_resolve_name(data: Seq<u8>, ls: Seq<SpecLabel>) -> Result<
    Seq<Seq<u8>>,
    DecodeError,
>
    decreases ls.len(),
{
    if ls.len() == 0 {
        Ok(Seq::empty())
    } else {
        match spec_resolve_name(data, ls.drop_last()) {
            Err(e) => Err(e),
            Ok(front) => match ls.last() {
                SpecLabel::Literal(b) => Ok(front.push(b)),
                SpecLabel::Pointer(p) => {
                    if p >= data.len() {
                        Err(DecodeError::InvalidPointer)
                    } else {
                        match spec_resolved_at(data, p as int) {
                            Err(e) => Err(e),
                            Ok(ts) => Ok(front + ts),
                        }
                    }
                },
            },
        }
    }
}

/// A per-decode memo of resolved names, keyed by byte offset.  It is
/// created fresh for one buffer and discarded with it.
pub struct ResolveCache {
    cache: HashMap<u16, Vec<Vec<u8>>>,
}

impl ResolveCache {
    /// Every entry is the resolution of the name at its offset.
    pub closed spec fn wf(self, data: Seq<u8>) -> bool {
        forall|o: u16|
            self.cache@.contains_key(o) ==> spec_resolved_at(data, o as int) == Ok::<
                _,
                DecodeError,
            >(texts_of(#[trigger] self.cache@[o]))
    }

    /// An empty cache, valid for any buffer.
    pub fn new() -> (r: Self)
        ensures
            forall|data: Seq<u8>| r.wf(data),
    {
        ResolveCache { cache: HashMap::new() }
    }
}

/// Copy a byte vector.
fn copy_bytes(v: &Vec<u8>) -> (r: Vec<u8>)
    ensures
        r@ == v@,
{
    let mut r: Vec<u8> = Vec::new();
    let mut i: usize = 0;
    while i < v.len()
        invariant
            i <= v@.len(),
            r@ =~= v@.subrange(0, i as int),
        decreases v@.len() - i,
    {
        r.push(v[i]);
        proof {
            assert(r@ =~= v@.subrange(0, i + 1));
        }
        i = i + 1;
    }
    proof {
        assert(v@.subrange(0, v@.len() as int) =~= v@);
    }
    r
}

/// Copy a vector of texts.
fn copy_texts(v: &Vec<Vec<u8>>) -> (r: Vec<Vec<u8>>)
    ensures
        texts_of(r) == texts_of(*v),
{
    let mut r: Vec<Vec<u8>> = Vec::new();
    proof {
        assert(texts_of(r) =~= texts_of(*v).subrange(0, 0));
    }
    let mut i: usize = 0;
    while i < v.len()
        invariant
            i <= v@.len(),
            texts_of(r) == texts_of(*v).subrange(0, i as int),
        decreases v@.len() - i,
    {
        let c = copy_bytes(&v[i]);
        let ghost cv = c@;
        let ghost rq = r@;
        r.push(c);
        proof {
            assert(rq.map_values(|x: Vec<u8>| x@).len() == rq.len());
            assert(texts_of(*v).subrange(0, i as int).len() == i);
            assert(rq.len() == i);
            assert(r@ == rq.push(c));
            assert forall|j: int| 0 <= j < i + 1 implies texts_of(r)[j] == #[trigger] (texts_of(
                *v,
            ).subrange(0, i + 1)[j]) by {
                if j < i {
                    assert(r@[j] == rq[j]);
                    assert(rq.map_values(|x: Vec<u8>| x@)[j] == texts_of(*v).subrange(
                        0,
                        i as int,
                    )[j]);
                } else {
                    assert(r@[j]@ == cv);
                    assert(cv == v@[j]@);
                }
            }
            assert(texts_of(r) =~= texts_of(*v).subrange(0, i + 1));
        }
        i = i + 1;
    }
    proof {
        assert(texts_of(*v).subrange(0, v@.len() as int) =~= texts_of(*v));
    }
    r
}

/// The literal texts of the first `n` labels, as owned vectors.
fn literal_texts(labels: &Vec<Label>, n: usize) -> (r: Vec<Vec<u8>>)
    requires
        n <= labels@.len(),
    ensures
        texts_of(r) == spec_literal_texts(labels@.map_values(|l: Label| l@).subrange(0, n as int)),
{
    let mut r: Vec<Vec<u8>> = Vec::new();
    proof {
        assert(texts_of(r) =~= spec_literal_texts(
            labels@.map_values(|l: Label| l@).subrange(0, 0),
        ));
    }
    let mut i: usize = 0;
    while i < n
        invariant
            i <= n,
            n <= labels@.len(),
            texts_of(r) == spec_literal_texts(
                labels@.map_values(|l: Label| l@).subrange(0, i as int),
            ),
        decreases n - i,
    {
        let t = match &labels[i] {
            Label::Literal(v) => copy_bytes(v),
            Label::Pointer(_) => Vec::new(),
        };
        proof {
            assert(t@ == spec_label_bytes(labels@[i as int]@));
        }
        let ghost tv = t@;
        let ghost rq = r@;
        r.push(t);
        proof {
            let m = labels@.map_values(|l: Label| l@);
            assert(rq.map_values(|x: Vec<u8>| x@).len() == rq.len());
            assert(spec_literal_texts(m.subrange(0, i as int)).len() == i);
            assert(rq.len() == i);
            assert(r@ == rq.push(t));
            assert forall|j: int| 0 <= j < i + 1 implies texts_of(r)[j] == #[trigger] (
            spec_literal_texts(m.subrange(0, i + 1))[j]) by {
                assert(m.subrange(0, i + 1)[j] == m[j]);
                assert(m[j] == labels@[j]@);
                if j < i {
                    assert(r@[j] == rq[j]);
                    assert(rq.map_values(|x: Vec<u8>| x@)[j] == spec_literal_texts(
                        m.subrange(0, i as int),
                    )[j]);
                    assert(m.subrange(0, i as int)[j] == m[j]);
                } else {
                    assert(r@[j]@ == tv);
                }
            }
            assert(texts_of(r) =~= spec_literal_texts(m.subrange(0, i + 1)));
        }
        i = i + 1;
    }
    r
}

/// Texts as literal labels: the shape of a fully resolved name.
pub open spec fn labels_of_texts(ts: Seq<Seq<u8>>) -> Seq<SpecLabel> {
    ts.map_values(|b: Seq<u8>| SpecLabel::Literal(b))
}

impl MDNSFQDN {
    /// Resolve every pointer label of this name against the message
    /// buffer, splicing the labels found at each target in its place.  On
    /// success the name is fully literal; on failure it is unchanged.
    pub fn resolve(&mut self, data: &Vec<u8>, cache: &mut ResolveCache) -> (res: Result<
        (),
        DecodeError,
    >)
        requires
            data@.len() < 0x1000_0000,
            old(cache).wf(data@),
        ensures
            final(cache).wf(data@),
            match res {
                Ok(u) => spec_resolve_name(data@, old(self)@) == Ok::<_, DecodeError>(
                    spec_literal_texts(final(self)@),
                ) && final(self)@ == labels_of_texts(
                    spec_resolve_name(data@, old(self)@)->Ok_0,
                ),
                Err(e) => spec_resolve_name(data@, old(self)@) == Err::<Seq<Seq<u8>>, _>(e)
                    && *final(self) == *old(self),
            },
    {
        let ghost ls = self@;
        let n = self.labels.len();
        let mut out: Vec<Label> = Vec::new();
        proof {
            assert(ls.subrange(0, 0) =~= Seq::<SpecLabel>::empty());
            assert(out@.map_values(|l: Label| l@) =~= labels_of_texts(
                spec_resolve_name(data@, ls.subrange(0, 0))->Ok_0,
            ));
        }
        let mut i: usize = 0;
        while i < n
            invariant
                i <= n,
                n == self.labels@.len(),
                ls == self@,
                data@.len() < 0x1000_0000,
                cache.wf(data@),
                spec_resolve_name(data@, ls.subrange(0, i as int)) is Ok,
                out@.map_values(|l: Label| l@) == labels_of_texts(
                    spec_resolve_name(data@, ls.subrange(0, i as int))->Ok_0,
                ),
            decreases n - i,
        {
            let ghost prefix = ls.subrange(0, i as int);
            let ghost prefix2 = ls.subrange(0, i + 1);
            proof {
                assert(prefix2.drop_last() =~= prefix);
                assert(prefix2.last() == ls[i as int]);
                assert(ls[i as int] == self.labels@[i as int]@);
            }
            match &self.labels[i] {
                Label::Literal(v) => {
                    let c = copy_bytes(v);
                    let ghost cv = c@;
                    let ghost oq = out@;
                    out.push(Label::Literal(c));
                    proof {
                        let want = spec_resolve_name(data@, prefix2)->Ok_0;
                        assert(want == spec_resolve_name(data@, prefix)->Ok_0.push(cv));
                        assert(oq.map_values(|l: Label| l@).len() == oq.len());
                        assert(out@ == oq.push(Label::Literal(c)));
                        assert forall|j: int| 0 <= j < oq.len() + 1 implies out@.map_values(
                            |l: Label| l@,
                        )[j] == #[trigger] (labels_of_texts(want)[j]) by {
                            if j < oq.len() {
                                assert(out@[j] == oq[j]);
                                assert(oq.map_values(|l: Label| l@)[j] == labels_of_texts(
                                    spec_resolve_name(data@, prefix)->Ok_0,
                                )[j]);
                            } else {
                                assert(out@[j]@ == SpecLabel::Literal(cv));
                            }
                        }
                        assert(out@.map_values(|l: Label| l@) =~= labels_of_texts(want));
                    }
                },
                Label::Pointer(p) => {
                    if *p as usize >= data.len() {
                        proof {
                            assert(spec_resolve_name(data@, prefix2) == Err::<Seq<Seq<u8>>, _>(
                                DecodeError::InvalidPointer,
                            ));
                            lemma_resolve_name_prefix_error(
                                data@,
                                ls,
                                i + 1,
                                DecodeError::InvalidPointer,
                            );
                        }
                        return Err(DecodeError::InvalidPointer);
                    }
                    let ts = match resolve_at(data, cache, *p) {
                        Ok(ts) => ts,
                        Err(e) => {
                            proof {
                                assert(spec_resolve_name(data@, prefix2) == Err::<
                                    Seq<Seq<u8>>,
                                    _,
                                >(e));
                                // A later error cannot rescue an earlier one:
                                // the whole resolution fails with this error.
                                lemma_resolve_name_prefix_error(data@, ls, i + 1, e);
                            }
                            return Err(e);
                        },
                    };
                    let mut k: usize = 0;
                    let ghost base = out@.map_values(|l: Label| l@);
                    while k < ts.len()
                        invariant
                            k <= ts@.len(),
                            out@.map_values(|l: Label| l@) == base + labels_of_texts(
                                texts_of(ts).subrange(0, k as int),
                            ),
                        decreases ts@.len() - k,
                    {
                        let c = copy_bytes(&ts[k]);
                        let ghost cv = c@;
                        let ghost oq = out@;
                        out.push(Label::Literal(c));
                        proof {
                            assert(oq.map_values(|l: Label| l@).len() == oq.len());
                            assert(base.len() + k == oq.len());
                            assert(out@ == oq.push(Label::Literal(c)));
                            let want = base + labels_of_texts(texts_of(ts).subrange(0, k + 1));
                            assert forall|j: int| 0 <= j < oq.len() + 1 implies out@.map_values(
                                |l: Label| l@,
                            )[j] == #[trigger] (want[j]) by {
                                if j < oq.len() {
                                    assert(out@[j] == oq[j]);
                                    assert(oq.map_values(|l: Label| l@)[j] == (base
                                        + labels_of_texts(
                                        texts_of(ts).subrange(0, k as int),
                                    ))[j]);
                                } else {
                                    assert(out@[j]@ == SpecLabel::Literal(cv));
                                    assert(cv == ts@[k as int]@);
                                }
                            }
                            assert(out@.map_values(|l: Label| l@) =~= want);
                        }
                        k = k + 1;
                    }
                    proof {
                        assert(texts_of(ts).subrange(0, ts@.len() as int) =~= texts_of(ts));
                        let want = spec_resolve_name(data@, prefix2)->Ok_0;
                        assert(want == spec_resolve_name(data@, prefix)->Ok_0 + texts_of(ts));
                        assert(out@.map_values(|l: Label| l@) =~= labels_of_texts(want)) by {
                            assert(base == labels_of_texts(spec_resolve_name(data@, prefix)->Ok_0));
                            assert forall|j: int|
                                0 <= j < want.len() implies #[trigger] (labels_of_texts(want)[j])
                                == (base + labels_of_texts(texts_of(ts)))[j] by {}
                        }
                    }
                },
            }
            i = i + 1;
        }
        proof {
            assert(ls.subrange(0, n as int) =~= ls);
        }
        self.labels = out;
        proof {
            let ts = spec_resolve_name(data@, ls)->Ok_0;
            assert(spec_literal_texts(labels_of_texts(ts)) =~= ts);
        }
        Ok(())
    }
}

/// A fully literal name resolves to exactly its own label texts.
pub proof fn lemma_resolve_literal_name(data: Seq<u8>, ls: Seq<SpecLabel>)
    requires
        forall|i: int| 0 <= i < ls.len() ==> (#[trigger] ls[i]) matches SpecLabel::Literal(_),
    ensures
        spec_resolve_name(data, ls) == Ok::<_, DecodeError>(spec_literal_texts(ls)),
    decreases ls.len(),
{
    if ls.len() == 0 {
        assert(spec_literal_texts(ls) =~= Seq::<Seq<u8>>::empty());
    } else {
        let front = ls.drop_last();
        assert(forall|i: int| 0 <= i < front.len() ==> front[i] == #[trigger] ls[i]);
        lemma_resolve_literal_name(data, front);
        assert(ls.last() matches SpecLabel::Literal(_));
        let b = ls.last()->Literal_0;
        assert(spec_literal_texts(ls) =~= spec_literal_texts(front).push(b)) by {
            assert(forall|i: int|
                0 <= i < front.len() ==> #[trigger] (spec_literal_texts(front)[i])
                    == spec_literal_texts(ls)[i]);
        }
    }
}

/// Law: a name whose trailing pointer targets its own starting offset or a
/// later one never resolves: it fails with `InvalidPointer`.  Together with
/// the checked termination of [`spec_resolved_at`], this is the guarantee
/// that crafted pointer cycles are rejected rather than chased forever.
pub proof fn lemma_cycle_rejected(data: Seq<u8>, o: int, ls: Seq<SpecLabel>, end: int)
    requires
        spec_parse_name(data, o) == Ok::<_, DecodeError>((ls, end)),
        ends_in_pointer(ls),
        ls.last()->Pointer_0 >= o,
    ensures
        spec_resolved_at(data, o) == Err::<Seq<Seq<u8>>, DecodeError>(
            DecodeError::InvalidPointer,
        ),
{
}

/// Law: a pointer that sits at offset `o` and targets `o` itself or any
/// later offset is rejected as soon as it is read: parsing the name at `o`,
/// and hence resolving anything that leads there, fails with
/// `InvalidPointer`.
pub proof fn lemma_self_pointer_rejected(data: Seq<u8>, o: int)
    requires
        0 <= o,
        o + 2 <= data.len(),
        data[o] >= 0xC0,
        (data[o] - 0xC0) * 256 + data[o + 1] >= o,
    ensures
        spec_parse_name(data, o) == Err::<(Seq<SpecLabel>, int), DecodeError>(
            DecodeError::InvalidPointer,
        ),
        spec_resolved_at(data, o) == Err::<Seq<Seq<u8>>, DecodeError>(
            DecodeError::InvalidPointer,
        ),
{
}

/// Law: a name that ends in a pointer to an offset where a fully literal
/// name appears resolves to the same texts as the name with that literal
/// name written out in the pointer's place.
pub proof fn lemma_pointer_resolution_equivalence(
    data: Seq<u8>,
    front: Seq<SpecLabel>,
    o: u16,
    target: Seq<SpecLabel>,
    end: int,
)
    requires
        spec_parse_name(data, o as int) == Ok::<_, DecodeError>((target, end)),
        forall|i: int| 0 <= i < front.len() ==> (#[trigger] front[i]) matches SpecLabel::Literal(_),
        forall|i: int|
            0 <= i < target.len() ==> (#[trigger] target[i]) matches SpecLabel::Literal(_),
    ensures
        spec_resolve_name(data, front.push(SpecLabel::Pointer(o))) == spec_resolve_name(
            data,
            front + target,
        ),
        spec_resolve_name(data, front.push(SpecLabel::Pointer(o))) == Ok::<_, DecodeError>(
            spec_literal_texts(front + target),
        ),
{
    let with_ptr = front.push(SpecLabel::Pointer(o));
    assert(with_ptr.drop_last() =~= front);
    assert(o < data.len());
    lemma_resolve_literal_name(data, front);
    assert(!ends_in_pointer(target)) by {
        if target.len() > 0 {
            assert(target[target.len() - 1] matches SpecLabel::Literal(_));
        }
    }
    assert(spec_resolved_at(data, o as int) == Ok::<_, DecodeError>(spec_literal_texts(target)));
    lemma_resolve_literal_name(data, front + target);
    assert(forall|i: int|
        0 <= i < front.len() + target.len() ==> (#[trigger] (front + target)[i])
            matches SpecLabel::Literal(_));
    assert(spec_literal_texts(front) + spec_literal_texts(target) =~= spec_literal_texts(
        front + target,
    )) by {
        assert(forall|i: int|
            0 <= i < front.len() ==> #[trigger] (spec_literal_texts(front)[i])
                == spec_literal_texts(front + target)[i]);
        assert(forall|i: int|
            0 <= i < target.len() ==> #[trigger] (spec_literal_texts(target)[i])
                == spec_literal_texts(front + target)[i + front.len()]);
    }
}

/// If resolving a prefix of a name fails, resolving the whole name fails
/// with the same error.
pub proof fn lemma_resolve_name_prefix_error(
    data: Seq<u8>,
    ls: Seq<SpecLabel>,
    i: int,
    e: DecodeError,
)
    requires
        0 <= i <= ls.len(),
        spec_resolve_name(data, ls.subrange(0, i)) == Err::<Seq<Seq<u8>>, DecodeError>(e),
    ensures
        spec_resolve_name(data, ls) == Err::<Seq<Seq<u8>>, DecodeError>(e),
    decreases ls.len() - i,
{
    if i == ls.len() {
        assert(ls.subrange(0, i) =~= ls);
    } else {
        let next = ls.subrange(0, i + 1);
        assert(next.drop_last() =~= ls.subrange(0, i));
        assert(spec_resolve_name(data, next) == Err::<Seq<Seq<u8>>, DecodeError>(e));
        lemma_resolve_name_prefix_error(data, ls, i + 1, e);
    }
}

/// Resolve the name that starts at byte offset `o`, memoizing the result.
pub fn resolve_at(data: &Vec<u8>, cache: &mut ResolveCache, o: u16) -> (res: Result<
    Vec<Vec<u8>>,
    DecodeError,
>)
    requires
        data@.len() < 0x1000_0000,
        old(cache).wf(data@),
    ensures
        final(cache).wf(data@),
        match res {
            Ok(ts) => spec_resolved_at(data@, o as int) == Ok::<_, DecodeError>(texts_of(ts)),
            Err(e) => spec_resolved_at(data@, o as int) == Err::<Seq<Seq<u8>>, _>(e),
        },
    decreases o,
{
    if let Some(hit) = cache.cache.get(&o) {
        let ts = copy_texts(hit);
        return Ok(ts);
    }

    if o as usize >= data.len() {
        return Err(DecodeError::OutOfData);
    }
    let mut r = BitReader::new_at_byte(data, o as usize);
    let name = match MDNSFQDN::unpack(&mut r) {
        Ok(n) => n,
        Err(e) => {
            return Err(e);
        },
    };
    let ghost ls = name@;
    let n = name.labels.len();
    let texts: Vec<Vec<u8>>;
    if n > 0 && matches!(name.labels[n - 1], Label::Pointer(_)) {
        let p = match name.labels[n - 1] {
            Label::Pointer(p) => p,
            Label::Literal(_) => 0,
        };
        proof {
            assert(name.labels@[n - 1]@ == ls[n - 1]);
            assert(ends_in_pointer(ls));
            assert(ls.last()->Pointer_0 == p);
        }
        if p < o {
            let rest = match resolve_at(data, cache, p) {
                Ok(ts) => ts,
                Err(e) => {
                    return Err(e);
                },
            };
            let mut front = literal_texts(&name.labels, n - 1);
            proof {
                assert(ls.subrange(0, n - 1) =~= ls.drop_last());
            }
            let mut k: usize = 0;
            let ghost frontv = texts_of(front);
            proof {
                assert(texts_of(front) =~= frontv + texts_of(rest).subrange(0, 0));
            }
            while k < rest.len()
                invariant
                    k <= rest@.len(),
                    texts_of(front) == frontv + texts_of(rest).subrange(0, k as int),
                decreases rest@.len() - k,
            {
                let c = copy_bytes(&rest[k]);
                let ghost cv = c@;
                let ghost fq = front@;
                front.push(c);
                proof {
                    assert(fq.map_values(|x: Vec<u8>| x@).len() == fq.len());
                    assert(front@ == fq.push(c));
                    assert(fq.len() == frontv.len() + k);
                    assert forall|j: int| 0 <= j < fq.len() + 1 implies texts_of(front)[j]
                        == #[trigger] ((frontv + texts_of(rest).subrange(0, k + 1))[j]) by {
                        if j < fq.len() {
                            assert(front@[j] == fq[j]);
                            assert(fq.map_values(|x: Vec<u8>| x@)[j] == (frontv + texts_of(
                                rest,
                            ).subrange(0, k as int))[j]);
                        } else {
                            assert(front@[j]@ == cv);
                            assert(cv == rest@[k as int]@);
                        }
                    }
                    assert(texts_of(front) =~= frontv + texts_of(rest).subrange(0, k + 1));
                }
                k = k + 1;
            }
            proof {
                assert(texts_of(rest).subrange(0, rest@.len() as int) =~= texts_of(rest));
                assert(texts_of(front) =~= spec_literal_texts(ls.drop_last()) + texts_of(rest));
            }
            texts = front;
        } else {
            proof {
                assert(spec_resolved_at(data@, o as int) == Err::<Seq<Seq<u8>>, _>(
                    DecodeError::InvalidPointer,
                ));
            }
            return Err(DecodeError::InvalidPointer);
        }
    } else {
        proof {
            if n > 0 {
                assert(name.labels@[n - 1]@ == ls[n - 1]);
            }
            assert(!ends_in_pointer(ls));
            assert(ls.subrange(0, n as int) =~= ls);
        }
        texts = literal_texts(&name.labels, n);
    }
    let keep = copy_texts(&texts);
    let ghost oldmap = cache.cache@;
    cache.cache.insert(o, keep);
    proof {
        assert(cache.cache@ == oldmap.insert(o, keep));
        assert forall|q: u16| cache.cache@.contains_key(q) implies spec_resolved_at(
            data@,
            q as int,
        ) == Ok::<_, DecodeError>(texts_of(#[trigger] cache.cache@[q])) by {
            if q != o {
                assert(oldmap.contains_key(q));
                assert(cache.cache@[q] == oldmap[q]);
            } else {
                assert(cache.cache@[q] == keep);
            }
        }
    }
    Ok(texts)
}

} // verus!
