//! Domain names: label sequences with compression pointers.
//!
//! On the wire a name is a run of length-prefixed literal labels ended
//! either by a zero length byte or by a two-byte compression pointer whose
//! top two bits are set.  A pointer holds a 14-bit byte offset into the
//! original message buffer and may only reference an offset strictly before
//! the place where the pointer itself appears; decoding rejects anything
//! else as [`DecodeError::InvalidPointer`].  Literal label bytes must be
//! valid UTF-8 text.  Names are always written out literally; outgoing
//! compression is never performed.

use crate::cursor::{BitReader, BitWriter};
use crate::error::DecodeError;
use crate::utf8check::is_valid_utf8;
use vstd::prelude::*;
use vstd::string::{StrSliceExecFns, StringSliceAdditionalSpecFns};
use vstd::utf8::valid_utf8;

verus! {

/// One segment of a domain name: literal text bytes, or a compression
/// pointer holding a byte offset into the original message buffer.
#[derive(Debug, PartialEq, Eq, Clone)]
pub enum Label {
    Literal(Vec<u8>),
    Pointer(u16),
}

/// The specification-level form of a label, over mathematical sequences.
pub enum SpecLabel {
    Literal(Seq<u8>),
    Pointer(u16),
}

impl View for Label {
    type V = SpecLabel;

    open spec fn view(&self) -> SpecLabel {
        match self {
            Label::Literal(v) => SpecLabel::Literal(v@),
            Label::Pointer(p) => SpecLabel::Pointer(*p),
        }
    }
}

/// A domain name as an ordered sequence of labels.
#[derive(Debug, PartialEq, Eq, Clone)]
pub struct MDNSFQDN {
    pub labels: Vec<Label>,
}

impl View for MDNSFQDN {
    type V = Seq<SpecLabel>;

    open spec fn view(&self) -> Seq<SpecLabel> {
        self.labels@.map_values(|l: Label| l@)
    }
}

/// The wire bytes of one label: a length byte and the text for a literal,
/// or two bytes with the top two bits set for a pointer.
pub open spec fn spec_pack_label(l: SpecLabel) -> Seq<u8> {
    match l {
        SpecLabel::Literal(bytes) => seq![bytes.len() as u8] + bytes,
        SpecLabel::Pointer(p) => seq![(0xC0 + p / 256) as u8, (p % 256) as u8],
    }
}

/// The wire bytes of a label run, without the terminator.
pub open spec fn spec_pack_labels(ls: Seq<SpecLabel>) -> Seq<u8>
    decreases ls.len(),
{
    if ls.len() == 0 {
        Seq::empty()
    } else {
        spec_pack_label(ls[0]) + spec_pack_labels(ls.skip(1))
    }
}

/// Whether a name ends in a pointer, which replaces the terminator on the
/// wire.
pub open spec fn ends_in_pointer(ls: Seq<SpecLabel>) -> bool {
    ls.len() > 0 && (ls.last() matches SpecLabel::Pointer(_))
}

/// The full wire bytes of a name: its labels, then a zero terminator unless
/// a pointer already ended it.
pub open spec fn spec_pack_name(ls: Seq<SpecLabel>) -> Seq<u8> {
    spec_pack_labels(ls) + (if ends_in_pointer(ls) {
        Seq::<u8>::empty()
    } else {
        seq![0u8]
    })
}

/// Whether every label fits its wire field: literal labels carry at most 63
/// bytes (the length byte's top two bits must stay clear) and pointers fit
/// in 14 bits.
pub open spec fn name_packable(ls: Seq<SpecLabel>) -> bool {
    forall|i: int|
        0 <= i < ls.len() ==> match #[trigger] ls[i] {
            SpecLabel::Literal(bytes) => bytes.len() <= 63,
            SpecLabel::Pointer(p) => p < 0x4000,
        }
}

/// A name that is fully literal text, with every label sized for the wire
/// and holding valid UTF-8: the form produced by construction from text, and
/// the form whose encoding is guaranteed to decode back to itself.
pub open spec fn name_uncompressed(ls: Seq<SpecLabel>) -> bool {
    forall|i: int|
        0 <= i < ls.len() ==> match #[trigger] ls[i] {
            SpecLabel::Literal(bytes) => 1 <= bytes.len() <= 63 && valid_utf8(bytes),
            SpecLabel::Pointer(_) => false,
        }
}

/// The specification-level name parser.  `pos` is a byte offset into
/// `data`.  Parsing consumes labels until a terminator or a pointer; it
/// fails exactly where the executable decoder fails, with the same error.
pub open spec fn spec_parse_name(data: Seq<u8>, pos: int) -> Result<
    (Seq<SpecLabel>, int),
    DecodeError,
>
    decreases data.len() - pos,
{
    if pos < 0 || pos >= data.len() {
        Err(DecodeError::OutOfData)
    } else {
        let len = data[pos] as int;
        if len == 0 {
            Ok((Seq::empty(), pos + 1))
        } else if len >= 0xC0 {
            if pos + 2 > data.len() {
                Err(DecodeError::OutOfData)
            } else {
                let ptr = (len - 0xC0) * 256 + data[pos + 1];
                if ptr < pos {
                    Ok((seq![SpecLabel::Pointer(ptr as u16)], pos + 2))
                } else {
                    Err(DecodeError::InvalidPointer)
                }
            }
        } else {
            if pos + 1 + len > data.len() {
                Err(DecodeError::OutOfData)
            } else {
                let bytes = data.subrange(pos + 1, pos + 1 + len);
                if !valid_utf8(bytes) {
                    Err(DecodeError::InvalidUtf8Label)
                } else {
                    match spec_parse_name(data, pos + 1 + len) {
                        Ok((rest, end)) => Ok((seq![SpecLabel::Literal(bytes)] + rest, end)),
                        Err(e) => Err(e),
                    }
                }
            }
        }
    }
}

/// The wire bytes of a label run split after the first `k` labels.
pub proof fn lemma_pack_labels_split(ls: Seq<SpecLabel>, k: int)
    requires
        0 <= k <= ls.len(),
    ensures
        spec_pack_labels(ls) == spec_pack_labels(ls.take(k)) + spec_pack_labels(ls.skip(k)),
    decreases k,
{
    if k == 0 {
        assert(ls.take(0) =~= Seq::<SpecLabel>::empty());
        assert(ls.skip(0) =~= ls);
        assert(spec_pack_labels(ls.take(0)) + spec_pack_labels(ls) =~= spec_pack_labels(ls));
    } else {
        let t = ls.take(k);
        assert(t[0] == ls[0]);
        assert(t.skip(1) =~= ls.skip(1).take(k - 1));
        lemma_pack_labels_split(ls.skip(1), k - 1);
        assert(ls.skip(1).skip(k - 1) =~= ls.skip(k));
        assert(spec_pack_labels(ls) == spec_pack_label(ls[0]) + spec_pack_labels(ls.skip(1)));
        assert(spec_pack_labels(t) == spec_pack_label(ls[0]) + spec_pack_labels(ls.skip(1).take(k - 1)));
        assert(spec_pack_labels(ls) =~= spec_pack_labels(t) + spec_pack_labels(ls.skip(k)));
    }
}

/// Parsing the encoding of an uncompressed name, wherever it sits in a
/// buffer, gives that name back and stops right after its terminator.
pub proof fn lemma_name_round_trip(data: Seq<u8>, pos: int, ls: Seq<SpecLabel>)
    requires
        name_uncompressed(ls),
        0 <= pos,
        pos + spec_pack_name(ls).len() <= data.len(),
        data.subrange(pos, pos + spec_pack_name(ls).len() as int) == spec_pack_name(ls),
    ensures
        spec_parse_name(data, pos) == Ok::<_, DecodeError>(
            (ls, pos + spec_pack_name(ls).len()),
        ),
    decreases ls.len(),
{
    let enc = spec_pack_name(ls);
    if ls.len() == 0 {
        assert(spec_pack_labels(ls) =~= Seq::<u8>::empty());
        assert(enc =~= seq![0u8]);
        assert(data[pos] == data.subrange(pos, pos + 1)[0]);
        assert(data[pos] == 0);
        assert(spec_parse_name(data, pos) == Ok::<_, DecodeError>((Seq::<SpecLabel>::empty(), pos + 1)));
        assert(ls =~= Seq::<SpecLabel>::empty());
    } else {
        let b = ls[0]->Literal_0;
        let n = b.len() as int;
        let rest = ls.skip(1);
        assert(1 <= n <= 63);
        assert(!ends_in_pointer(ls));
        assert(!ends_in_pointer(rest)) by {
            if ends_in_pointer(rest) {
                assert(rest.last() == ls.last());
            }
        }
        assert(spec_pack_label(ls[0]) =~= seq![n as u8] + b);
        assert(enc =~= spec_pack_label(ls[0]) + spec_pack_name(rest)) by {
            assert(spec_pack_labels(ls) == spec_pack_label(ls[0]) + spec_pack_labels(rest));
        }
        let lab_len = 1 + n;
        let rest_len = spec_pack_name(rest).len() as int;
        assert(enc.len() == lab_len + rest_len);
        assert(data[pos] == enc[0]);
        assert(enc[0] == n as u8);
        assert(0 < n < 0xC0);
        // The label bytes in the buffer are exactly `b`.
        assert(data.subrange(pos + 1, pos + 1 + n) =~= b) by {
            assert forall|j: int| 0 <= j < n implies data.subrange(pos + 1, pos + 1 + n)[j]
                == b[j] by {
                assert(data[pos + 1 + j] == enc[1 + j]);
                assert(enc[1 + j] == spec_pack_label(ls[0])[1 + j]);
            }
        }
        assert(valid_utf8(b));
        // The rest of the encoding sits right after this label.
        let pos2 = pos + 1 + n;
        assert(data.subrange(pos2, pos2 + rest_len) =~= spec_pack_name(rest)) by {
            assert forall|j: int| 0 <= j < rest_len implies data.subrange(pos2, pos2 + rest_len)[j]
                == spec_pack_name(rest)[j] by {
                assert(data[pos2 + j] == enc[lab_len + j]);
            }
        }
        assert(name_uncompressed(rest)) by {
            assert(forall|i: int| 0 <= i < rest.len() ==> rest[i] == ls[i + 1]);
        }
        lemma_name_round_trip(data, pos2, rest);
        assert(seq![SpecLabel::Literal(b)] + rest =~= ls);
    }
}

/// The bytes a label shows as text: the literal bytes themselves, or the
/// pointer's offset spelled out in decimal between angled markers.
pub open spec fn spec_label_text(l: SpecLabel) -> Seq<u8> {
    match l {
        SpecLabel::Literal(b) => b,
        SpecLabel::Pointer(p) => seq![0x3cu8, 0x3cu8, 0x23u8] + spec_dec_bytes(p as nat) + seq![
            0x3eu8,
            0x3eu8,
        ],
    }
}

/// A number written out in decimal digits.
pub open spec fn spec_dec_bytes(v: nat) -> Seq<u8>
    decreases v,
{
    if v < 10 {
        seq![(0x30 + v) as u8]
    } else {
        spec_dec_bytes(v / 10) + seq![(0x30 + v % 10) as u8]
    }
}

/// A name's text: its labels' texts joined with dots.
pub open spec fn spec_text_join(ls: Seq<SpecLabel>) -> Seq<u8>
    decreases ls.len(),
{
    if ls.len() == 0 {
        Seq::empty()
    } else if ls.len() == 1 {
        spec_label_text(ls[0])
    } else {
        spec_text_join(ls.drop_last()) + seq![0x2eu8] + spec_label_text(ls.last())
    }
}

/// Whether every literal label of a name holds valid UTF-8 text.  (The text
/// a pointer shows is pure ASCII and always valid.)
pub open spec fn name_labels_utf8(ls: Seq<SpecLabel>) -> bool {
    forall|i: int|
        0 <= i < ls.len() ==> match #[trigger] ls[i] {
            SpecLabel::Literal(b) => valid_utf8(b),
            SpecLabel::Pointer(_) => true,
        }
}

/// A single byte below 0x80 is a valid one-scalar UTF-8 encoding.
proof fn lemma_ascii_byte_utf8(b: u8)
    requires
        b < 0x80,
    ensures
        valid_utf8(seq![b]),
{
    let s = seq![b];
    assert(vstd::utf8::is_leading_byte_width_1(s[0]));
    assert(vstd::utf8::length_of_first_scalar(s) == 1);
    assert(vstd::utf8::codepoint_width_1(s[0]) == (b & 0x7f) as u32);
    assert(b & 0x7f <= 0x7f) by (bit_vector);
    assert(vstd::utf8::valid_first_scalar(s));
    assert(vstd::utf8::pop_first_scalar(s) =~= Seq::<u8>::empty());
    assert(valid_utf8(Seq::<u8>::empty()));
}

/// A run of decimal digits is valid UTF-8.
proof fn lemma_dec_bytes_utf8(v: nat)
    ensures
        valid_utf8(spec_dec_bytes(v)),
    decreases v,
{
    if v < 10 {
        lemma_ascii_byte_utf8((0x30 + v) as u8);
    } else {
        lemma_dec_bytes_utf8(v / 10);
        lemma_ascii_byte_utf8((0x30 + v % 10) as u8);
        vstd::utf8::valid_utf8_concat(spec_dec_bytes(v / 10), seq![(0x30 + v % 10) as u8]);
    }
}

/// The text a single label shows is valid UTF-8 whenever its literal bytes
/// are.
proof fn lemma_label_text_utf8(l: SpecLabel)
    requires
        l matches SpecLabel::Literal(b) ==> valid_utf8(b),
    ensures
        valid_utf8(spec_label_text(l)),
{
    match l {
        SpecLabel::Literal(b) => {
            assert(spec_label_text(l) == b);
        },
        SpecLabel::Pointer(p) => {
            lemma_ascii_byte_utf8(0x3c);
            lemma_ascii_byte_utf8(0x23);
            lemma_ascii_byte_utf8(0x3e);
            lemma_dec_bytes_utf8(p as nat);
            assert(seq![0x3cu8, 0x3cu8, 0x23u8] =~= seq![0x3cu8] + seq![0x3cu8] + seq![0x23u8]);
            assert(seq![0x3eu8, 0x3eu8] =~= seq![0x3eu8] + seq![0x3eu8]);
            vstd::utf8::valid_utf8_concat(seq![0x3cu8], seq![0x3cu8]);
            vstd::utf8::valid_utf8_concat(seq![0x3cu8] + seq![0x3cu8], seq![0x23u8]);
            vstd::utf8::valid_utf8_concat(seq![0x3cu8, 0x3cu8, 0x23u8], spec_dec_bytes(p as nat));
            vstd::utf8::valid_utf8_concat(seq![0x3eu8], seq![0x3eu8]);
            vstd::utf8::valid_utf8_concat(
                seq![0x3cu8, 0x3cu8, 0x23u8] + spec_dec_bytes(p as nat),
                seq![0x3eu8, 0x3eu8],
            );
            assert(spec_label_text(l) =~= (seq![0x3cu8, 0x3cu8, 0x23u8] + spec_dec_bytes(p as nat))
                + seq![0x3eu8, 0x3eu8]);
        },
    }
}

/// The joined text of a name is valid UTF-8 whenever its literal labels
/// are.
pub proof fn lemma_text_join_utf8(ls: Seq<SpecLabel>)
    requires
        name_labels_utf8(ls),
    ensures
        valid_utf8(spec_text_join(ls)),
    decreases ls.len(),
{
    if ls.len() == 0 {
    } else if ls.len() == 1 {
        lemma_label_text_utf8(ls[0]);
    } else {
        assert(forall|i: int| 0 <= i < ls.len() - 1 ==> ls.drop_last()[i] == #[trigger] ls[i]);
        lemma_text_join_utf8(ls.drop_last());
        lemma_label_text_utf8(ls.last());
        lemma_ascii_byte_utf8(0x2e);
        vstd::utf8::valid_utf8_concat(spec_text_join(ls.drop_last()), seq![0x2eu8]);
        vstd::utf8::valid_utf8_concat(
            spec_text_join(ls.drop_last()) + seq![0x2eu8],
            spec_label_text(ls.last()),
        );
    }
}

/// The dot-separated pieces of a text: one more piece than there are dots,
/// empty pieces included, so that the pieces rejoined with dots give the
/// text back.
pub open spec fn spec_split_dots(bytes: Seq<u8>) -> Seq<Seq<u8>>
    decreases bytes.len(),
{
    if bytes.len() == 0 {
        seq![Seq::<u8>::empty()]
    } else if bytes.last() == 0x2eu8 {
        spec_split_dots(bytes.drop_last()).push(Seq::empty())
    } else {
        let s = spec_split_dots(bytes.drop_last());
        s.update(s.len() - 1, s.last().push(bytes.last()))
    }
}

/// Text pieces as literal labels.
pub open spec fn labels_of_pieces(ps: Seq<Seq<u8>>) -> Seq<SpecLabel> {
    ps.map_values(|b: Seq<u8>| SpecLabel::Literal(b))
}

/// The split always yields at least one piece.
pub proof fn lemma_split_dots_len(bytes: Seq<u8>)
    ensures
        spec_split_dots(bytes).len() >= 1,
    decreases bytes.len(),
{
    if bytes.len() > 0 {
        lemma_split_dots_len(bytes.drop_last());
    }
}

/// Splitting valid UTF-8 text at an ASCII dot leaves valid UTF-8 on both
/// sides of the dot.
proof fn lemma_split_at_dot(bytes: Seq<u8>, d: int)
    requires
        valid_utf8(bytes),
        0 <= d < bytes.len(),
        bytes[d] == 0x2eu8,
    ensures
        valid_utf8(bytes.subrange(0, d)),
        valid_utf8(bytes.subrange(d + 1, bytes.len() as int)),
{
    vstd::utf8::is_char_boundary_iff_not_is_continuation_byte(bytes, d);
    assert(!vstd::utf8::is_continuation_byte(bytes[d]));
    vstd::utf8::valid_utf8_split(bytes, d);
    let right = bytes.subrange(d, bytes.len() as int);
    assert(right.len() > 0 && right[0] == 0x2eu8);
    assert(vstd::utf8::is_leading_byte_width_1(right[0]));
    assert(vstd::utf8::length_of_first_scalar(right) == 1);
    assert(valid_utf8(right));
    assert(vstd::utf8::pop_first_scalar(right) =~= bytes.subrange(d + 1, bytes.len() as int));
}

/// Relies on `String::from_utf8_lossy`: when the input bytes are valid
/// UTF-8 it returns, unchanged, the string whose UTF-8 encoding is exactly
/// those bytes.
#[verifier::external_body]
fn lossy_string(v: &Vec<u8>) -> (r: String)
    ensures
        valid_utf8(v@) ==> vstd::utf8::encode_utf8(r@) == v@,
{
    String::from_utf8_lossy(v.as_slice()).into_owned()
}

/// Copy a byte vector.
fn copy_bytes(v: &Vec<u8>) -> (r: Vec<u8>)
    ensures
        r@ == v@,
{
    let mut r: Vec<u8> = Vec::new();
    let mut i: usize = 0;
    while i < v.len()
        invariant
            i <= v@.len(),
            r@ =~= v@.subrange(0, i as int),
        decreases v@.len() - i,
    {
        r.push(v[i]);
        proof {
            assert(r@ =~= v@.subrange(0, i + 1));
        }
        i = i + 1;
    }
    proof {
        assert(v@.subrange(0, v@.len() as int) =~= v@);
    }
    r
}

/// A number written out in decimal digits.
fn dec_bytes(v: u16) -> (r: Vec<u8>)
    ensures
        r@ == spec_dec_bytes(v as nat),
    decreases v,
{
    if v < 10 {
        let mut r: Vec<u8> = Vec::new();
        r.push(0x30 + (v as u8));
        proof {
            assert(r@ =~= spec_dec_bytes(v as nat));
        }
        r
    } else {
        let mut r = dec_bytes(v / 10);
        r.push(0x30 + ((v % 10) as u8));
        proof {
            assert(r@ =~= spec_dec_bytes((v / 10) as nat) + seq![(0x30 + (v % 10) as nat) as u8]);
        }
        r
    }
}

impl MDNSFQDN {
    /// Decode a name from the reader.  The result and the final position
    /// are exactly those of the specification parser at the same offset.
    pub fn unpack(r: &mut BitReader) -> (res: Result<MDNSFQDN, DecodeError>)
        requires
            old(r).wf(),
            old(r).pos % 8 == 0,
        ensures
            final(r).wf(),
            final(r).data == old(r).data,
            final(r).pos % 8 == 0,
            match res {
                Ok(name) => spec_parse_name(old(r).data@, old(r).pos as int / 8) == Ok::<
                    _,
                    DecodeError,
                >((name@, final(r).pos as int / 8)),
                Err(e) => spec_parse_name(old(r).data@, old(r).pos as int / 8) == Err::<
                    (Seq<SpecLabel>, int),
                    _,
                >(e),
            },
    {
        let ghost d = old(r).data@;
        let ghost p0 = old(r).pos as int / 8;
        let mut acc: Vec<Label> = Vec::new();
        proof {
            assert(acc@.map_values(|l: Label| l@) =~= Seq::<SpecLabel>::empty());
        }
        loop
            invariant
                r.wf(),
                r.pos % 8 == 0,
                r.data == old(r).data,
                r.data@ == d,
                d == old(r).data@,
                p0 == old(r).pos as int / 8,
                0 <= p0,
                8 * p0 <= r.pos,
                ({
                    let cur = r.pos as int / 8;
                    match spec_parse_name(d, cur) {
                        Ok((rest, end)) => spec_parse_name(d, p0) == Ok::<_, DecodeError>(
                            (acc@.map_values(|l: Label| l@) + rest, end),
                        ),
                        Err(e) => spec_parse_name(d, p0) == Err::<(Seq<SpecLabel>, int), _>(e),
                    }
                }),
            decreases 8 * d.len() - r.pos,
        {
            let ghost cur = r.pos as int / 8;
            let len = match r.read_u8() {
                Ok(b) => b,
                Err(e) => {
                    proof {
                        assert(spec_parse_name(d, cur) == Err::<(Seq<SpecLabel>, int), _>(
                            DecodeError::OutOfData,
                        ));
                    }
                    return Err(e);
                },
            };
            if len == 0 {
                proof {
                    assert(spec_parse_name(d, cur) == Ok::<_, DecodeError>((
                        Seq::<SpecLabel>::empty(),
                        cur + 1,
                    )));
                    assert(acc@.map_values(|l: Label| l@) + Seq::<SpecLabel>::empty()
                        =~= acc@.map_values(|l: Label| l@));
                }
                return Ok(MDNSFQDN { labels: acc });
            } else if len >= 0xC0 {
                let lo = match r.read_u8() {
                    Ok(b) => b,
                    Err(e) => {
                        return Err(e);
                    },
                };
                let ptr: u16 = ((len - 0xC0) as u16) * 256 + (lo as u16);
                // The pointer may only reference a strictly earlier offset
                // than the byte where it appeared.
                let tag_pos = (r.pos / 8) - 2;
                if (ptr as usize) < tag_pos {
                    let mut labels = acc;
                    labels.push(Label::Pointer(ptr));
                    proof {
                        assert(spec_parse_name(d, cur) == Ok::<_, DecodeError>((
                            seq![SpecLabel::Pointer(ptr)],
                            cur + 2,
                        )));
                        assert(labels@.map_values(|l: Label| l@) =~= acc@.map_values(
                            |l: Label| l@,
                        ) + seq![SpecLabel::Pointer(ptr)]);
                    }
                    return Ok(MDNSFQDN { labels });
                } else {
                    proof {
                        assert(spec_parse_name(d, cur) == Err::<(Seq<SpecLabel>, int), _>(
                            DecodeError::InvalidPointer,
                        ));
                    }
                    return Err(DecodeError::InvalidPointer);
                }
            } else {
                let bytes = match r.read_bytes(len as usize) {
                    Ok(v) => v,
                    Err(e) => {
                        return Err(e);
                    },
                };
                if !is_valid_utf8(&bytes) {
                    proof {
                        assert(spec_parse_name(d, cur) == Err::<(Seq<SpecLabel>, int), _>(
                            DecodeError::InvalidUtf8Label,
                        ));
                    }
                    return Err(DecodeError::InvalidUtf8Label);
                }
                let ghost accv = acc@.map_values(|l: Label| l@);
                acc.push(Label::Literal(bytes));
                proof {
                    let cur2 = r.pos as int / 8;
                    assert(cur2 == cur + 1 + len);
                    let b = d.subrange(cur + 1, cur + 1 + len);
                    assert(acc@.map_values(|l: Label| l@) =~= accv + seq![SpecLabel::Literal(b)]);
                    match spec_parse_name(d, cur2) {
                        Ok((rest, end)) => {
                            assert((accv + seq![SpecLabel::Literal(b)]) + rest =~= accv + (seq![
                                SpecLabel::Literal(b),
                            ] + rest));
                        },
                        Err(e) => {},
                    }
                }
            }
        }
    }

    /// Encode this name: every label written literally, then the zero
    /// terminator unless a pointer ended the name.  A label that does not
    /// fit its wire field, or a name too large for the output buffer, is
    /// rejected before anything is written.
    pub fn pack(&self, w: &mut BitWriter) -> (res: Result<(), DecodeError>)
        requires
            old(w).wf(),
            old(w).bitlen % 8 == 0,
            old(w).bitlen < 0x0100_0000,
        ensures
            final(w).wf(),
            final(w).bitlen % 8 == 0,
            match res {
                Ok(u) => {
                    &&& name_packable(self@)
                    &&& old(w).bitlen + 8 * spec_pack_name(self@).len() < 0x0200_0000
                    &&& final(w).buf@ == old(w).buf@ + spec_pack_name(self@)
                    &&& final(w).bitlen == old(w).bitlen + 8 * spec_pack_name(self@).len()
                },
                Err(e) => {
                    &&& e == DecodeError::OversizedField
                    &&& !(name_packable(self@) && old(w).bitlen + 8 * spec_pack_name(self@).len()
                        < 0x0200_0000)
                    &&& *final(w) == *old(w)
                },
            },
    {
        let n = self.labels.len();
        // First pass: check that every label fits and size the encoding.
        let mut total: usize = 0;
        let mut k: usize = 0;
        while k < n
            invariant
                k <= n,
                n == self.labels@.len(),
                *w == *old(w),
                old(w).wf(),
                old(w).bitlen % 8 == 0,
                old(w).bitlen < 0x0100_0000,
                name_packable(self@.take(k as int)),
                total == spec_pack_labels(self@.take(k as int)).len(),
                total < 0x0080_0000 + 64,
            decreases n - k,
        {
            if total >= 0x0080_0000 {
                // The encoding is already beyond any buffer this writer
                // may grow to.
                proof {
                    lemma_pack_labels_split(self@, k as int);
                    assert(spec_pack_name(self@).len() >= spec_pack_labels(self@.take(k as int)).len());
                }
                return Err(DecodeError::OversizedField);
            }
            proof {
                lemma_pack_labels_split(self@.take(k + 1), k as int);
                assert(self@.take(k + 1).take(k as int) =~= self@.take(k as int));
                assert(self@.take(k + 1).skip(k as int) =~= seq![self@[k as int]]);
                assert(spec_pack_labels(seq![self@[k as int]]) == spec_pack_label(self@[k as int])
                    + spec_pack_labels(Seq::<SpecLabel>::empty())) by {
                    assert(seq![self@[k as int]].skip(1) =~= Seq::<SpecLabel>::empty());
                }
                assert(spec_pack_label(self@[k as int]) + Seq::<u8>::empty() =~= spec_pack_label(
                    self@[k as int],
                ));
                assert(self@[k as int] == self.labels@[k as int]@);
            }
            match &self.labels[k] {
                Label::Literal(bytes) => {
                    if bytes.len() > 63 {
                        return Err(DecodeError::OversizedField);
                    }
                    proof {
                        assert(spec_pack_label(self@[k as int]).len() == 1 + bytes@.len());
                    }
                    total = total + 1 + bytes.len();
                },
                Label::Pointer(p) => {
                    if *p >= 0x4000 {
                        return Err(DecodeError::OversizedField);
                    }
                    proof {
                        assert(spec_pack_label(self@[k as int]).len() == 2);
                    }
                    total = total + 2;
                },
            }
            k = k + 1;
            proof {
                assert(forall|i: int|
                    0 <= i < k ==> self@.take(k as int)[i] == #[trigger] self@.take(k as int)[i]);
            }
        }
        proof {
            assert(self@.take(n as int) =~= self@);
        }
        // The terminator byte, unless a pointer ended the name.
        let sized: usize = if n > 0 && matches!(self.labels[n - 1], Label::Pointer(_)) {
            total
        } else {
            total + 1
        };
        proof {
            if n > 0 {
                assert(self@[n as int - 1] == self.labels@[n as int - 1]@);
            }
            assert(sized == spec_pack_name(self@).len());
        }
        if w.bitlen + 8 * sized >= 0x0200_0000 {
            return Err(DecodeError::OversizedField);
        }
        // Second pass: write the labels and the terminator.
        let ghost base = w.buf@;
        let ghost bit0 = w.bitlen;
        let mut k: usize = 0;
        while k < n
            invariant
                k <= n,
                n == self.labels@.len(),
                name_packable(self@),
                w.wf(),
                w.bitlen % 8 == 0,
                bit0 + 8 * spec_pack_name(self@).len() < 0x0200_0000,
                bit0 < 0x0100_0000,
                w.buf@ == base + spec_pack_labels(self@.take(k as int)),
                w.bitlen == bit0 + 8 * spec_pack_labels(self@.take(k as int)).len(),
                spec_pack_labels(self@.take(k as int)).len() <= spec_pack_name(self@).len(),
            decreases n - k,
        {
            proof {
                lemma_pack_labels_split(self@, k as int);
                lemma_pack_labels_split(self@, k + 1);
                lemma_pack_labels_split(self@.take(k + 1), k as int);
                assert(self@.take(k + 1).take(k as int) =~= self@.take(k as int));
                assert(self@.take(k + 1).skip(k as int) =~= seq![self@[k as int]]);
                assert(spec_pack_labels(seq![self@[k as int]]) == spec_pack_label(self@[k as int])
                    + spec_pack_labels(Seq::<SpecLabel>::empty())) by {
                    assert(seq![self@[k as int]].skip(1) =~= Seq::<SpecLabel>::empty());
                }
                assert(spec_pack_label(self@[k as int]) + Seq::<u8>::empty() =~= spec_pack_label(
                    self@[k as int],
                ));
                assert(self@[k as int] == self.labels@[k as int]@);
                // The bytes written so far plus this label stay within the
                // sized bound.
                assert(spec_pack_name(self@).len() == spec_pack_labels(self@).len() + (
                if ends_in_pointer(self@) {
                    0int
                } else {
                    1int
                }));
                assert(spec_pack_labels(self@.take(k + 1)).len() <= spec_pack_labels(self@).len());
            }
            match &self.labels[k] {
                Label::Literal(bytes) => {
                    w.write_u8(bytes.len() as u8);
                    w.write_bytes(bytes);
                    proof {
                        assert(w.buf@ =~= base + spec_pack_labels(self@.take(k + 1)));
                    }
                },
                Label::Pointer(p) => {
                    w.write_u8(0xC0 + (*p / 256) as u8);
                    w.write_u8((*p % 256) as u8);
                    proof {
                        assert(seq![(0xC0 + *p / 256) as u8] + seq![(*p % 256) as u8]
                            =~= spec_pack_label(self@[k as int]));
                        assert(w.buf@ =~= base + spec_pack_labels(self@.take(k + 1)));
                    }
                },
            }
            k = k + 1;
        }
        proof {
            assert(self@.take(n as int) =~= self@);
        }
        if n > 0 && matches!(self.labels[n - 1], Label::Pointer(_)) {
            proof {
                assert(self@[n as int - 1] == self.labels@[n as int - 1]@);
                assert(ends_in_pointer(self@));
                assert(w.buf@ =~= base + spec_pack_name(self@));
            }
        } else {
            w.write_u8(0);
            proof {
                if n > 0 {
                    assert(self@[n as int - 1] == self.labels@[n as int - 1]@);
                }
                assert(!ends_in_pointer(self@));
                assert(w.buf@ =~= base + spec_pack_name(self@));
            }
        }
        Ok(())
    }

    /// Build a name from dotted text: the text splits at every dot into
    /// literal labels, so that the labels' texts joined with dots give the
    /// input back.  Every label holds valid UTF-8: the labels are pieces of
    /// the input text cut at whole characters.
    pub fn new(s: &str) -> (r: Self)
        ensures
            r@ == labels_of_pieces(spec_split_dots(s.spec_bytes())),
            r@.len() >= 1,
            forall|i: int|
                0 <= i < r@.len() ==> match #[trigger] r@[i] {
                    SpecLabel::Literal(b) => !b.contains(0x2eu8) && valid_utf8(b),
                    SpecLabel::Pointer(_) => false,
                },
            spec_text_join(r@) == s.spec_bytes(),
    {
        let bv = s.as_bytes_vec();
        let n = bv.len();
        proof {
            vstd::utf8::encode_utf8_valid_utf8(s@);
            assert(bv@.subrange(0, 0) =~= Seq::<u8>::empty());
            assert(bv@.skip(0) =~= bv@);
            assert(Seq::<SpecLabel>::empty().push(SpecLabel::Literal(Seq::<u8>::empty()))
                =~= labels_of_pieces(spec_split_dots(bv@.subrange(0, 0))));
        }
        let mut labels: Vec<Label> = Vec::new();
        let mut cur: Vec<u8> = Vec::new();
        let mut i: usize = 0;
        while i < n
            invariant
                i <= n,
                n == bv@.len(),
                bv@ == s.spec_bytes(),
                valid_utf8(bv@),
                forall|j: int|
                    0 <= j < labels@.len() ==> match #[trigger] labels@[j]@ {
                        SpecLabel::Literal(b) => !b.contains(0x2eu8) && valid_utf8(b),
                        SpecLabel::Pointer(_) => false,
                    },
                !cur@.contains(0x2eu8),
                cur@.len() <= i,
                cur@ == bv@.subrange(i as int - cur@.len(), i as int),
                valid_utf8(bv@.skip(i as int - cur@.len())),
                labels@.map_values(|l: Label| l@).push(SpecLabel::Literal(cur@))
                    == labels_of_pieces(spec_split_dots(bv@.subrange(0, i as int))),
                spec_text_join(
                    labels@.map_values(|l: Label| l@).push(SpecLabel::Literal(cur@)),
                ) == bv@.subrange(0, i as int),
            decreases n - i,
        {
            let ghost model = labels@.map_values(|l: Label| l@);
            let ghost curv = cur@;
            let ghost start = i as int - cur@.len();
            let b = bv[i];
            proof {
                // The current piece stays valid UTF-8: it runs from the
                // last dot (or the start) to the next dot (or the end).
                let tail = bv@.skip(start);
                assert(tail[i - start] == bv@[i as int]);
                if b == 0x2e {
                    lemma_split_at_dot(tail, i - start);
                    assert(tail.subrange(0, i - start) =~= bv@.subrange(start, i as int));
                    assert(valid_utf8(curv));
                    assert(tail.subrange(i - start + 1, tail.len() as int) =~= bv@.skip(i + 1));
                    assert(valid_utf8(bv@.skip(i + 1)));
                }
            }
            if b == 0x2e {
                labels.push(Label::Literal(cur));
                cur = Vec::new();
                proof {
                    assert(cur@ =~= bv@.subrange(i + 1 - cur@.len(), i + 1));
                    let model2 = labels@.map_values(|l: Label| l@);
                    assert(model2 =~= model.push(SpecLabel::Literal(curv)));
                    let pushed = model2.push(SpecLabel::Literal(Seq::<u8>::empty()));
                    assert(pushed.drop_last() =~= model2);
                    assert(pushed.len() >= 2);
                    assert(pushed.last() == SpecLabel::Literal(Seq::<u8>::empty()));
                    assert(spec_label_text(pushed.last()) =~= Seq::<u8>::empty());
                    assert(spec_text_join(pushed) == spec_text_join(model2) + seq![0x2eu8]
                        + spec_label_text(pushed.last()));
                    assert(spec_text_join(model2) == bv@.subrange(0, i as int));
                    assert(spec_text_join(pushed) =~= bv@.subrange(0, i + 1));
                    // The split gains an empty piece at the dot.
                    let t2 = bv@.subrange(0, i + 1);
                    assert(t2.last() == 0x2eu8);
                    assert(t2.drop_last() =~= bv@.subrange(0, i as int));
                    assert(spec_split_dots(t2) == spec_split_dots(bv@.subrange(0, i as int)).push(
                        Seq::<u8>::empty(),
                    ));
                    assert(pushed =~= labels_of_pieces(spec_split_dots(t2))) by {
                        let ps = spec_split_dots(bv@.subrange(0, i as int));
                        assert(forall|j: int|
                            0 <= j < ps.len() ==> #[trigger] (labels_of_pieces(ps.push(
                                Seq::<u8>::empty(),
                            ))[j]) == labels_of_pieces(ps)[j]);
                        assert(labels_of_pieces(ps.push(Seq::<u8>::empty()))[ps.len() as int]
                            == SpecLabel::Literal(Seq::<u8>::empty()));
                    }
                }
            } else {
                cur.push(b);
                proof {
                    assert(cur@ =~= bv@.subrange(i as int + 1 - cur@.len(), i + 1)) by {
                        assert(forall|j: int| 0 <= j < curv.len() ==> cur@[j] == curv[j]);
                    }
                    let model2 = model.push(SpecLabel::Literal(cur@));
                    assert(cur@ =~= curv.push(b));
                    assert(!cur@.contains(0x2eu8)) by {
                        assert(forall|j: int| 0 <= j < curv.len() ==> cur@[j] == curv[j]);
                        assert(cur@.last() == b);
                    }
                    let prev = model.push(SpecLabel::Literal(curv));
                    assert(spec_text_join(prev) == bv@.subrange(0, i as int));
                    // Extending the last label's text appends the byte to
                    // the joined text.
                    if model.len() == 0 {
                        assert(model2.len() == 1);
                        assert(spec_text_join(model2) == spec_label_text(model2[0]));
                        assert(spec_text_join(prev) == spec_label_text(prev[0]));
                        assert(spec_text_join(model2) =~= spec_text_join(prev).push(b));
                    } else {
                        assert(model2.drop_last() =~= model);
                        assert(prev.drop_last() =~= model);
                        assert(spec_text_join(model2) == spec_text_join(model) + seq![0x2eu8]
                            + spec_label_text(model2.last()));
                        assert(spec_text_join(prev) == spec_text_join(model) + seq![0x2eu8]
                            + spec_label_text(prev.last()));
                        assert(spec_text_join(model2) =~= spec_text_join(prev).push(b));
                    }
                    assert(spec_text_join(prev).push(b) =~= bv@.subrange(0, i + 1));
                    // The split extends its final piece with the byte.
                    let t2 = bv@.subrange(0, i + 1);
                    assert(t2.last() == b && b != 0x2eu8);
                    assert(t2.drop_last() =~= bv@.subrange(0, i as int));
                    let ps = spec_split_dots(bv@.subrange(0, i as int));
                    lemma_split_dots_len(bv@.subrange(0, i as int));
                    assert(spec_split_dots(t2) == ps.update(ps.len() - 1, ps.last().push(b)));
                    assert(prev == labels_of_pieces(ps));
                    assert(labels_of_pieces(ps).len() == ps.len());
                    assert(ps.len() == model.len() + 1);
                    assert(labels_of_pieces(ps)[ps.len() - 1] == SpecLabel::Literal(ps.last()));
                    assert(prev[ps.len() - 1] == SpecLabel::Literal(curv));
                    assert(ps.last() == curv);
                    assert(model2 =~= labels_of_pieces(spec_split_dots(t2))) by {
                        let ps2 = spec_split_dots(t2);
                        assert(ps2.len() == ps.len());
                        assert(forall|j: int|
                            0 <= j < ps.len() - 1 ==> #[trigger] ps2[j] == ps[j]);
                        assert(ps2[ps.len() - 1] == curv.push(b));
                        assert(forall|j: int|
                            0 <= j < ps2.len() ==> #[trigger] (labels_of_pieces(ps2)[j])
                                == SpecLabel::Literal(ps2[j]));
                        assert(forall|j: int|
                            0 <= j < model.len() ==> #[trigger] model2[j] == prev[j]);
                        assert(model2[model.len() as int] == SpecLabel::Literal(cur@));
                        assert(cur@ =~= curv.push(b));
                    }
                }
            }
            i = i + 1;
        }
        let ghost model = labels@.map_values(|l: Label| l@);
        let ghost curv = cur@;
        proof {
            // The final piece is the tail of the text from the last dot on.
            assert(curv =~= bv@.skip(n as int - curv.len()));
            assert(valid_utf8(curv));
        }
        labels.push(Label::Literal(cur));
        proof {
            assert(labels@.map_values(|l: Label| l@) =~= model.push(SpecLabel::Literal(curv)));
            assert(bv@.subrange(0, n as int) =~= bv@);
        }
        MDNSFQDN { labels }
    }

    /// The name's text as raw bytes: the labels' texts joined with dots.
    pub fn display_bytes(&self) -> (r: Vec<u8>)
        ensures
            r@ == spec_text_join(self@),
    {
        let n = self.labels.len();
        let mut r: Vec<u8> = Vec::new();
        let mut i: usize = 0;
        while i < n
            invariant
                i <= n,
                n == self.labels@.len(),
                r@ == spec_text_join(self@.subrange(0, i as int)),
            decreases n - i,
        {
            let ghost prefix = self@.subrange(0, i as int);
            let ghost prefix2 = self@.subrange(0, i + 1);
            proof {
                assert(prefix2.drop_last() =~= prefix);
                assert(prefix2.last() == self@[i as int]);
                assert(self@[i as int] == self.labels@[i as int]@);
            }
            if i > 0 {
                r.push(0x2e);
            }
            match &self.labels[i] {
                Label::Literal(v) => {
                    let mut j: usize = 0;
                    let ghost base = r@;
                    while j < v.len()
                        invariant
                            j <= v@.len(),
                            r@ == base + v@.subrange(0, j as int),
                        decreases v@.len() - j,
                    {
                        r.push(v[j]);
                        proof {
                            assert(r@ =~= base + v@.subrange(0, j + 1));
                        }
                        j = j + 1;
                    }
                    proof {
                        assert(v@.subrange(0, v@.len() as int) =~= v@);
                        assert(spec_label_text(self@[i as int]) == v@);
                    }
                },
                Label::Pointer(p) => {
                    r.push(0x3c);
                    r.push(0x3c);
                    r.push(0x23);
                    let digits = dec_bytes(*p);
                    let mut j: usize = 0;
                    let ghost base = r@;
                    while j < digits.len()
                        invariant
                            j <= digits@.len(),
                            r@ == base + digits@.subrange(0, j as int),
                        decreases digits@.len() - j,
                    {
                        r.push(digits[j]);
                        proof {
                            assert(r@ =~= base + digits@.subrange(0, j + 1));
                        }
                        j = j + 1;
                    }
                    r.push(0x3e);
                    r.push(0x3e);
                    proof {
                        assert(digits@.subrange(0, digits@.len() as int) =~= digits@);
                        assert(r@ =~= base + digits@ + seq![0x3eu8, 0x3eu8]);
                        assert(spec_label_text(self@[i as int]) =~= seq![0x3cu8, 0x3cu8, 0x23u8]
                            + spec_dec_bytes(*p as nat) + seq![0x3eu8, 0x3eu8]);
                    }
                },
            }
            proof {
                if i == 0 {
                    assert(prefix2.len() == 1);
                    assert(spec_text_join(prefix2) == spec_label_text(prefix2[0]));
                    assert(r@ =~= spec_text_join(prefix2));
                } else {
                    assert(spec_text_join(prefix2) == spec_text_join(prefix) + seq![0x2eu8]
                        + spec_label_text(prefix2.last()));
                    assert(r@ =~= spec_text_join(prefix2));
                }
            }
            i = i + 1;
        }
        proof {
            assert(self@.subrange(0, n as int) =~= self@);
        }
        r
    }

    /// The name's text: its labels' texts joined with dots.  Whenever the
    /// literal labels hold valid UTF-8 — decoding guarantees they do — the
    /// returned string's encoding is exactly those joined bytes.
    pub fn to_string(&self) -> (r: String)
        ensures
            name_labels_utf8(self@) ==> vstd::utf8::encode_utf8(r@) == spec_text_join(self@),
    {
        let bytes = self.display_bytes();
        proof {
            if name_labels_utf8(self@) {
                lemma_text_join_utf8(self@);
            }
        }
        lossy_string(&bytes)
    }

    /// The labels of this name, as an owned vector.
    pub fn get_labels(&self) -> (r: Vec<Label>)
        ensures
            r@.map_values(|l: Label| l@) == self@,
    {
        let n = self.labels.len();
        let mut r: Vec<Label> = Vec::new();
        let mut i: usize = 0;
        while i < n
            invariant
                i <= n,
                n == self.labels@.len(),
                r@.map_values(|l: Label| l@) =~= self@.subrange(0, i as int),
            decreases n - i,
        {
            let copy = match &self.labels[i] {
                Label::Literal(v) => Label::Literal(copy_bytes(v)),
                Label::Pointer(p) => Label::Pointer(*p),
            };
            proof {
                assert(copy@ == self.labels@[i as int]@);
            }
            let ghost rv = r@;
            r.push(copy);
            proof {
                assert(rv.map_values(|l: Label| l@).len() == rv.len());
                assert(rv.len() == i);
                assert(r@ == rv.push(copy));
                assert forall|j: int| 0 <= j < i + 1 implies r@.map_values(|l: Label| l@)[j]
                    == #[trigger] (self@.subrange(0, i + 1)[j]) by {
                    if j < i {
                        assert(r@[j] == rv[j]);
                        assert(rv.map_values(|l: Label| l@)[j] == self@.subrange(0, i as int)[j]);
                    } else {
                        assert(r@[j] == copy);
                    }
                }
                assert(r@.map_values(|l: Label| l@) =~= self@.subrange(0, i + 1));
            }
            i = i + 1;
        }
        proof {
            assert(self@.subrange(0, n as int) =~= self@);
        }
        r
    }
}

} // verus!
