use mdns_browser::cursor::{BitReader, BitWriter};
use mdns_browser::error::DecodeError;
use mdns_browser::fqdn::{Label, MDNSFQDN};
use mdns_browser::resolve::ResolveCache;

fn pack_name(name: &MDNSFQDN) -> Vec<u8> {
    let mut w = BitWriter::new();
    name.pack(&mut w).unwrap();
    w.into_bytes()
}

#[test]
fn name_encodes_length_prefixed_labels() {
    let name = MDNSFQDN::new("_http._tcp.local");
    assert_eq!(pack_name(&name), b"\x05_http\x04_tcp\x05local\x00".to_vec());
}

#[test]
fn name_to_string_joins_with_dots() {
    let name = MDNSFQDN::new("_http._tcp.local");
    assert_eq!(name.to_string(), "_http._tcp.local");
}

#[test]
fn pointer_label_shows_its_offset() {
    let name = MDNSFQDN { labels: vec![Label::Literal(b"x".to_vec()), Label::Pointer(8412)] };
    assert_eq!(name.to_string(), "x.<<#8412>>");
}

#[test]
fn name_round_trips_through_bytes() {
    let name = MDNSFQDN::new("printer._ipp._tcp.local");
    let bytes = pack_name(&name);
    let mut r = BitReader::new(&bytes);
    let back = MDNSFQDN::unpack(&mut r).unwrap();
    assert_eq!(back, name);
    assert_eq!(r.pos, 8 * bytes.len());
}

#[test]
fn root_name_is_a_single_terminator() {
    let name = MDNSFQDN { labels: vec![] };
    let bytes = pack_name(&name);
    assert_eq!(bytes, vec![0x00]);
    let mut r = BitReader::new(&bytes);
    let back = MDNSFQDN::unpack(&mut r).unwrap();
    assert_eq!(back.labels.len(), 0);
}

#[test]
fn name_decode_consumes_pointer_and_stops() {
    let bytes = vec![0x00, 0x00, 0x03, b'w', b'w', b'w', 0xC0, 0x00];
    let mut r = mdns_browser::cursor::BitReader::new_at_byte(&bytes, 2);
    let name = MDNSFQDN::unpack(&mut r).unwrap();
    assert_eq!(
        name.labels,
        vec![Label::Literal(b"www".to_vec()), Label::Pointer(0)]
    );
}

#[test]
fn forward_pointer_is_rejected_at_decode_time() {
    // The pointer at offset 2 targets offset 4, ahead of itself.
    let bytes = vec![0x00, 0x00, 0xC0, 0x04, 0x00];
    let mut r = mdns_browser::cursor::BitReader::new_at_byte(&bytes, 2);
    assert_eq!(MDNSFQDN::unpack(&mut r), Err(DecodeError::InvalidPointer));
}

#[test]
fn invalid_utf8_label_is_rejected() {
    let bytes = vec![0x01, 0xFF, 0x00];
    let mut r = BitReader::new(&bytes);
    assert_eq!(MDNSFQDN::unpack(&mut r), Err(DecodeError::InvalidUtf8Label));
}

#[test]
fn truncated_name_is_out_of_data() {
    let bytes = vec![0x05, b'h', b'i'];
    let mut r = BitReader::new(&bytes);
    assert_eq!(MDNSFQDN::unpack(&mut r), Err(DecodeError::OutOfData));
}

#[test]
fn pointer_resolution_matches_literal_name() {
    // A literal name sits at offset 0 of the buffer; a second name refers
    // to it with a trailing pointer.  Both resolve to the same text.
    let buffer = b"\x05_http\x04_tcp\x05local\x00".to_vec();
    let mut compressed = MDNSFQDN {
        labels: vec![Label::Literal(b"printer".to_vec()), Label::Pointer(0)],
    };
    let mut literal = MDNSFQDN::new("printer._http._tcp.local");
    let mut cache = ResolveCache::new();
    compressed.resolve(&buffer, &mut cache).unwrap();
    literal.resolve(&buffer, &mut cache).unwrap();
    assert_eq!(compressed.to_string(), "printer._http._tcp.local");
    assert_eq!(compressed.to_string(), literal.to_string());
    assert_eq!(compressed.get_labels(), literal.get_labels());
}

#[test]
fn self_pointer_is_rejected_not_chased() {
    // The name at offset 2 is a pointer targeting offset 2 itself.
    let buffer = vec![0x00, 0x00, 0xC0, 0x02];
    let mut name = MDNSFQDN { labels: vec![Label::Pointer(2)] };
    let mut cache = ResolveCache::new();
    assert_eq!(
        name.resolve(&buffer, &mut cache),
        Err(DecodeError::InvalidPointer)
    );
}

#[test]
fn resolution_memoizes_repeated_targets() {
    let buffer = b"\x03www\x00".to_vec();
    let mut cache = ResolveCache::new();
    let mut first = MDNSFQDN { labels: vec![Label::Pointer(0)] };
    let mut second = MDNSFQDN { labels: vec![Label::Pointer(0)] };
    first.resolve(&buffer, &mut cache).unwrap();
    second.resolve(&buffer, &mut cache).unwrap();
    assert_eq!(first.to_string(), "www");
    assert_eq!(second.to_string(), "www");
}

#[test]
fn long_label_decodes_but_cannot_be_reencoded() {
    // A length byte of 0x45 (69, with a reserved top bit set) is read as a
    // 69-byte literal label; writing it back out is refused because a
    // literal label's length field only carries six bits.
    let mut bytes = vec![0x45u8];
    bytes.extend_from_slice(&[b'a'; 69]);
    bytes.push(0x00);
    let mut r = BitReader::new(&bytes);
    let name = MDNSFQDN::unpack(&mut r).unwrap();
    assert_eq!(name.labels, vec![Label::Literal(vec![b'a'; 69])]);
    let mut w = BitWriter::new();
    assert_eq!(name.pack(&mut w), Err(DecodeError::OversizedField));
}

#[test]
fn pointer_past_buffer_end_is_invalid() {
    // A hand-built pointer targeting an offset past the end of the buffer
    // is an invalid pointer, not a plain short read.
    let buffer = vec![0x00, 0x00];
    let mut name = MDNSFQDN { labels: vec![Label::Pointer(7)] };
    let mut cache = ResolveCache::new();
    assert_eq!(
        name.resolve(&buffer, &mut cache),
        Err(DecodeError::InvalidPointer)
    );
}
