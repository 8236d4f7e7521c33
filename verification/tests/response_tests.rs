use mdns_browser::error::DecodeError;
use mdns_browser::response::MDNSResponse;
use mdns_browser::rtype::MDNSTYPE;

fn response_header(questions: u16, answers: u16, authorities: u16, additional: u16) -> Vec<u8> {
    let mut out: Vec<u8> = vec![0x12, 0x34, 0x84, 0x00];
    out.extend_from_slice(&questions.to_be_bytes());
    out.extend_from_slice(&answers.to_be_bytes());
    out.extend_from_slice(&authorities.to_be_bytes());
    out.extend_from_slice(&additional.to_be_bytes());
    out
}

/// A response with one query and one PTR answer whose name and record data
/// both use compression pointers back to the query's name at offset 12.
fn compressed_ptr_response() -> Vec<u8> {
    let mut out = response_header(1, 1, 0, 0);
    // Query at offset 12: "_http._tcp.local" PTR IN.
    out.extend_from_slice(b"\x05_http\x04_tcp\x05local\x00");
    out.extend_from_slice(&[0x00, 0x0c, 0x00, 0x01]);
    // Answer at offset 34: name = pointer to 12, PTR, cache-flush | IN,
    // ttl 120, rdata of two bytes holding a pointer to 12.
    out.extend_from_slice(&[0xC0, 0x0C]);
    out.extend_from_slice(&[0x00, 0x0c, 0x80, 0x01]);
    out.extend_from_slice(&[0x00, 0x00, 0x00, 0x78]);
    out.extend_from_slice(&[0x00, 0x02, 0xC0, 0x0C]);
    out
}

#[test]
fn response_resolves_compressed_names_and_rdata() {
    let bytes = compressed_ptr_response();
    let resp = MDNSResponse::unpack(&bytes).unwrap();
    assert_eq!(resp.header.transaction_id, 0x1234);
    assert_eq!(resp.queries.len(), 1);
    assert_eq!(resp.answers.len(), 1);
    let answer = &resp.answers[0];
    assert_eq!(answer.rr_name.to_string(), "_http._tcp.local");
    assert_eq!(answer.rr_type, MDNSTYPE::PTR);
    assert_eq!(answer.cache_flush_rr_class, 0x8001);
    assert_eq!(answer.ttl, 120);
    // The transmitted length counts the pointer bytes; after resolution
    // the pointer is gone and the text it named is appended to the data.
    assert_eq!(answer.rd_length, 2);
    assert_eq!(answer.r_data, b"_http._tcp.local".to_vec());
    assert!(answer.r_data_pointer.is_none());
}

#[test]
fn count_fidelity_exact_counts_or_error() {
    // A response announcing two answers yields exactly two.
    let mut two = response_header(0, 2, 0, 0);
    for _ in 0..2 {
        two.extend_from_slice(b"\x03www\x00");
        two.extend_from_slice(&[0x00, 0x01, 0x00, 0x01]);
        two.extend_from_slice(&[0x00, 0x00, 0x00, 0x3c]);
        two.extend_from_slice(&[0x00, 0x04, 10, 0, 0, 1]);
    }
    let resp = MDNSResponse::unpack(&two).unwrap();
    assert_eq!(resp.answers.len(), 2);
    assert_eq!(resp.answers.len(), resp.header.answer_rrs as usize);

    // The same bytes announcing three answers never yield a shorter
    // message: decoding fails instead.
    let mut three = two.clone();
    three[7] = 3;
    assert_eq!(MDNSResponse::unpack(&three), Err(DecodeError::OutOfData));
}

#[test]
fn cyclic_pointer_chain_is_rejected() {
    // The answer's name at offset 12 is a pointer targeting offset 12
    // itself: decoding reports the invalid pointer instead of looping.
    let mut bytes = response_header(0, 1, 0, 0);
    bytes.extend_from_slice(&[0xC0, 0x0C]);
    bytes.extend_from_slice(&[0x00, 0x0c, 0x80, 0x01]);
    bytes.extend_from_slice(&[0x00, 0x00, 0x00, 0x78]);
    bytes.extend_from_slice(&[0x00, 0x00]);
    assert_eq!(MDNSResponse::unpack(&bytes), Err(DecodeError::InvalidPointer));
}

#[test]
fn later_offset_pointer_is_rejected() {
    // The pointer at offset 12 targets offset 20, ahead of itself.
    let mut bytes = response_header(0, 1, 0, 0);
    bytes.extend_from_slice(&[0xC0, 0x14]);
    bytes.extend_from_slice(&[0x00, 0x0c, 0x80, 0x01]);
    bytes.extend_from_slice(&[0x00, 0x00, 0x00, 0x78]);
    bytes.extend_from_slice(&[0x00, 0x00]);
    assert_eq!(MDNSResponse::unpack(&bytes), Err(DecodeError::InvalidPointer));
}

#[test]
fn unknown_record_type_is_rejected() {
    let mut bytes = response_header(1, 0, 0, 0);
    bytes.extend_from_slice(b"\x03www\x00");
    bytes.extend_from_slice(&9999u16.to_be_bytes());
    bytes.extend_from_slice(&[0x00, 0x01]);
    assert_eq!(
        MDNSResponse::unpack(&bytes),
        Err(DecodeError::UnknownRecordType)
    );
}

#[test]
fn truncated_header_is_out_of_data() {
    let bytes = vec![0x12, 0x34, 0x00];
    assert_eq!(MDNSResponse::unpack(&bytes), Err(DecodeError::OutOfData));
}

#[test]
fn non_compressible_rdata_keeps_pointer_like_bytes() {
    // A TXT record's data may end in bytes that look like a pointer tag;
    // they stay literal because TXT is not in the compressible set.
    let mut bytes = response_header(0, 1, 0, 0);
    bytes.extend_from_slice(b"\x03www\x00");
    bytes.extend_from_slice(&[0x00, 0x10, 0x00, 0x01]);
    bytes.extend_from_slice(&[0x00, 0x00, 0x00, 0x3c]);
    bytes.extend_from_slice(&[0x00, 0x02, 0xC0, 0x0C]);
    let resp = MDNSResponse::unpack(&bytes).unwrap();
    let answer = &resp.answers[0];
    assert_eq!(answer.rr_type, MDNSTYPE::TXT);
    assert_eq!(answer.r_data, vec![0xC0, 0x0C]);
    assert!(answer.r_data_pointer.is_none());
}

#[test]
fn record_lookup_finds_first_of_type() {
    let bytes = compressed_ptr_response();
    let resp = MDNSResponse::unpack(&bytes).unwrap();
    let found = resp.get_resource_record_of_type(MDNSTYPE::PTR).unwrap();
    assert_eq!(found, resp.answers[0]);
    assert!(resp.get_resource_record_of_type(MDNSTYPE::AAAA).is_none());
}

#[test]
fn record_listing_chains_all_sections() {
    let bytes = compressed_ptr_response();
    let resp = MDNSResponse::unpack(&bytes).unwrap();
    let all = resp.get_resource_records();
    assert_eq!(all.len(), 1);
    assert_eq!(all[0], resp.answers[0]);
}

#[test]
fn record_type_codes_follow_standard_assignments() {
    assert_eq!(MDNSTYPE::A.code(), 1);
    assert_eq!(MDNSTYPE::PTR.code(), 12);
    assert_eq!(MDNSTYPE::TXT.code(), 16);
    assert_eq!(MDNSTYPE::AAAA.code(), 28);
    assert_eq!(MDNSTYPE::SRV.code(), 33);
    assert_eq!(MDNSTYPE::from_code(12), Some(MDNSTYPE::PTR));
    assert_eq!(MDNSTYPE::from_code(32769), Some(MDNSTYPE::DLV));
    assert_eq!(MDNSTYPE::from_code(9999), None);
}

#[test]
fn short_rdata_of_compressible_type_is_not_pointer_checked() {
    // A PTR record whose data is shorter than a pointer cannot hold one;
    // its single byte stays literal and decoding does not fail.
    let mut bytes = response_header(0, 1, 0, 0);
    bytes.extend_from_slice(b"\x03www\x00");
    bytes.extend_from_slice(&[0x00, 0x0c, 0x00, 0x01]);
    bytes.extend_from_slice(&[0x00, 0x00, 0x00, 0x3c]);
    bytes.extend_from_slice(&[0x00, 0x01, 0x41]);
    let resp = MDNSResponse::unpack(&bytes).unwrap();
    let answer = &resp.answers[0];
    assert_eq!(answer.rd_length, 1);
    assert_eq!(answer.r_data, vec![0x41]);
    assert!(answer.r_data_pointer.is_none());
}

#[test]
fn empty_rdata_decodes() {
    let mut bytes = response_header(0, 1, 0, 0);
    bytes.extend_from_slice(b"\x03www\x00");
    bytes.extend_from_slice(&[0x00, 0x0c, 0x00, 0x01]);
    bytes.extend_from_slice(&[0x00, 0x00, 0x00, 0x3c]);
    bytes.extend_from_slice(&[0x00, 0x00]);
    let resp = MDNSResponse::unpack(&bytes).unwrap();
    assert_eq!(resp.answers[0].rd_length, 0);
    assert!(resp.answers[0].r_data.is_empty());
}
