use mdns_browser::fqdn::Label;
use mdns_browser::packet::MDNSPacket;
use mdns_browser::rtype::MDNSTYPE;

fn known_query_packet_bytes() -> Vec<u8> {
    // Header: transaction id 0x1234, no flags, one question.
    let mut out: Vec<u8> = vec![
        0x12, 0x34, 0x00, 0x00, 0x00, 0x01, 0x00, 0x00, 0x00, 0x00, 0x00, 0x00,
    ];
    // Query: name "_http._tcp.local", type PTR, unicast | class IN.
    out.extend_from_slice(b"\x05_http\x04_tcp\x05local\x00");
    out.extend_from_slice(&[0x00, 0x0c, 0x80, 0x01]);
    out
}

#[test]
fn test_mdns_packet() {
    let mut packet = MDNSPacket::new("_http._tcp.local", MDNSTYPE::PTR);
    packet.header.transaction_id = 0x1234;
    assert_eq!(packet.pack().unwrap(), known_query_packet_bytes());
}

#[test]
fn packet_round_trips_through_bytes() {
    let mut packet = MDNSPacket::new("_http._tcp.local", MDNSTYPE::PTR);
    packet.header.transaction_id = 0x1234;
    let bytes = packet.pack().unwrap();
    let back = MDNSPacket::unpack(&bytes).unwrap();
    assert_eq!(back, packet);
}

#[test]
fn scenario_known_bytes_decode_and_reencode() {
    // Header bytes 1234 0000 0001 0000 0000 0000, then the query
    // "_http._tcp.local", type PTR, class field 8001.
    let bytes = known_query_packet_bytes();
    let packet = MDNSPacket::unpack(&bytes).unwrap();
    assert_eq!(packet.header.transaction_id, 0x1234);
    assert_eq!(packet.header.questions, 1);
    assert_eq!(packet.queries.len(), 1);
    let q = &packet.queries[0];
    assert_eq!(q.qname.to_string(), "_http._tcp.local");
    assert_eq!(q.qtype, MDNSTYPE::PTR);
    // Unicast-response flag set, class 1 (IN).
    assert_eq!(q.qu_qclass, 0x8001);
    assert_eq!(q.qu_qclass & 0x7fff, 1);
    assert!(q.qu_qclass & 0x8000 != 0);
    assert_eq!(packet.pack().unwrap(), bytes);
}

#[test]
fn constructed_name_splits_on_dots() {
    let packet = MDNSPacket::new("_http._tcp.local", MDNSTYPE::PTR);
    let labels = packet.queries[0].qname.get_labels();
    let expect: Vec<Label> = vec![
        Label::Literal(b"_http".to_vec()),
        Label::Literal(b"_tcp".to_vec()),
        Label::Literal(b"local".to_vec()),
    ];
    assert_eq!(labels, expect);
}

#[test]
fn oversized_label_is_rejected_at_encode_time() {
    let long = "a".repeat(64);
    let name = format!("{}.local", long);
    let packet = MDNSPacket::new(&name, MDNSTYPE::A);
    assert_eq!(
        packet.pack(),
        Err(mdns_browser::error::DecodeError::OversizedField)
    );
}
