use mdns_browser::cursor::{BitReader, BitWriter};
use mdns_browser::error::DecodeError;
use mdns_browser::pack::BoolU15;

fn pack_field(b: BoolU15) -> Vec<u8> {
    let mut w = BitWriter::new();
    b.pack(&mut w);
    w.into_bytes()
}

#[test]
fn literal_bit_pattern() {
    // The flag lands in the top bit and the value fills the remaining
    // fifteen, most significant bit first.
    let field = BoolU15::new(true, 8412).unwrap();
    assert_eq!(pack_field(field), vec![0b1010_0000, 0b1101_1100]);
}

#[test]
fn compound_field_round_trip() {
    // Every packed flag and 15-bit value decodes back to itself.
    let cases: Vec<(bool, u16)> = vec![
        (false, 0),
        (true, 0),
        (false, 1),
        (true, 1),
        (true, 8412),
        (false, 0x7fff),
        (true, 0x7fff),
        (true, 0x2dc),
    ];
    for (flag, value) in cases {
        let field = BoolU15::new(flag, value).unwrap();
        let bytes = pack_field(field);
        let mut r = BitReader::new(&bytes);
        let back = BoolU15::unpack(&mut r).unwrap();
        assert_eq!(back.flag, flag);
        assert_eq!(back.value, value);
    }
}

#[test]
fn oversized_value_is_rejected_at_encode_time() {
    assert_eq!(BoolU15::new(false, 0x8000), Err(DecodeError::OversizedField));
    assert_eq!(BoolU15::new(true, 0xffff), Err(DecodeError::OversizedField));
}

#[test]
fn unpack_needs_two_bytes() {
    let bytes = vec![0xa0];
    let mut r = BitReader::new(&bytes);
    assert_eq!(BoolU15::unpack(&mut r), Err(DecodeError::OutOfData));
}

#[test]
fn reader_reads_fixed_widths_big_endian() {
    let bytes = vec![0x12, 0x34, 0x56, 0x78, 0x9a, 0xbc, 0xde];
    let mut r = BitReader::new(&bytes);
    assert_eq!(r.read_u8().unwrap(), 0x12);
    assert_eq!(r.read_u16().unwrap(), 0x3456);
    assert_eq!(r.read_u32().unwrap(), 0x789a_bcde);
    assert_eq!(r.read_u8(), Err(DecodeError::OutOfData));
}

#[test]
fn reader_reads_arbitrary_bit_widths() {
    let bytes = vec![0b1010_0000, 0b1101_1100];
    let mut r = BitReader::new(&bytes);
    assert_eq!(r.peek_bits(1).unwrap(), 1);
    assert_eq!(r.read_bits(1).unwrap(), 1);
    assert_eq!(r.read_bits(15).unwrap(), 8412);
    assert_eq!(r.read_bits(1), Err(DecodeError::OutOfData));
}

#[test]
fn reader_reads_byte_runs() {
    let bytes = vec![1, 2, 3, 4, 5];
    let mut r = BitReader::new(&bytes);
    assert_eq!(r.read_u8().unwrap(), 1);
    assert_eq!(r.read_bytes(3).unwrap(), vec![2, 3, 4]);
    assert_eq!(r.read_bytes(2), Err(DecodeError::OutOfData));
}

#[test]
fn writer_packs_bits_most_significant_first() {
    let mut w = BitWriter::new();
    w.write_bits(1, 1);
    w.write_bits(8412, 15);
    assert_eq!(w.into_bytes(), vec![0b1010_0000, 0b1101_1100]);
}

#[test]
fn writer_and_reader_agree_on_mixed_widths() {
    let mut w = BitWriter::new();
    w.write_bits(0b101, 3);
    w.write_bits(0x3ff, 13);
    w.write_u16(0xbeef);
    let bytes = w.into_bytes();
    let mut r = BitReader::new(&bytes);
    assert_eq!(r.read_bits(3).unwrap(), 0b101);
    assert_eq!(r.read_bits(13).unwrap(), 0x3ff);
    assert_eq!(r.read_u16().unwrap(), 0xbeef);
}

#[test]
fn read_u16s_be_reads_all_or_nothing() {
    let bytes = vec![0x00, 0x01, 0x00, 0x02, 0x00, 0x03];
    let mut r = BitReader::new(&bytes);
    let v = mdns_browser::util::read_u16s_be(&mut r, 3).unwrap();
    assert_eq!(v, vec![1, 2, 3]);
    let mut r2 = BitReader::new(&bytes);
    assert_eq!(
        mdns_browser::util::read_u16s_be(&mut r2, 4),
        Err(DecodeError::OutOfData)
    );
    assert_eq!(r2.pos, 0);
}
