use ontio_contract_core::address::Address;
use ontio_contract_core::codec::{DecodeError, Sink, Source};
use ontio_contract_core::hex::read_hex;

fn round_trip_varuint(v: u64, len: usize) {
    let mut sink = Sink::new();
    sink.write_varuint(v);
    let bytes = sink.into_bytes();
    assert_eq!(bytes.len(), len);
    let mut src = Source::new(bytes);
    assert_eq!(src.read_varuint(), Ok(v));
    assert_eq!(src.remaining(), 0);
}

#[test]
fn fixed_width_round_trip() {
    let mut sink = Sink::new();
    sink.write_byte(0xAB);
    sink.write_u16(0x1234);
    sink.write_u32(0xDEAD_BEEF);
    sink.write_u64(0x0102_0304_0506_0708);
    sink.write_u128(u128::MAX - 5);
    sink.write_bool(true);
    sink.write_bool(false);
    let bytes = sink.into_bytes();
    assert_eq!(bytes.len(), 1 + 2 + 4 + 8 + 16 + 2);
    let mut src = Source::new(bytes);
    assert_eq!(src.read_byte(), Ok(0xAB));
    assert_eq!(src.read_u16(), Ok(0x1234));
    assert_eq!(src.read_u32(), Ok(0xDEAD_BEEF));
    assert_eq!(src.read_u64(), Ok(0x0102_0304_0506_0708));
    assert_eq!(src.read_u128(), Ok(u128::MAX - 5));
    assert_eq!(src.read_bool(), Ok(true));
    assert_eq!(src.read_bool(), Ok(false));
    assert_eq!(src.remaining(), 0);
}

#[test]
fn little_endian_layout() {
    let mut sink = Sink::new();
    sink.write_u32(0x0403_0201);
    assert_eq!(sink.bytes(), &[1u8, 2, 3, 4][..]);
    let mut sink = Sink::new();
    sink.write_u64(0x32733);
    assert_eq!(sink.into_bytes(), vec![0x33, 0x27, 0x03, 0, 0, 0, 0, 0]);
}

#[test]
fn varuint_sizes_and_round_trip() {
    round_trip_varuint(0, 1);
    round_trip_varuint(0xFC, 1);
    round_trip_varuint(0xFD, 3);
    round_trip_varuint(0xFFFF, 3);
    round_trip_varuint(0x1_0000, 5);
    round_trip_varuint(0xFFFF_FFFF, 5);
    round_trip_varuint(0x1_0000_0000, 9);
    round_trip_varuint(u64::MAX, 9);
}

#[test]
fn varuint_exact_bytes() {
    let mut sink = Sink::new();
    sink.write_varuint(0xFD);
    assert_eq!(sink.into_bytes(), vec![0xFD, 0xFD, 0x00]);
}

#[test]
fn non_canonical_varuint_is_refused() {
    let mut src = Source::new(vec![0xFD, 0x05, 0x00]);
    assert_eq!(src.read_varuint(), Err(DecodeError::IrregularData));
    assert_eq!(src.remaining(), 3);
}

#[test]
fn var_bytes_round_trip() {
    let mut sink = Sink::new();
    sink.write_var_bytes(b"abc");
    sink.write_var_bytes(b"");
    sink.write_var_bytes(&[7u8; 300]);
    let bytes = sink.into_bytes();
    assert_eq!(&bytes[..4], &[3u8, b'a', b'b', b'c'][..]);
    let mut src = Source::new(bytes);
    assert_eq!(src.read_var_bytes(), Ok(b"abc".to_vec()));
    assert_eq!(src.read_var_bytes(), Ok(Vec::new()));
    assert_eq!(src.read_var_bytes(), Ok(vec![7u8; 300]));
    assert_eq!(src.remaining(), 0);
}

#[test]
fn address_round_trip() {
    let a = Address::from_slice(&[9u8; 20]).unwrap();
    let mut sink = Sink::new();
    sink.write_address(&a);
    sink.write_byte(1);
    let mut src = Source::new(sink.into_bytes());
    let b = src.read_address().unwrap();
    assert!(b.same_as(&a));
    assert_eq!(b.as_slice(), &[9u8; 20][..]);
    assert_eq!(src.read_byte(), Ok(1));
}

#[test]
fn address_needs_twenty_bytes() {
    assert!(Address::from_slice(&[1u8; 19]).is_none());
    assert!(Address::from_slice(&[1u8; 21]).is_none());
    assert_eq!(Address::zero().as_slice(), &[0u8; 20][..]);
}

#[test]
fn short_buffers_fail() {
    let mut src = Source::new(vec![1, 2, 3]);
    assert_eq!(src.read_u32(), Err(DecodeError::UnexpectedEof));
    assert_eq!(src.remaining(), 3);
    assert_eq!(src.read_u64(), Err(DecodeError::UnexpectedEof));
    assert_eq!(src.read_u128(), Err(DecodeError::UnexpectedEof));
    assert_eq!(src.read_address().err(), Some(DecodeError::UnexpectedEof));
    assert_eq!(Source::new(Vec::new()).read_byte(), Err(DecodeError::UnexpectedEof));
    assert_eq!(Source::new(Vec::new()).read_bool(), Err(DecodeError::UnexpectedEof));
    assert_eq!(Source::new(vec![0xFE, 1, 2]).read_varuint(), Err(DecodeError::UnexpectedEof));
}

#[test]
fn truncated_var_bytes_fail() {
    let mut sink = Sink::new();
    sink.write_var_bytes(b"hello");
    let full = sink.into_bytes();
    for k in 0..full.len() {
        let mut src = Source::new(full[..k].to_vec());
        assert_eq!(src.read_var_bytes(), Err(DecodeError::UnexpectedEof));
        assert_eq!(src.remaining(), k);
    }
}

#[test]
fn irregular_bool_is_refused() {
    let mut src = Source::new(vec![2]);
    assert_eq!(src.read_bool(), Err(DecodeError::IrregularData));
}

#[test]
fn hex_decodes_pairs() {
    assert_eq!(read_hex(b"0061736d"), Some(vec![0x00, 0x61, 0x73, 0x6d]));
    assert_eq!(read_hex(b"ABcd"), Some(vec![0xAB, 0xCD]));
    assert_eq!(read_hex(b""), Some(Vec::new()));
    assert_eq!(read_hex(b"abc"), None);
    assert_eq!(read_hex(b"zz"), None);
}
