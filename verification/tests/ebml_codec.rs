//! The EBML primitives: exact encodings and parse round trips.

use webm_streamer::ebml::{
    encode_be, encode_id, encode_size, encode_uint, encode_unknown_size, parse_id, parse_size,
    parse_uint, ParseError,
};

#[test]
fn size_vint_one_byte() {
    let bytes = encode_size(0x23);
    assert_eq!(bytes, vec![0x80 | 0x23]);
    let v = parse_size(&bytes, 0).unwrap();
    assert_eq!(v.value, 0x23);
    assert_eq!(v.width, 1);
    assert!(!v.unknown);
}

#[test]
fn size_vint_two_bytes() {
    // 300 does not fit 7 bits: 0x40 marker, then the 14-bit value.
    let bytes = encode_size(300);
    assert_eq!(bytes, vec![0x41, 0x2c]);
    let v = parse_size(&bytes, 0).unwrap();
    assert_eq!(v.value, 300);
    assert_eq!(v.width, 2);
}

#[test]
fn size_vint_boundary_values() {
    // 0x7f is the one-byte all-ones sentinel, so 127 must take two bytes.
    let bytes = encode_size(127);
    assert_eq!(bytes.len(), 2);
    let v = parse_size(&bytes, 0).unwrap();
    assert_eq!(v.value, 127);
    assert!(!v.unknown);

    for value in [0u64, 1, 126, 128, 16382, 16383, 0xff_ffff_ffff_fffe] {
        let bytes = encode_size(value);
        let v = parse_size(&bytes, 0).unwrap();
        assert_eq!(v.value, value, "round trip of {value}");
        assert!(!v.unknown);
        assert_eq!(v.width, bytes.len());
    }
}

#[test]
fn unknown_size_is_all_ones() {
    let bytes = encode_unknown_size();
    assert_eq!(bytes, vec![0xff]);
    let v = parse_size(&bytes, 0).unwrap();
    assert!(v.unknown);
    assert_eq!(v.width, 1);
}

#[test]
fn eight_byte_all_ones_parses_as_unknown() {
    // The widest sentinel, as other writers emit it.
    let bytes = vec![0x01, 0xff, 0xff, 0xff, 0xff, 0xff, 0xff, 0xff];
    let v = parse_size(&bytes, 0).unwrap();
    assert!(v.unknown);
    assert_eq!(v.width, 8);
}

#[test]
fn id_round_trips() {
    for id in [0xa3u64, 0xe7, 0x4282, 0x1a45_dfa3, 0x1853_8067, 0x1f43_b675] {
        let bytes = encode_id(id);
        let (value, width) = parse_id(&bytes, 0).unwrap();
        assert_eq!(value, id);
        assert_eq!(width, bytes.len());
    }
    assert_eq!(encode_id(0x1a45_dfa3), vec![0x1a, 0x45, 0xdf, 0xa3]);
    assert_eq!(encode_id(0xe7), vec![0xe7]);
}

#[test]
fn uint_payload_round_trips() {
    assert_eq!(encode_uint(0), vec![0x00]);
    assert_eq!(encode_uint(100), vec![100]);
    assert_eq!(encode_uint(256), vec![0x01, 0x00]);
    for v in [0u64, 1, 255, 256, 65535, 65536, u64::MAX] {
        let bytes = encode_uint(v);
        let pos_val = parse_uint(&bytes, 0, bytes.len()).unwrap();
        assert_eq!(pos_val, v);
    }
}

#[test]
fn be_bytes_are_big_endian() {
    assert_eq!(encode_be(0x0102, 4), vec![0, 0, 1, 2]);
    assert_eq!(encode_be(0xdead_beef, 4), vec![0xde, 0xad, 0xbe, 0xef]);
}

#[test]
fn parse_errors_are_classified() {
    // Running out of bytes mid-vint is recoverable.
    assert_eq!(parse_size(&vec![], 0), Err(ParseError::UnexpectedEof));
    assert_eq!(parse_size(&vec![0x41], 0), Err(ParseError::UnexpectedEof));
    // A zero lead byte cannot start any vint.
    assert_eq!(parse_size(&vec![0x00], 0), Err(ParseError::Corrupt));
    // An id lead byte below 0x10 would need more than four bytes.
    assert_eq!(parse_id(&vec![0x08, 0, 0, 0, 0], 0), Err(ParseError::Corrupt));
    assert_eq!(parse_id(&vec![0x41], 0), Err(ParseError::UnexpectedEof));
}
