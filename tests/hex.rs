use tokio_dbus::{extend_from_hex_encoded, hex_decode, hex_encode, hex_encoded_len, HexError};

#[test]
fn encode_is_lowercase_high_nibble_first() {
    assert_eq!(hex_encode(&[0xab, 0x01, 0x00, 0xff]), b"ab0100ff".to_vec());
    assert_eq!(hex_encode(&[]), Vec::<u8>::new());
}

#[test]
fn decode_reads_both_cases() {
    assert_eq!(hex_decode(b"0aFf"), Ok(vec![0x0a, 0xff]));
    assert_eq!(hex_decode(b"AB01"), Ok(vec![0xab, 0x01]));
    assert_eq!(hex_decode(b""), Ok(vec![]));
}

#[test]
fn decode_rejects_odd_length() {
    assert_eq!(hex_decode(b"abc"), Err(HexError::OddLength));
    assert_eq!(hex_decode(b"zzz"), Err(HexError::OddLength));
}

#[test]
fn decode_rejects_non_hex_digits() {
    assert_eq!(hex_decode(b"zz"), Err(HexError::InvalidDigit));
    assert_eq!(hex_decode(b"0g"), Err(HexError::InvalidDigit));
    assert_eq!(hex_decode(b"12 4"), Err(HexError::InvalidDigit));
}

#[test]
fn hex_round_trip_on_all_bytes() {
    let all: Vec<u8> = (0..=255u8).collect();
    let text = hex_encode(&all);
    assert_eq!(text.len(), 512);
    assert_eq!(hex_decode(&text), Ok(all));
}

#[test]
fn extend_appends_and_len_doubles() {
    let mut buf = b"DATA ".to_vec();
    extend_from_hex_encoded(&mut buf, b"1000");
    assert_eq!(buf, b"DATA 31303030".to_vec());
    assert_eq!(hex_encoded_len(b"1000"), 8);
}
