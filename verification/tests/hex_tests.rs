use dump_parser::HexDecodeError;
use dump_parser::decode_hex;

#[test]
fn decodes_upper_case_hex() {
    let bytes = decode_hex(b"0123456789ABCDEF");
    assert_eq!(bytes, Ok(vec![0x01, 0x23, 0x45, 0x67, 0x89, 0xAB, 0xCD, 0xEF]));
}

#[test]
fn decodes_lower_case_hex() {
    assert_eq!(decode_hex(b"ff00"), Ok(vec![0xFF, 0x00]));
    assert_eq!(decode_hex(b"deadbeef"), Ok(vec![0xDE, 0xAD, 0xBE, 0xEF]));
}

#[test]
fn empty_input_decodes_to_nothing() {
    assert_eq!(decode_hex(b""), Ok(vec![]));
}

#[test]
fn odd_length_is_rejected_not_truncated() {
    assert_eq!(decode_hex(b"ABC"), Err(HexDecodeError::OddLength));
    assert_eq!(decode_hex(b"0"), Err(HexDecodeError::OddLength));
}

#[test]
fn non_hex_characters_are_rejected() {
    assert_eq!(decode_hex(b"0G"), Err(HexDecodeError::InvalidDigit));
    assert_eq!(decode_hex(b"+1"), Err(HexDecodeError::InvalidDigit));
    assert_eq!(decode_hex(b"zz"), Err(HexDecodeError::InvalidDigit));
}
