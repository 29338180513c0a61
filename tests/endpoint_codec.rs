use wiki_utils::url::{decode_url_str, DecodeError};

#[test]
fn underscore_decodes_to_space() {
    assert_eq!(decode_url_str("_").unwrap(), " ");
    assert_eq!(decode_url_str("Foo_Bar_Baz").unwrap(), "Foo Bar Baz");
}

#[test]
fn plain_text_is_kept() {
    assert_eq!(decode_url_str("").unwrap(), "");
    assert_eq!(decode_url_str("Rust").unwrap(), "Rust");
}

#[test]
fn two_digit_escape_decodes_to_its_byte() {
    assert_eq!(decode_url_str("%41").unwrap(), "A");
    assert_eq!(decode_url_str("%2c").unwrap(), ",");
    assert_eq!(decode_url_str("A%20B").unwrap(), "A B");
}

#[test]
fn multi_byte_escape_run_decodes_as_utf8() {
    assert_eq!(decode_url_str("Caf%C3%A9").unwrap(), "Café");
    assert_eq!(decode_url_str("%E2%82%AC").unwrap(), "€");
    assert_eq!(decode_url_str("5_%E2%82%AC").unwrap(), "5 €");
}

#[test]
fn character_ending_an_escape_run_is_kept_verbatim() {
    assert_eq!(decode_url_str("%E2%82%AC_sign").unwrap(), "€_sign");
}

#[test]
fn escape_followed_by_text() {
    assert_eq!(decode_url_str("%41x_y").unwrap(), "Ax y");
}

#[test]
fn odd_trailing_hex_run_is_incomplete() {
    assert!(matches!(decode_url_str("%4"), Err(DecodeError::IncompleteParse)));
    assert!(matches!(decode_url_str("abc%"), Err(DecodeError::IncompleteParse)));
    assert!(matches!(decode_url_str("%C3%A"), Err(DecodeError::IncompleteParse)));
}

#[test]
fn non_hex_pair_is_hex_error() {
    assert!(matches!(decode_url_str("%ZZ"), Err(DecodeError::HexNotValidByte)));
    assert!(matches!(decode_url_str("%G1abc"), Err(DecodeError::HexNotValidByte)));
    assert!(matches!(decode_url_str("%+f"), Err(DecodeError::HexNotValidByte)));
}

#[test]
fn invalid_utf8_is_utf8_error() {
    assert!(matches!(decode_url_str("%FF"), Err(DecodeError::ByteVecNotUtf8)));
    assert!(matches!(decode_url_str("%C3x"), Err(DecodeError::ByteVecNotUtf8)));
}
