use radlibs::text::{decode, TemplateError};

#[test]
fn ascii_bytes_decode_to_their_text() {
    assert_eq!(decode(b"Hello"), Ok("Hello".to_string()));
}

#[test]
fn no_bytes_decode_to_empty_text() {
    assert_eq!(decode(b""), Ok(String::new()));
}

#[test]
fn multi_byte_characters_are_decoded() {
    assert_eq!(decode(&[0xc3, 0xa9, 0x21]), Ok("é!".to_string()));
    assert_eq!(decode("größe – 語".as_bytes()), Ok("größe – 語".to_string()));
}

#[test]
fn invalid_bytes_fail_to_decode() {
    assert_eq!(decode(&[0xff]), Err(TemplateError::DecodeFailure));
    assert_eq!(decode(&[b'a', 0xc3]), Err(TemplateError::DecodeFailure));
    assert_eq!(decode(&[0xed, 0xa0, 0x80]), Err(TemplateError::DecodeFailure));
}
