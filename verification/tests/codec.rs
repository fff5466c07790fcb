use romtext::codec::{
    confirm_encoding, decode, decode_outcome, encode, encode_outcome, round_trips, same_bytes,
};
use romtext::error::CodecError;

#[test]
fn ascii_is_kept() {
    assert_eq!(encode("Hello"), Ok(b"Hello".to_vec()));
    assert_eq!(decode(b"Hello"), Ok("Hello".to_string()));
}

#[test]
fn empty_text_is_empty_bytes() {
    assert_eq!(encode(""), Ok(vec![]));
    assert_eq!(decode(&[]), Ok(String::new()));
}

#[test]
fn kanji_take_two_bytes_each() {
    let bytes = vec![0x93, 0xFA, 0x96, 0x7B, 0x8C, 0xEA];
    assert_eq!(encode("日本語"), Ok(bytes.clone()));
    assert_eq!(decode(&bytes), Ok("日本語".to_string()));
}

#[test]
fn halfwidth_katakana_take_one_byte() {
    assert_eq!(encode("ｱ"), Ok(vec![0xB1]));
    assert_eq!(decode(&[0xB1]), Ok("ｱ".to_string()));
}

#[test]
fn text_round_trips_through_the_encoding() {
    for s in ["", "abc", "こんにちは、世界！", "line one\nline two", "ｶﾀｶﾅ"] {
        let bytes = encode(s).unwrap();
        assert_eq!(decode(&bytes), Ok(s.to_string()));
    }
}

#[test]
fn unmappable_character_is_an_error() {
    assert_eq!(encode("price: 5€"), Err(CodecError::Unmappable));
    assert_eq!(encode("😀"), Err(CodecError::Unmappable));
}

#[test]
fn malformed_bytes_are_an_error() {
    assert_eq!(decode(&[0x41, 0x81]), Err(CodecError::Malformed));
    assert_eq!(decode(&[0xFD]), Err(CodecError::Malformed));
}

#[test]
fn outcome_follows_the_flag() {
    assert_eq!(decode_outcome("x".to_string(), false), Ok("x".to_string()));
    assert_eq!(decode_outcome("x".to_string(), true), Err(CodecError::Malformed));
    assert_eq!(encode_outcome(vec![1, 2], false), Ok(vec![1, 2]));
    assert_eq!(encode_outcome(vec![1, 2], true), Err(CodecError::Unmappable));
}

#[test]
fn character_that_would_read_back_as_another_is_refused() {
    assert_eq!(encode("¥"), Err(CodecError::Unmappable));
    assert_eq!(encode("100¥"), Err(CodecError::Unmappable));
    assert_eq!(encode("‾"), Err(CodecError::Unmappable));
    assert_eq!(encode("−"), Err(CodecError::Unmappable));
    assert_eq!(decode(&[0x5C]), Ok("\\".to_string()));
    assert_eq!(encode("\\"), Ok(vec![0x5C]));
    assert_eq!(encode("~"), Ok(vec![0x7E]));
    assert_eq!(encode("－"), Ok(vec![0x81, 0x7C]));
}

#[test]
fn byte_order_marks_are_not_bytes_of_the_encoding() {
    assert_eq!(decode(&[0xFF, 0xFE, 0x41, 0x42]), Err(CodecError::Malformed));
    assert_eq!(decode(&[0xFE, 0xFF, 0x41, 0x42]), Err(CodecError::Malformed));
    assert_ne!(decode(&[0xEF, 0xBB, 0xBF, 0x41]), Ok("A".to_string()));
}

#[test]
fn encoding_is_confirmed_by_reading_it_back() {
    assert_eq!(confirm_encoding("ab", vec![1, 2], "ab".to_string(), false), Ok(vec![1, 2]));
    assert_eq!(
        confirm_encoding("ab", vec![1, 2], "ab".to_string(), true),
        Err(CodecError::Unmappable)
    );
    assert_eq!(
        confirm_encoding("ab", vec![1, 2], "aB".to_string(), false),
        Err(CodecError::Unmappable)
    );
    assert_eq!(
        confirm_encoding("¥", vec![0x5C], "\\".to_string(), false),
        Err(CodecError::Unmappable)
    );
}

#[test]
fn bytes_are_compared_one_by_one() {
    assert!(same_bytes(&[], &[]));
    assert!(same_bytes(&[1, 2, 3], &[1, 2, 3]));
    assert!(!same_bytes(&[1, 2, 3], &[1, 2, 4]));
    assert!(!same_bytes(&[1, 2, 3], &[1, 2]));
}

#[test]
fn bytes_that_survive_the_trip_through_text() {
    assert!(round_trips(b"Hello"));
    assert!(round_trips(&[0x93, 0xFA, 0x96, 0x7B]));
    assert!(round_trips(&[]));
    assert!(!round_trips(&[0x41, 0x81]));
    assert!(!round_trips(&[0xFF, 0xFE, 0x41, 0x42]));
}
