use pngyinx::chunk_type::{ChunkType, ChunkTypeDecodingError};
use std::convert::TryFrom;
use std::str::FromStr;

#[test]
pub fn test_chunk_type_from_bytes() {
    let expected = [82, 117, 83, 116];
    let actual = ChunkType::try_from([82, 117, 83, 116]).unwrap();

    assert_eq!(expected, actual.bytes());
}

#[test]
pub fn test_chunk_type_from_str() {
    let expected = ChunkType::try_from([82, 117, 83, 116]).unwrap();
    let actual = ChunkType::from_str("RuSt").unwrap();
    assert_eq!(expected, actual);
}

#[test]
pub fn test_chunk_type_is_critical() {
    let chunk = ChunkType::from_str("RuSt").unwrap();
    assert!(chunk.is_critical());
}

#[test]
pub fn test_chunk_type_is_not_critical() {
    let chunk = ChunkType::from_str("ruSt").unwrap();
    assert!(!chunk.is_critical());
}

#[test]
pub fn test_chunk_type_is_public() {
    let chunk = ChunkType::from_str("RUSt").unwrap();
    assert!(chunk.is_public());
}

#[test]
pub fn test_chunk_type_is_not_public() {
    let chunk = ChunkType::from_str("RuSt").unwrap();
    assert!(!chunk.is_public());
}

#[test]
pub fn test_chunk_type_is_reserved_bit_valid() {
    let chunk = ChunkType::from_str("RuSt").unwrap();
    assert!(chunk.is_reserved_bit_valid());
}

#[test]
pub fn test_chunk_type_is_reserved_bit_invalid() {
    let chunk = ChunkType::from_str("Rust").unwrap();
    assert!(!chunk.is_reserved_bit_valid());
}

#[test]
pub fn test_chunk_type_is_safe_to_copy() {
    let chunk = ChunkType::from_str("RuSt").unwrap();
    assert!(chunk.is_safe_to_copy());
}

#[test]
pub fn test_chunk_type_is_unsafe_to_copy() {
    let chunk = ChunkType::from_str("RuST").unwrap();
    assert!(!chunk.is_safe_to_copy());
}

#[test]
pub fn test_valid_chunk_is_valid() {
    let chunk = ChunkType::from_str("RuSt").unwrap();
    assert!(chunk.is_valid());
}

#[test]
pub fn test_invalid_chunk_is_valid() {
    let chunk = ChunkType::from_str("Rust").unwrap();
    assert!(!chunk.is_valid());

    let chunk = ChunkType::from_str("Ru1t");
    assert!(chunk.is_err());
}

#[test]
pub fn test_chunk_type_string() {
    let chunk = ChunkType::from_str("RuSt").unwrap();
    assert_eq!(&chunk.to_string(), "RuSt");
}

#[test]
pub fn test_chunk_type_trait_impls() {
    let chunk_type_1: ChunkType = TryFrom::try_from([82, 117, 83, 116]).unwrap();
    let chunk_type_2: ChunkType = FromStr::from_str("RuSt").unwrap();
    let _chunk_string = chunk_type_1.to_string();
    let _are_chunks_equal = chunk_type_1 == chunk_type_2;
}

#[test]
fn flags_of_rust_bytes() {
    let t = ChunkType::try_from([0x52, 0x75, 0x53, 0x74]).unwrap();
    assert!(t.is_critical());
    assert!(!t.is_public());
    assert!(t.is_reserved_bit_valid());
    assert!(t.is_safe_to_copy());
    assert!(!ChunkType::try_from([0x72, 0x75, 0x53, 0x74]).unwrap().is_critical());
    assert!(ChunkType::try_from([0x52, 0x55, 0x53, 0x74]).unwrap().is_public());
    assert!(!ChunkType::try_from([0x52, 0x75, 0x73, 0x74]).unwrap().is_reserved_bit_valid());
    assert!(!ChunkType::try_from([0x52, 0x75, 0x53, 0x54]).unwrap().is_safe_to_copy());
}

#[test]
fn bytes_with_a_digit_name_the_first_bad_byte() {
    match ChunkType::try_from([82, 49, 83, 50]) {
        Err(ChunkTypeDecodingError::BadByte(b)) => assert_eq!(b, 49),
        other => panic!("unexpected result: {:?}", other),
    }
}

#[test]
fn letters_around_the_alphabet_edges() {
    assert!(ChunkType::try_from([b'A', b'Z', b'a', b'z']).is_ok());
    assert!(ChunkType::try_from([b'@', b'A', b'A', b'A']).is_err());
    assert!(ChunkType::try_from([b'A', b'[', b'A', b'A']).is_err());
    assert!(ChunkType::try_from([b'A', b'A', b'`', b'A']).is_err());
    assert!(ChunkType::try_from([b'A', b'A', b'A', b'{']).is_err());
}

#[test]
fn string_of_wrong_length_is_refused_first() {
    match ChunkType::from_str("RuS") {
        Err(ChunkTypeDecodingError::BadLength(n)) => assert_eq!(n, 3),
        other => panic!("unexpected result: {:?}", other),
    }
    match ChunkType::from_str("R1S2t") {
        Err(ChunkTypeDecodingError::BadLength(n)) => assert_eq!(n, 5),
        other => panic!("unexpected result: {:?}", other),
    }
    match ChunkType::from_str("") {
        Err(ChunkTypeDecodingError::BadLength(n)) => assert_eq!(n, 0),
        other => panic!("unexpected result: {:?}", other),
    }
}

#[test]
fn string_with_a_bad_byte_names_it() {
    match ChunkType::from_str("Ru t") {
        Err(ChunkTypeDecodingError::BadByte(b)) => assert_eq!(b, b' '),
        other => panic!("unexpected result: {:?}", other),
    }
}

#[test]
fn validity_needs_upper_case_third_byte() {
    assert!(ChunkType::from_str("abCd").unwrap().is_valid());
    assert!(!ChunkType::from_str("ABcD").unwrap().is_valid());
    assert_eq!(ChunkType::from_str("ABcD").unwrap().is_valid_for_creation().unwrap(), true);
}

#[test]
fn four_characters_that_are_not_all_ascii_letters_are_refused() {
    match ChunkType::from_str("R\u{fc}st") {
        Err(ChunkTypeDecodingError::BadByte(b)) => assert_eq!(b, 0xC3),
        other => panic!("unexpected result: {:?}", other),
    }
}

#[test]
fn length_is_counted_in_characters() {
    match ChunkType::from_str("\u{e9}\u{e9}") {
        Err(ChunkTypeDecodingError::BadLength(n)) => assert_eq!(n, 2),
        other => panic!("unexpected result: {:?}", other),
    }
    match ChunkType::from_str("12345") {
        Err(ChunkTypeDecodingError::BadLength(n)) => assert_eq!(n, 5),
        other => panic!("unexpected result: {:?}", other),
    }
}
