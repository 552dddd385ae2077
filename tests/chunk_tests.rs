use pngyinx::chunk::{Chunk, ChunkError};
use pngyinx::chunk_type::ChunkType;
use std::str::FromStr;

fn chunk_data_with(length: u32, tag: &[u8], message: &[u8], crc: u32) -> Vec<u8> {
    length
        .to_be_bytes()
        .iter()
        .chain(tag.iter())
        .chain(message.iter())
        .chain(crc.to_be_bytes().iter())
        .copied()
        .collect()
}

fn testing_chunk() -> Chunk {
    let data_length: u32 = 42;
    let chunk_type = "RuSt".as_bytes();
    let message_bytes = "This is where your secret message will be!".as_bytes();
    let crc: u32 = 2882656334;

    let chunk_data: Vec<u8> = chunk_data_with(data_length, chunk_type, message_bytes, crc);

    Chunk::try_from(chunk_data.as_ref()).unwrap()
}

#[test]
fn test_new_chunk() {
    let chunk_type = ChunkType::from_str("RuSt").unwrap();
    let data = "This is where your secret message will be!".as_bytes().to_vec();
    let chunk = Chunk::new(chunk_type, data);
    assert_eq!(chunk.length(), 42);
    assert_eq!(chunk.crc(), 2882656334);
}

#[test]
fn test_chunk_length() {
    let chunk = testing_chunk();
    assert_eq!(chunk.length(), 42);
}

#[test]
fn test_chunk_type() {
    let chunk = testing_chunk();
    assert_eq!(chunk.chunk_type().to_string(), String::from("RuSt"));
}

#[test]
fn test_chunk_string() {
    let chunk = testing_chunk();
    let chunk_string = chunk.data_as_string().unwrap();
    let expected_chunk_string = String::from("This is where your secret message will be!");
    assert_eq!(chunk_string, expected_chunk_string);
}

#[test]
fn test_chunk_crc() {
    let chunk = testing_chunk();
    assert_eq!(chunk.crc(), 2882656334);
}

#[test]
fn test_valid_chunk_from_bytes() {
    let data_length: u32 = 42;
    let chunk_type = "RuSt".as_bytes();
    let message_bytes = "This is where your secret message will be!".as_bytes();
    let crc: u32 = 2882656334;

    let chunk_data: Vec<u8> = chunk_data_with(data_length, chunk_type, message_bytes, crc);

    let chunk = Chunk::try_from(chunk_data.as_ref()).unwrap();

    let chunk_string = chunk.data_as_string().unwrap();
    let expected_chunk_string = String::from("This is where your secret message will be!");

    assert_eq!(chunk.length(), 42);
    assert_eq!(chunk.chunk_type().to_string(), String::from("RuSt"));
    assert_eq!(chunk_string, expected_chunk_string);
    assert_eq!(chunk.crc(), 2882656334);
}

#[test]
fn test_invalid_chunk_from_bytes() {
    let data_length: u32 = 42;
    let chunk_type = "RuSt".as_bytes();
    let message_bytes = "This is where your secret message will be!".as_bytes();
    let crc: u32 = 2882656333;

    let chunk_data: Vec<u8> = chunk_data_with(data_length, chunk_type, message_bytes, crc);

    let chunk = Chunk::try_from(chunk_data.as_ref());

    assert!(chunk.is_err());
}

#[test]
pub fn test_chunk_trait_impls() {
    let data_length: u32 = 42;
    let chunk_type = "RuSt".as_bytes();
    let message_bytes = "This is where your secret message will be!".as_bytes();
    let crc: u32 = 2882656334;

    let chunk_data: Vec<u8> = chunk_data_with(data_length, chunk_type, message_bytes, crc);

    let chunk: Chunk = TryFrom::try_from(chunk_data.as_ref()).unwrap();

    let _chunk_string = chunk.data_as_string().unwrap();
}

#[test]
fn every_single_crc_bit_flip_is_caught() {
    let message = "This is where your secret message will be!".as_bytes();
    for bit in 0..32 {
        let bad = 2882656334u32 ^ (1u32 << bit);
        let bytes = chunk_data_with(42, b"RuSt", message, bad);
        match Chunk::try_from(bytes.as_slice()) {
            Err(ChunkError::InvalidChecksum(stored, computed)) => {
                assert_eq!(stored, bad);
                assert_eq!(computed, 2882656334);
            }
            _ => panic!("bit {} not caught", bit),
        }
    }
}

#[test]
fn parsed_chunk_writes_back_its_bytes() {
    let message = "This is where your secret message will be!".as_bytes();
    let bytes = chunk_data_with(42, b"RuSt", message, 2882656334);
    let chunk = Chunk::try_from(bytes.as_slice()).unwrap();
    assert_eq!(chunk.as_bytes(), bytes);
    assert_eq!(chunk.data(), message);
}

#[test]
fn trailing_bytes_after_a_chunk_are_not_read() {
    let message = "This is where your secret message will be!".as_bytes();
    let mut bytes = chunk_data_with(42, b"RuSt", message, 2882656334);
    bytes.extend_from_slice(&[1, 2, 3]);
    let chunk = Chunk::try_from(bytes.as_slice()).unwrap();
    assert_eq!(chunk.as_bytes().len(), 54);
}

#[test]
fn declared_length_longer_than_the_data_is_insufficient() {
    let message = "This is where your secret message will be!".as_bytes();
    let bytes = chunk_data_with(44, b"RuSt", message, 2882656334);
    assert!(matches!(Chunk::try_from(bytes.as_slice()), Err(ChunkError::InsufficientData)));
    assert!(matches!(Chunk::try_from(&[0u8, 0, 0][..]), Err(ChunkError::InsufficientData)));
    assert!(matches!(Chunk::try_from(&[0u8, 0, 0, 0, 73, 69, 78][..]), Err(ChunkError::InsufficientData)));
}

#[test]
fn declared_length_shorter_than_the_data_fails_the_checksum() {
    let message = "This is where your secret message will be!".as_bytes();
    let bytes = chunk_data_with(40, b"RuSt", message, 2882656334);
    assert!(matches!(Chunk::try_from(bytes.as_slice()), Err(ChunkError::InvalidChecksum(_, _))));
}

#[test]
fn tag_with_a_digit_is_refused() {
    let bytes = chunk_data_with(0, b"Ru5t", &[], 0);
    assert!(matches!(Chunk::try_from(bytes.as_slice()), Err(ChunkError::InvalidChunkType(_))));
}

#[test]
fn data_that_is_not_utf8_is_not_text() {
    let chunk = Chunk::new(ChunkType::from_str("RuSt").unwrap(), vec![0xff, 0xfe]);
    assert!(matches!(chunk.data_as_string(), Err(ChunkError::DataToStringError)));
}

#[test]
fn empty_end_chunk_has_the_standard_crc() {
    let chunk = Chunk::new(ChunkType::from_str("IEND").unwrap(), Vec::new());
    assert_eq!(chunk.length(), 0);
    assert_eq!(chunk.crc(), 0xAE42_6082);
    assert_eq!(chunk.as_bytes(), vec![0, 0, 0, 0, 73, 69, 78, 68, 0xAE, 0x42, 0x60, 0x82]);
}
