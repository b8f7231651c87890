use pngme::chunk::{Chunk, ChunkError};
use pngme::chunk_type::ChunkType;
use std::convert::TryFrom;
use std::str::FromStr;

fn frame(length: u32, chunk_type: &[u8], payload: &[u8], crc: u32) -> Vec<u8> {
    length
        .to_be_bytes()
        .iter()
        .chain(chunk_type.iter())
        .chain(payload.iter())
        .chain(crc.to_be_bytes().iter())
        .copied()
        .collect()
}

fn testing_chunk() -> Chunk {
    let data_length: u32 = 42;
    let chunk_type = "RuSt".as_bytes();
    let message_bytes = "This is where your secret message will be!".as_bytes();
    let crc: u32 = 2882656334;

    let chunk_data: Vec<u8> = data_length
        .to_be_bytes()
        .iter()
        .chain(chunk_type.iter())
        .chain(message_bytes.iter())
        .chain(crc.to_be_bytes().iter())
        .copied()
        .collect();

    Chunk::try_from(chunk_data.as_ref()).unwrap()
}

#[test]
fn test_new_chunk() {
    let chunk_type = ChunkType::from_str("RuSt").unwrap();
    let data = "This is where your secret message will be!".as_bytes().to_vec();
    let chunk = Chunk::new(chunk_type, data);
    assert_eq!(chunk.length(), 42);
    assert_eq!(chunk.crc(), 2882656334);
}

#[test]
fn test_chunk_length() {
    let chunk = testing_chunk();
    assert_eq!(chunk.length(), 42);
}

#[test]
fn test_chunk_type() {
    let chunk = testing_chunk();
    assert_eq!(chunk.chunk_type().to_string(), String::from("RuSt"));
}

#[test]
fn test_chunk_string() {
    let chunk = testing_chunk();
    let chunk_string = chunk.data_as_string().unwrap();
    let expected_chunk_string = String::from("This is where your secret message will be!");
    assert_eq!(chunk_string, expected_chunk_string);
}

#[test]
fn test_chunk_crc() {
    let chunk = testing_chunk();
    assert_eq!(chunk.crc(), 2882656334);
}

#[test]
fn test_valid_chunk_from_bytes() {
    let data_length: u32 = 42;
    let chunk_type = "RuSt".as_bytes();
    let message_bytes = "This is where your secret message will be!".as_bytes();
    let crc: u32 = 2882656334;

    let chunk_data: Vec<u8> = data_length
        .to_be_bytes()
        .iter()
        .chain(chunk_type.iter())
        .chain(message_bytes.iter())
        .chain(crc.to_be_bytes().iter())
        .copied()
        .collect();

    let chunk = Chunk::try_from(chunk_data.as_ref()).unwrap();

    let chunk_string = chunk.data_as_string().unwrap();
    let expected_chunk_string = String::from("This is where your secret message will be!");

    assert_eq!(chunk.length(), 42);
    assert_eq!(chunk.chunk_type().to_string(), String::from("RuSt"));
    assert_eq!(chunk_string, expected_chunk_string);
    assert_eq!(chunk.crc(), 2882656334);
}

#[test]
fn test_invalid_chunk_from_bytes() {
    let data_length: u32 = 42;
    let chunk_type = "RuSt".as_bytes();
    let message_bytes = "This is where your secret message will be!".as_bytes();
    let crc: u32 = 2882656333;

    let chunk_data: Vec<u8> = data_length
        .to_be_bytes()
        .iter()
        .chain(chunk_type.iter())
        .chain(message_bytes.iter())
        .chain(crc.to_be_bytes().iter())
        .copied()
        .collect();

    let chunk = Chunk::try_from(chunk_data.as_ref());

    assert!(chunk.is_err());
}

#[test]
pub fn test_chunk_trait_impls() {
    let data_length: u32 = 42;
    let chunk_type = "RuSt".as_bytes();
    let message_bytes = "This is where your secret message will be!".as_bytes();
    let crc: u32 = 2882656334;

    let chunk_data: Vec<u8> = data_length
        .to_be_bytes()
        .iter()
        .chain(chunk_type.iter())
        .chain(message_bytes.iter())
        .chain(crc.to_be_bytes().iter())
        .copied()
        .collect();

    let chunk: Chunk = TryFrom::try_from(chunk_data.as_ref()).unwrap();

    let _chunk_string = format!("{}", chunk.to_string());
}

#[test]
fn the_secret_message_has_the_documented_checksum_and_length() {
    let message = "This is where your secret message will be!";
    let chunk = Chunk::new(ChunkType::from_str("RuSt").unwrap(), message.as_bytes().to_vec());
    assert_eq!(message.len(), 42);
    assert_eq!(chunk.length(), 42);
    assert_eq!(chunk.crc(), 2882656334);
    assert_eq!(chunk.data(), message.as_bytes());
    assert_eq!(chunk.chunk_type().bytes(), [82, 117, 83, 116]);
}

#[test]
fn checksum_is_the_one_of_zlib_and_png() {
    // The check value of CRC-32/ISO-HDLC: the checksum of "123456789".
    let chunk = Chunk::new(ChunkType::from_bytes(*b"1234"), b"56789".to_vec());
    assert_eq!(chunk.crc(), 0xCBF4_3926);
    // The end chunk of every PNG file.
    let end = Chunk::new(ChunkType::from_str("IEND").unwrap(), Vec::new());
    assert_eq!(end.crc(), 0xAE42_6082);
    assert_eq!(end.length(), 0);
}

#[test]
fn a_chunk_is_written_as_length_type_payload_checksum() {
    let end = Chunk::new(ChunkType::from_str("IEND").unwrap(), Vec::new());
    assert_eq!(end.as_bytes(), vec![0, 0, 0, 0, 73, 69, 78, 68, 0xAE, 0x42, 0x60, 0x82]);
    let chunk = Chunk::new(ChunkType::from_str("RuSt").unwrap(), vec![1, 2, 3]);
    let bytes = chunk.as_bytes();
    assert_eq!(bytes.len(), 15);
    assert_eq!(&bytes[..4], &[0, 0, 0, 3]);
    assert_eq!(&bytes[4..8], b"RuSt");
    assert_eq!(&bytes[8..11], &[1, 2, 3]);
    assert_eq!(&bytes[11..], &chunk.crc().to_be_bytes());
}

#[test]
fn the_length_field_is_big_endian() {
    let payload = vec![7u8; 0x0102_03];
    let chunk = Chunk::new(ChunkType::from_str("RuSt").unwrap(), payload);
    assert_eq!(chunk.length(), 0x0102_03);
    let bytes = chunk.as_bytes();
    assert_eq!(&bytes[..4], &[0, 1, 2, 3]);
    let back = Chunk::try_from(bytes.as_slice()).unwrap();
    assert_eq!(back.length(), 0x0102_03);
}

#[test]
fn a_chunk_written_and_read_again_is_the_same_chunk() {
    let payloads: Vec<Vec<u8>> = vec![
        Vec::new(),
        vec![0],
        vec![255; 7],
        b"This is where your secret message will be!".to_vec(),
        (0..=255).collect(),
    ];
    for text in ["RuSt", "IHDR", "tEXt"] {
        for payload in &payloads {
            let chunk = Chunk::new(ChunkType::from_str(text).unwrap(), payload.clone());
            let bytes = chunk.as_bytes();
            let back = Chunk::try_from(bytes.as_slice()).unwrap();
            assert_eq!(back.chunk_type(), chunk.chunk_type());
            assert_eq!(back.data(), chunk.data());
            assert_eq!(back.crc(), chunk.crc());
            assert_eq!(back.length(), chunk.length());
            assert_eq!(back.as_bytes(), bytes);
        }
    }
}

#[test]
fn one_flipped_bit_in_type_or_payload_fails_the_checksum() {
    let chunk = Chunk::new(
        ChunkType::from_str("RuSt").unwrap(),
        b"This is where your secret message will be!".to_vec(),
    );
    let bytes = chunk.as_bytes();
    for at in 4..bytes.len() - 4 {
        for bit in 0..8 {
            let mut altered = bytes.clone();
            altered[at] ^= 1 << bit;
            let r = Chunk::try_from(altered.as_slice());
            assert_eq!(r.err(), Some(ChunkError::InvalidCrcReceived));
        }
    }
}

#[test]
fn one_flipped_bit_in_the_checksum_fails_the_checksum() {
    let chunk = Chunk::new(ChunkType::from_str("RuSt").unwrap(), vec![1, 2, 3]);
    let bytes = chunk.as_bytes();
    for at in bytes.len() - 4..bytes.len() {
        for bit in 0..8 {
            let mut altered = bytes.clone();
            altered[at] ^= 1 << bit;
            assert_eq!(
                Chunk::try_from(altered.as_slice()).err(),
                Some(ChunkError::InvalidCrcReceived)
            );
        }
    }
}

#[test]
fn a_buffer_of_fewer_than_twelve_bytes_is_invalid_input() {
    for len in 0..12usize {
        for fill in [0u8, 1, 0x41, 0xFF] {
            let buffer = vec![fill; len];
            assert_eq!(Chunk::try_from(buffer.as_slice()).err(), Some(ChunkError::InvalidInput));
            assert_eq!(Chunk::split_frame(buffer.as_slice()).err(), Some(ChunkError::InvalidInput));
        }
    }
    let end = Chunk::new(ChunkType::from_str("IEND").unwrap(), Vec::new()).as_bytes();
    assert_eq!(Chunk::try_from(&end[..11]).err(), Some(ChunkError::InvalidInput));
}

#[test]
fn a_buffer_shorter_than_declared_is_invalid_length() {
    let crc = Chunk::new(ChunkType::from_str("RuSt").unwrap(), vec![1, 2, 3]).crc();
    let short = frame(4, b"RuSt", &[1, 2, 3], crc);
    assert_eq!(Chunk::try_from(short.as_slice()).err(), Some(ChunkError::InvalidLength));
    let huge = frame(u32::MAX, b"RuSt", &[1, 2, 3], crc);
    assert_eq!(Chunk::try_from(huge.as_slice()).err(), Some(ChunkError::InvalidLength));
}

#[test]
fn a_buffer_longer_than_declared_is_invalid_length() {
    let crc = Chunk::new(ChunkType::from_str("RuSt").unwrap(), vec![1, 2, 3]).crc();
    let long = frame(2, b"RuSt", &[1, 2, 3], crc);
    assert_eq!(Chunk::try_from(long.as_slice()).err(), Some(ChunkError::InvalidLength));
    let mut trailing = Chunk::new(ChunkType::from_str("RuSt").unwrap(), vec![1, 2, 3]).as_bytes();
    trailing.push(0);
    assert_eq!(Chunk::try_from(trailing.as_slice()).err(), Some(ChunkError::InvalidLength));
}

#[test]
fn the_length_is_judged_before_the_checksum() {
    let wrong_both = frame(5, b"RuSt", &[1, 2, 3], 0);
    assert_eq!(Chunk::try_from(wrong_both.as_slice()).err(), Some(ChunkError::InvalidLength));
    let wrong_crc = frame(3, b"RuSt", &[1, 2, 3], 0);
    assert_eq!(Chunk::try_from(wrong_crc.as_slice()).err(), Some(ChunkError::InvalidCrcReceived));
}

#[test]
fn a_frame_is_taken_apart_without_judging_the_checksum() {
    let buffer = frame(3, b"RuSt", &[1, 2, 3], 0x0102_0304);
    let (chunk_type, data, stored) = Chunk::split_frame(buffer.as_slice()).unwrap();
    assert_eq!(chunk_type.bytes(), *b"RuSt");
    assert_eq!(data, vec![1, 2, 3]);
    assert_eq!(stored, 0x0102_0304);
    let empty = frame(0, b"IEND", &[], 0xAE42_6082);
    let (chunk_type, data, stored) = Chunk::split_frame(empty.as_slice()).unwrap();
    assert_eq!(chunk_type.bytes(), *b"IEND");
    assert!(data.is_empty());
    assert_eq!(stored, 0xAE42_6082);
    let wrong = frame(4, b"RuSt", &[1, 2, 3], 0);
    assert_eq!(Chunk::split_frame(wrong.as_slice()).err(), Some(ChunkError::InvalidLength));
}

#[test]
fn checksums_are_judged_by_equality() {
    assert_eq!(Chunk::check_crc(7, 7), Ok(()));
    assert_eq!(Chunk::check_crc(0, 0), Ok(()));
    assert_eq!(Chunk::check_crc(u32::MAX, u32::MAX), Ok(()));
    assert_eq!(Chunk::check_crc(7, 8), Err(ChunkError::InvalidCrcReceived));
    assert_eq!(Chunk::check_crc(2882656333, 2882656334), Err(ChunkError::InvalidCrcReceived));
}

#[test]
fn a_type_that_is_no_text_is_read_all_the_same() {
    let chunk = Chunk::new(ChunkType::from_bytes([1, 2, 3, 4]), vec![9]);
    let back = Chunk::try_from(chunk.as_bytes().as_slice()).unwrap();
    assert_eq!(back.chunk_type().bytes(), [1, 2, 3, 4]);
    assert_eq!(back.data(), &[9]);
}

#[test]
fn a_payload_that_is_no_text_is_invalid_utf8() {
    let t = ChunkType::from_str("RuSt").unwrap();
    assert_eq!(Chunk::new(t, vec![0xFF]).data_as_string(), Err(ChunkError::InvalidUtf8));
    assert_eq!(Chunk::new(t, vec![0xC3]).data_as_string(), Err(ChunkError::InvalidUtf8));
    assert_eq!(Chunk::new(t, vec![0xED, 0xA0, 0x80]).data_as_string(), Err(ChunkError::InvalidUtf8));
    assert_eq!(Chunk::new(t, vec![0xC0, 0x80]).data_as_string(), Err(ChunkError::InvalidUtf8));
}

#[test]
fn a_payload_that_is_text_is_given_as_text() {
    let t = ChunkType::from_str("RuSt").unwrap();
    assert_eq!(Chunk::new(t, Vec::new()).data_as_string(), Ok(String::new()));
    assert_eq!(Chunk::new(t, "größer €".as_bytes().to_vec()).data_as_string(), Ok("größer €".to_string()));
    assert_eq!(Chunk::new(t, vec![0xF0, 0x9F, 0xA6, 0x80]).data_as_string(), Ok("\u{1F980}".to_string()));
}

#[test]
fn a_chunk_is_listed_line_by_line() {
    let chunk = testing_chunk();
    assert_eq!(
        chunk.to_string(),
        "Chunk {\n  Length: 42\n  Type: RuSt\n  Data: 42 bytes\n  Crc: 2882656334\n}\n"
    );
    let empty = Chunk::new(ChunkType::from_str("IEND").unwrap(), Vec::new());
    assert_eq!(
        empty.to_string(),
        "Chunk {\n  Length: 0\n  Type: IEND\n  Data: 0 bytes\n  Crc: 2923585666\n}\n"
    );
}
