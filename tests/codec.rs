use huffman_blocks::codec::{compress_block, frequencies, CompressError};
use huffman_blocks::decode::{decompress_block, DecodeError};
use huffman_blocks::input::Reader;
use huffman_blocks::output::Writer;

fn compress_one(block: &[u8]) -> Vec<u8> {
    let mut writer = Writer::new();
    compress_block(block, &mut writer).expect("compress should not throw error");
    writer.bytes().to_vec()
}

#[test]
fn should_compress_and_decompress_one_block() {
    let block_to_compress = "ciao".as_bytes();
    let mut bit_writer = Writer::new();

    compress_block(block_to_compress, &mut bit_writer).expect("compress should not throw error");

    let mut decompressed_stream: Vec<u8> = Vec::new();

    let mut reader_to_decompress = Reader::new(bit_writer.bytes().to_vec());
    decompress_block(&mut reader_to_decompress, &mut decompressed_stream)
        .expect("decompress should not throw error");

    assert_eq!(
        block_to_compress[..],
        decompressed_stream[..block_to_compress.len()]
    );
}

#[test]
fn should_compress_and_decompress_two_blocks() {
    let first_block_to_compress = "ciao".as_bytes();
    let second_block_to_compress = "mondo".as_bytes();
    let mut bit_writer = Writer::new();

    compress_block(first_block_to_compress, &mut bit_writer)
        .expect("compress should not throw error");
    compress_block(second_block_to_compress, &mut bit_writer)
        .expect("compress should not throw error");

    bit_writer.flush();
    let mut reader_to_decompress = Reader::new(bit_writer.bytes().to_vec());

    let mut decompressed_stream: Vec<u8> = Vec::new();

    decompress_block(&mut reader_to_decompress, &mut decompressed_stream)
        .expect("decompress should not throw error");

    decompress_block(&mut reader_to_decompress, &mut decompressed_stream)
        .expect("decompress should not throw error");

    assert_eq!(first_block_to_compress[..], decompressed_stream[..4]);

    assert_eq!(second_block_to_compress[..], decompressed_stream[4..9]);
}

#[test]
fn ciao_block_has_exact_bytes() {
    assert_eq!(
        compress_one(b"ciao"),
        vec![4, 97, 2, 192, 99, 2, 128, 105, 2, 64, 111, 2, 0, 4, 0, 0, 0, 0, 0, 0, 0, 156]
    );
}

#[test]
fn two_symbol_block_has_exact_bytes() {
    assert_eq!(
        compress_one(b"ab"),
        vec![2, 97, 1, 128, 98, 1, 0, 2, 0, 0, 0, 0, 0, 0, 0, 128]
    );
}

#[test]
fn ciao_then_mondo_decode_without_interference() {
    let mut writer = Writer::new();
    compress_block(b"ciao", &mut writer).unwrap();
    compress_block(b"mondo", &mut writer).unwrap();
    let mut reader = Reader::new(writer.bytes().to_vec());
    let mut first: Vec<u8> = Vec::new();
    let mut second: Vec<u8> = Vec::new();
    assert_eq!(decompress_block(&mut reader, &mut first), Ok(Some(4)));
    assert_eq!(decompress_block(&mut reader, &mut second), Ok(Some(5)));
    assert_eq!(first, b"ciao".to_vec());
    assert_eq!(second, b"mondo".to_vec());
    assert_eq!(decompress_block(&mut reader, &mut second), Ok(None));
}

#[test]
fn single_byte_value_gets_a_one_bit_code() {
    let block = vec![b'z'; 20];
    let bytes = compress_one(&block);
    // one entry: byte value, code length 1, the code `1` padded to a byte
    assert_eq!(bytes[..4].to_vec(), vec![1, b'z', 1, 128]);
    let mut reader = Reader::new(bytes);
    let mut out: Vec<u8> = Vec::new();
    assert_eq!(decompress_block(&mut reader, &mut out), Ok(Some(20)));
    assert_eq!(out, block);
}

#[test]
fn empty_block_has_no_entries_and_zero_count() {
    let bytes = compress_one(b"");
    assert_eq!(bytes, vec![0; 9]);
    let mut reader = Reader::new(bytes);
    let mut out: Vec<u8> = Vec::new();
    assert_eq!(decompress_block(&mut reader, &mut out), Ok(Some(0)));
    assert!(out.is_empty());
    assert_eq!(decompress_block(&mut reader, &mut out), Ok(None));
}

#[test]
fn body_ending_on_byte_boundary_decodes() {
    let bytes = compress_one(b"aaaaaaaa");
    assert_eq!(bytes, vec![1, 97, 1, 128, 8, 0, 0, 0, 0, 0, 0, 0, 255]);
    let mut reader = Reader::new(bytes);
    let mut out: Vec<u8> = Vec::new();
    assert_eq!(decompress_block(&mut reader, &mut out), Ok(Some(8)));
    assert_eq!(out, b"aaaaaaaa".to_vec());
}

#[test]
fn padded_body_decodes_and_pad_bits_are_skipped() {
    let bytes = compress_one(b"aaa");
    assert_eq!(bytes, vec![1, 97, 1, 128, 3, 0, 0, 0, 0, 0, 0, 0, 224]);
    let mut writer = Writer::new();
    compress_block(b"aaa", &mut writer).unwrap();
    compress_block(b"aaaaaaaa", &mut writer).unwrap();
    compress_block(b"ab", &mut writer).unwrap();
    let mut reader = Reader::new(writer.bytes().to_vec());
    let mut out: Vec<u8> = Vec::new();
    assert_eq!(decompress_block(&mut reader, &mut out), Ok(Some(3)));
    assert_eq!(decompress_block(&mut reader, &mut out), Ok(Some(8)));
    assert_eq!(decompress_block(&mut reader, &mut out), Ok(Some(2)));
    assert_eq!(decompress_block(&mut reader, &mut out), Ok(None));
    assert_eq!(out, b"aaaaaaaaaaaab".to_vec());
}

#[test]
fn block_with_every_byte_value_is_refused() {
    let block: Vec<u8> = (0..=255u8).collect();
    let mut writer = Writer::new();
    assert_eq!(
        compress_block(&block, &mut writer),
        Err(CompressError::TooManyDistinctBytes)
    );
    assert!(writer.bytes().is_empty());
}

#[test]
fn block_with_255_byte_values_round_trips() {
    let block: Vec<u8> = (0..255u8).chain(0..10u8).collect();
    let bytes = compress_one(&block);
    let mut reader = Reader::new(bytes);
    let mut out: Vec<u8> = Vec::new();
    assert_eq!(decompress_block(&mut reader, &mut out), Ok(Some(265)));
    assert_eq!(out, block);
}

#[test]
fn no_bits_left_is_a_clean_end() {
    let mut reader = Reader::new(Vec::new());
    let mut out: Vec<u8> = vec![7];
    assert_eq!(decompress_block(&mut reader, &mut out), Ok(None));
    assert_eq!(out, vec![7]);
}

#[test]
fn truncated_header_is_malformed() {
    let mut reader = Reader::new(vec![2, 97]);
    let mut out: Vec<u8> = Vec::new();
    assert_eq!(
        decompress_block(&mut reader, &mut out),
        Err(DecodeError::MalformedStream)
    );
    assert!(out.is_empty());
}

#[test]
fn truncated_count_is_malformed() {
    let mut reader = Reader::new(vec![2, 97, 1, 128, 98, 1, 0, 2, 0, 0]);
    let mut out: Vec<u8> = Vec::new();
    assert_eq!(
        decompress_block(&mut reader, &mut out),
        Err(DecodeError::MalformedStream)
    );
}

#[test]
fn missing_body_is_inconsistent() {
    let mut reader = Reader::new(vec![2, 97, 1, 128, 98, 1, 0, 2, 0, 0, 0, 0, 0, 0, 0]);
    let mut out: Vec<u8> = Vec::new();
    assert_eq!(
        decompress_block(&mut reader, &mut out),
        Err(DecodeError::InconsistentBody)
    );
    assert!(out.is_empty());
}

#[test]
fn count_beyond_body_is_inconsistent() {
    // the body byte 0b1000_0000 holds eight codes, the count asks for nine
    let mut reader = Reader::new(vec![2, 97, 1, 128, 98, 1, 0, 9, 0, 0, 0, 0, 0, 0, 0, 128]);
    let mut out: Vec<u8> = Vec::new();
    assert_eq!(
        decompress_block(&mut reader, &mut out),
        Err(DecodeError::InconsistentBody)
    );
    assert!(out.is_empty());
}

#[test]
fn codes_matching_nothing_are_inconsistent() {
    // no entries but one symbol declared: 255 bits match no code
    let mut bytes = vec![0, 1, 0, 0, 0, 0, 0, 0, 0];
    bytes.extend(vec![0u8; 40]);
    let mut reader = Reader::new(bytes);
    let mut out: Vec<u8> = Vec::new();
    assert_eq!(
        decompress_block(&mut reader, &mut out),
        Err(DecodeError::InconsistentBody)
    );
}

#[test]
fn frequencies_count_each_byte_value() {
    let f = frequencies(b"abracadabra");
    assert_eq!(f.len(), 256);
    assert_eq!(f[b'a' as usize], 5);
    assert_eq!(f[b'b' as usize], 2);
    assert_eq!(f[b'r' as usize], 2);
    assert_eq!(f[b'c' as usize], 1);
    assert_eq!(f[b'd' as usize], 1);
    assert_eq!(f.iter().sum::<u64>(), 11);
}
