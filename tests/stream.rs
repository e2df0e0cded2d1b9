use huffman_blocks::codec::CompressError;
use huffman_blocks::decode::DecodeError;
use huffman_blocks::stream::{compress, decompress};

#[test]
fn stream_round_trip_for_several_block_sizes() {
    let data = b"ciao mondo, the quick brown fox jumps over the lazy dog".to_vec();
    for size in [1usize, 2, 3, 4, 7, 16, 1024, 4096] {
        let packed = compress(&data, size).unwrap();
        assert_eq!(decompress(packed), Ok(data.clone()));
    }
}

#[test]
fn stream_of_two_blocks_matches_block_bytes() {
    let packed = compress(b"ciaomondo", 4).unwrap();
    let expected = vec![4, 97, 2, 192, 99, 2, 128, 105, 2, 64, 111, 2, 0, 4, 0, 0, 0, 0, 0, 0, 0, 156];
    assert_eq!(packed[..22].to_vec(), expected);
    assert_eq!(decompress(packed), Ok(b"ciaomondo".to_vec()));
}

#[test]
fn empty_stream_round_trips() {
    assert_eq!(compress(b"", 4096), Ok(Vec::new()));
    assert_eq!(decompress(Vec::new()), Ok(Vec::new()));
}

#[test]
fn stream_refuses_block_with_all_byte_values() {
    let data: Vec<u8> = (0..=255u8).collect();
    assert_eq!(compress(&data, 4096), Err(CompressError::TooManyDistinctBytes));
    let packed = compress(&data, 128).unwrap();
    assert_eq!(decompress(packed), Ok(data));
}

#[test]
fn stream_with_trailing_partial_byte_is_malformed() {
    let mut packed = compress(b"hello", 2).unwrap();
    packed.push(0);
    packed.push(0);
    assert_eq!(decompress(packed), Err(DecodeError::MalformedStream));
}
