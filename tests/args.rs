use huffman_blocks::args::{Args, DEFAULT_BLOCK_BYTES};

fn args(compress: bool, decompress: bool, block_size: usize) -> Args {
    Args {
        compress,
        decompress,
        input: Some("in.bin".to_string()),
        output: None,
        block_size,
    }
}

#[test]
fn compression_is_the_default_mode() {
    let a = args(false, false, DEFAULT_BLOCK_BYTES).validate().unwrap();
    assert!(a.compress && !a.decompress);
    assert_eq!(a.block_size, 4096);
    assert_eq!(a.input, Some("in.bin".to_string()));
    assert_eq!(a.output, None);
}

#[test]
fn decompression_alone_is_kept() {
    let a = args(false, true, 10).validate().unwrap();
    assert!(!a.compress && a.decompress);
}

#[test]
fn both_modes_are_refused() {
    assert_eq!(
        args(true, true, 10).validate().err(),
        Some("Pay for simultaneous compression-decompression")
    );
}

#[test]
fn zero_block_size_is_refused() {
    assert_eq!(
        args(true, false, 0).validate().err(),
        Some("Block size must be greater than 0")
    );
}
