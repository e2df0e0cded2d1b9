use huffman_blocks::input::Reader;
use huffman_blocks::output::Writer;

#[test]
fn write_read_inversion() {
    let expected_bits = [true, false, true, false, false, false, false, false, false, false];
    let mut bit_writer = Writer::new();
    bit_writer.write_bits(&expected_bits);
    bit_writer.flush();

    let mut bit_reader = Reader::new(bit_writer.bytes().to_vec());
    let mut actual_bits = [false; 10];
    let n = bit_reader.read_bits(&mut actual_bits);

    assert_eq!(n, 10);
    assert_eq!(expected_bits, actual_bits);
}

#[test]
fn writer_packs_most_significant_bit_first() {
    let mut w = Writer::new();
    w.write_bits(&[true, true, false, false, false, false, false, true, true]);
    assert_eq!(w.bytes().to_vec(), vec![0b1100_0001]);
    w.flush();
    assert_eq!(w.bytes().to_vec(), vec![0b1100_0001, 0b1000_0000]);
}

#[test]
fn flush_with_nothing_buffered_writes_nothing() {
    let mut w = Writer::new();
    w.flush();
    assert!(w.bytes().is_empty());
    w.write_bits(&[false; 8]);
    w.flush();
    assert_eq!(w.bytes().to_vec(), vec![0]);
}

#[test]
fn take_bytes_keeps_pending_bits() {
    let mut w = Writer::new();
    w.write_bits(&[true; 10]);
    assert_eq!(w.take_bytes(), vec![255]);
    assert!(w.bytes().is_empty());
    w.flush();
    assert_eq!(w.take_bytes(), vec![0b1100_0000]);
}

#[test]
fn reader_reads_fewer_bits_at_the_end() {
    let mut r = Reader::new(vec![0b1010_0000]);
    let mut bits = [true; 12];
    assert_eq!(r.read_bits(&mut bits), 8);
    assert_eq!(
        bits,
        [true, false, true, false, false, false, false, false, true, true, true, true]
    );
    assert!(r.is_at_end());
    assert_eq!(r.read_bit(), None);
}

#[test]
fn reader_reads_bytes_across_boundaries_and_aligns() {
    let mut r = Reader::new(vec![0b0001_0010, 0b0011_0100, 0xff]);
    assert_eq!(r.read_bit(), Some(false));
    assert_eq!(r.read_byte(), Some(0b0010_0100));
    r.align();
    assert_eq!(r.read_byte(), Some(0xff));
    assert_eq!(r.read_byte(), None);
    assert!(r.is_at_end());
}

#[test]
fn read_byte_with_too_few_bits_consumes_nothing() {
    let mut r = Reader::new(vec![0b1000_0000]);
    assert_eq!(r.read_bit(), Some(true));
    assert_eq!(r.read_byte(), None);
    assert_eq!(r.read_bit(), Some(false));
}
