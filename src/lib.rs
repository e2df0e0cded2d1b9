//! Block-oriented Huffman compression: a bit-level writer and reader, a
//! deterministic Huffman code builder, and a self-contained block format.
pub mod args;
pub mod bits;
pub mod codec;
pub mod decode;
pub mod huffman;
pub mod input;
pub mod output;
pub mod roundtrip;
pub mod stream;
