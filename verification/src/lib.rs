//! Lossless compression of byte buffers with static Huffman coding.
//!
//! A buffer is encoded in five steps: its bytes are counted, a code tree is built
//! from the counts, a code table is read off the tree, the codes of the bytes are
//! written one behind the other, and the bits are framed and packed into bytes.
//! Decoding goes the steps back, with the code table at hand.

pub mod data;
pub mod encoding_map;
pub mod encoding_stats;
pub mod error;
pub mod frequency_map;
pub mod huffman;
pub mod huffman_tree;
pub mod node;

pub use crate::huffman::HuffmanData;
