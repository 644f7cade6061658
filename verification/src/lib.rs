//! Huffman coding over any symbol type with a total order: a frequency table,
//! the tree builder with its tie-breaking order, the encoder and the decoder,
//! and a container that carries the tree with the packed bits. The tree that
//! is built is a function of the counts alone, its codewords form a prefix
//! code, decoding gives back what was encoded, and no other tree over the same
//! symbols needs fewer bits.

pub mod bits;
pub mod compressed;
pub mod huffman_tree;
pub mod symbol;
