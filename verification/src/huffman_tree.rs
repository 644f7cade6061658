//! The codec: nodes and their order, the frequency table and the builder, the
//! encoder and the decoder, and what is proved of them.

pub mod coding;
pub mod exchange;
pub mod forest;
pub mod heap;
pub mod huffman_decoder;
pub mod huffman_element;
pub mod huffman_encoder;
pub mod huffman_generator;
pub mod huffman_node;
pub mod laws;
pub mod merge;
pub mod optimal;
pub mod tree_laws;
pub mod weighted;
