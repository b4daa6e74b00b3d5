//! Huffman coding over an arbitrary alphabet of symbols: frequency
//! analysis, greedy tree construction, code tables, decoding by tree
//! traversal and a preorder record form of the tree for persistence.
pub mod huffman;
pub mod zip;
