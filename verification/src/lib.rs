//! Static Huffman coding over a bit-packed sequence type.
//!
//! [`bit_vec`] holds the growable bit sequence in which codewords and
//! compressed streams are stored. [`huffman`] builds an optimal prefix code
//! from a table of symbol counts and derives an encoder and a decoder from
//! it. [`code_tree`] is the mathematical model of such a code, with the
//! proofs that its codewords are prefix-free and decode to their symbols.
//! [`optimality`] defines the tree that merging builds and proves that no
//! prefix-free code is cheaper, and [`sums`] holds the arithmetic of finite
//! sums that the proofs rest on.

pub mod bit_vec;
pub mod code_tree;
pub mod huffman;
pub mod optimality;
pub mod sums;
