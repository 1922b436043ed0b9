//! A Huffman codec over bytes: frequency counting, tree construction,
//! code derivation and bit-level encoding and decoding.
//!
//! The stages are kept apart. `count_symbols` tallies the bytes of an input,
//! `build_tree` makes the tree from the tally, `codes_from_tree` flattens the
//! tree into a code table, `encode` turns bytes into packed code bits with
//! the table, and `decode` reads packed bits back into bytes with the tree.
//!
//! The packed stream carries no end marker. `encode` hands back the bits
//! that did not fill a byte; `encode_padded` writes them as a last byte
//! filled up with zero bits, and `decode_counted` stops after a given number
//! of symbols, so that the padding is never read as a symbol.

pub mod bit_buf;
pub mod bit_iter;
pub mod bits;
pub mod builder;
pub mod code;
pub mod codec;
pub mod counts;
pub mod decode;
pub mod depth;
pub mod encode;
pub mod error;
pub mod keyed;
pub mod laws;
pub mod queue;
pub mod tree;

pub use crate::bit_buf::BitBuf;
pub use crate::bit_iter::BitIter;
pub use crate::builder::build_tree;
pub use crate::code::{bits_to_string, codes_from_tree, SymbolCode, SymbolCodes};
pub use crate::codec::recode;
pub use crate::counts::{count_symbols, SymbolCounts};
pub use crate::decode::{decode, decode_counted, decode_symbol};
pub use crate::encode::{encode, encode_padded, Remainder};
pub use crate::error::HuffError;
pub use crate::keyed::Keyed;
pub use crate::queue::MinQueue;
pub use crate::tree::{HuffLeaf, HuffNode, HuffParent};
