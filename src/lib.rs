//! Huffman coding: frequency analysis, greedy tree construction, code
//! assignment, bit packing and a self-describing binary container.
//!
//! `compress` and `decompress` are the two ends; the modules hold the stages
//! and the laws that tie them together (see `laws`).

pub mod bits;
pub mod codec;
pub mod codes;
pub mod container;
pub mod laws;
pub mod packing;
pub mod tree;

pub use bits::{push_value_bits, value_of_bits};
pub use codec::{compress, count_frequencies, decode_huffman_data, decompress, encode_message};
pub use codes::assign_codes;
pub use container::{
    encode_table, parse_huffman_data, read_u64_be, serialize_huffman_data, table_codes, write_u64_be,
    HuffmanData, Table,
};
pub use packing::{decode_bits, encode_bits, pack_bits, unpack_bytes};
pub use tree::{create_tree, HuffmanNode};

use vstd::prelude::*;

verus! {

/// Why a compress or decompress operation failed.
#[derive(Debug, Clone, Copy, PartialEq, Eq)]
pub enum HuffmanError {
    /// The frequency table had no entry: there is nothing to build a tree from.
    EmptyInput,
    /// A code table cannot be stored: a code is longer than the container's
    /// 64-bit code field, or there are more entries than its count field holds.
    UnassignableCode,
    /// The packed bits do not match the code table.
    CorruptData,
    /// The container is truncated or its header is inconsistent.
    MalformedContainer,
    /// A symbol lies outside the one-byte alphabet the container can hold.
    UnsupportedSymbol,
}

} // verus!
