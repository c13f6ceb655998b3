//! ZSO container codec: a block-compressed disc image format with a
//! random-access index. Every sector block is stored either LZ4-compressed
//! or verbatim, behind a 24-byte header and a table of 32-bit offsets.

pub mod bytes;
pub mod header;
pub mod align;
pub mod index;
pub mod error;
pub mod lz4_block;
pub mod block;
pub mod container;
pub mod layout;
pub mod fidelity;
