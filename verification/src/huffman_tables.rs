//! Huffman codebooks as two-bit stepping tables.
//!
//! A row holds one entry for each value of two look-ahead bits. An entry with
//! bit 0 clear links to the row `entry >> 2`; an entry with bit 0 set is a leaf
//! that holds `entry >> 2`, and bit 1 of a leaf says that only the first of the
//! two bits belongs to the codeword. Rows are numbered by their depth.

pub mod codebook_1;
pub mod codebook_2;
pub mod codebook_3;
pub mod codebook_4;
pub mod codebook_5;
pub mod codebook_6;
pub mod codebook_7;
pub mod codebook_8;
pub mod codebook_9;
pub mod codebook_10;
pub mod codebook_11;
pub mod scalefactor;

pub use codebook_1::HUFFMAN_CODEBOOK_1;
pub use codebook_2::HUFFMAN_CODEBOOK_2;
pub use codebook_3::HUFFMAN_CODEBOOK_3;
pub use codebook_4::HUFFMAN_CODEBOOK_4;
pub use codebook_5::HUFFMAN_CODEBOOK_5;
pub use codebook_6::HUFFMAN_CODEBOOK_6;
pub use codebook_7::HUFFMAN_CODEBOOK_7;
pub use codebook_8::HUFFMAN_CODEBOOK_8;
pub use codebook_9::HUFFMAN_CODEBOOK_9;
pub use codebook_10::HUFFMAN_CODEBOOK_10;
pub use codebook_11::HUFFMAN_CODEBOOK_11;
pub use scalefactor::HUFFMAN_CODEBOOK_SCL;
