//! Number tables in the text of source files.
pub mod laws;
pub mod pieces;
pub mod tables;
pub mod text;

pub use tables::{parse_fixed_array, parse_macro_arguments, parse_sbr_huffman_table};
