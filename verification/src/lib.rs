//! Small compilers and interpreters for the snake family of teaching languages,
//! with their lexers, parsers, lowerings to SSA and runtime value encodings.

pub mod text;
pub mod collections;
pub mod basic_block;
pub mod ll1;
pub mod diamondback;
pub mod numeral;
pub mod neonate;
pub mod adder;
pub mod adder_input;
pub mod scope;
pub mod tagged;
pub mod tagged_heap;
pub mod syntax;
pub mod arguments;
pub mod assembly;
pub mod lexing;
