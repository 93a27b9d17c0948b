//! Boa and Diamondback: an expression language of integers, booleans,
//! primitives and conditionals, with the untyped Boa semantics (booleans are
//! 0 and 1) and the dynamically typed Diamondback semantics (a primitive
//! applied to a value of the wrong kind is a runtime error).

pub mod ast;
pub mod interp;
