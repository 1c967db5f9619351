//! A small language of instructions written as data: its sparse vectors, grammar, values,
//! instruction forms, built-in macros and built-in operations, with their contracts.
pub mod radix;
pub mod sparsevec;
pub mod text;
pub mod data;
pub mod create;
pub mod parse;
pub mod inst;
pub mod macros;
pub mod arith;
pub mod random;
