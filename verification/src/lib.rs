//! Small verified library with three independent parts: an ordered binary
//! tree that linearizes its contents into a sorted vector, a parser and a
//! printer for currency strings, and a predicate used to pick out names that
//! begin with the letter W.

pub mod greet;
pub mod parse;
pub mod printer;
pub mod tree;
