//! A small linear-algebra core: a rectangular matrix of exact numeric values
//! and a closed set of elementary row operations over it. Every operation
//! validates its operands against the matrix's shape and either produces a
//! new matrix or a structured error; the input matrix is never mutated.

pub mod element;
pub mod matrix;
pub mod rational;
pub mod ui;
