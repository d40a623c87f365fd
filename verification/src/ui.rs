//! The surface consumed by an interactive front end: the command layer that
//! turns a validated row operation into a new matrix, and the plain data of
//! a number-prompting dialog.

pub mod command;
pub mod number_dialog;
