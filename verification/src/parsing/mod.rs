//! The term language: its syntax tree and its parser.

pub mod ast;
pub mod babel;

pub use self::babel as parser;
