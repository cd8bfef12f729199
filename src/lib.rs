//! CSS lexing, selector matching and style application over a document arena.

pub mod apply;
pub mod declaration;
pub mod element;
pub mod lexer;
pub mod lexer_util;
pub mod matching;
pub mod node;
pub mod rules;
pub mod values;
