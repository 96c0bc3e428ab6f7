//! The grammar: identifiers, lines and indented paragraphs; arguments; sections.

pub mod argument;
pub mod common;
pub mod docstring;
pub mod plain_paragraph;
