//! Span-touch history used to debug panics, and the classification of tokens
//! for syntax highlighting in the IDE.

pub mod ast;
pub mod debug;
pub mod dev_aid;
pub mod parser;
pub mod tokenizer;
