//! A compiler for a whitespace-sensitive HTML templating notation: a lexer
//! turning characters into line-oriented tokens, a parser validating
//! indentation and building a document tree, and a renderer serialising that
//! tree to HTML.

pub mod dom_tree;
pub mod engine;
pub mod error;
pub mod format;
pub mod input_reader;
pub mod lexer;
pub mod parser;
pub mod text;
pub mod token;

pub use engine::Engine;
pub use format::HtmlFormat;
