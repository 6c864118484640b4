//! A compiler from JordanCalculus, an untyped lambda calculus written in
//! Katakana, to WebAssembly text, together with the logic of its
//! go-to-definition language server.
//!
//! - [`syntax`], [`lexer`], [`parser`]: expressions, tokens and the grammar;
//!   [`notation`] states how expressions are written and that parsing reads them back.
//! - [`program`]: comments, definitions and imports, expanded into one expression.
//! - [`compile`]: the WebAssembly text module of an expression.
//! - [`position`], [`outline`], [`definition`], [`server`]: the language server's
//!   positions, spanned parse, go-to-definition, and message handling.
//! - [`text`], [`error`]: building text, and the messages of syntax errors.

pub mod syntax;
pub mod text;
pub mod error;
pub mod lexer;
pub mod parser;
pub mod notation;
pub mod compile;
pub mod position;
pub mod outline;
pub mod definition;
pub mod server;
pub mod program;

pub use compile::compile_wat;
pub use parser::parse;
pub use syntax::Expr;
