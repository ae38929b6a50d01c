//! A small JSON-like document decoder.
//!
//! - `lexer`: splits a text into tokens, each a span of the input with its kind and offset;
//!   proved equal to the spec lexer `lex`, and proved to account for every input byte.
//! - `lexemes`: the same tokens with their kind written as one byte.
//! - `parser`: recursive descent from tokens to a `Value`, proved equal to the grammar's
//!   spec functions (`value_at`, `tokens_value`, `document_value`).
//! - `value`: the decoded tree and its model.
//! - `grammar`, `layout`: documents as the grammar derives them, and the laws that each one
//!   decodes to the value it denotes, however whitespace is laid out between its tokens.
//! - `text`: the one conversion from bytes to text that the library takes from std.
pub mod grammar;
pub mod layout;
pub mod lexemes;
pub mod lexer;
pub mod parser;
pub mod text;
pub mod value;
