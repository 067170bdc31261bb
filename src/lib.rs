//! A single-pass lexer that turns source text into a tree of tokens with
//! inclusive byte-offset spans.

pub mod span;
pub mod token;
pub mod lexer;
pub mod laws;

pub use span::{Span, Str, StrView};
pub use token::{
    Block, Cursor, Delim, Ident, LexerError, Lit, LitKind, Punct, Spacing, Token, TokenModel,
    TokenStream,
};
