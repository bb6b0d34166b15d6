//! A Mustache template renderer: a tokenizer, a syntax-tree builder and a
//! renderer that walks the tree with a stack of data frames.
//!
//! [`render`] is the entry point. Each stage is specified over mathematical
//! sequences, and each executable function is proved to compute what its
//! stage specifies:
//!
//! - [`token`]: template text to tokens;
//! - [`syntax_tree`]: tokens to a forest, with standalone tags marked and the
//!   whitespace around them removed;
//! - [`render`](mod@render): the forest to output, against a stack of data
//!   frames;
//! - [`value`]: the data tree and the resolution of names in it;
//! - [`yaml`]: the YAML reader, the one part that is believed and not proved;
//! - [`laws`]: what holds of every template.
pub mod error;
pub mod laws;
pub mod render;
pub mod syntax_tree;
pub mod text;
pub mod token;
pub mod utils;
pub mod value;
pub mod yaml;

pub use crate::error::RibboncurlsError;
pub use crate::render::render;
pub use crate::syntax_tree::SyntaxItem;
pub use crate::token::Token;
