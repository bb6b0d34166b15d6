//! Laws of the renderer: statements that hold of every template, every data
//! tree and every context, each proved from the specifications of the stages.
//!
//! - [`rendering`]: rendering is compositional, partials are isolated, and a
//!   section and its inverse follow the truthiness of their value;
//! - [`truthiness`]: the truthiness law from the template text to the output;
//! - [`stability`]: a comment or a change of delimiters that stands alone on
//!   a line leaves no trace, stated of token sequences;
//! - [`comment_line`]: the same for comments, from the template text;
//! - [`delimiter_line`]: the same for a change of delimiters before plain
//!   text, from the template text;
//! - [`indentation`]: what an indented partial of plain text expands to;
//! - [`lines`]: an indented partial that reaches no other partial, and
//!   whose values stand within a line, is its expansion with the
//!   indentation before each line;
//! - [`balance`]: what holds of every token sequence the tokenizer returns;
//! - [`prefix`] and [`suffix`]: the tokenizer up to a line break, and from a
//!   position on.
pub mod balance;
pub mod comment_line;
pub mod delimiter_line;
pub mod indentation;
pub mod lines;
pub mod prefix;
pub mod rendering;
pub mod stability;
pub mod suffix;
pub mod truthiness;
