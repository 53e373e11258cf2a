//! A small AsciiDoc reader: a line-oriented block grammar, an inline
//! scanner, a pass that folds attribute lines into the delimited block that
//! follows them, and an HTML emitter.
pub mod ast;
pub mod block;
pub mod html;
pub mod inline;
pub mod laws;
pub mod lines;
pub mod parser;
pub mod text;

pub use ast::{
    Attribute, Block, BlockMetadataKind, DelimitedBlockKind, Document, FormattedTextKind, Header,
    InlineElement, ListItem, ListKind, MacroKind,
};
pub use parser::{AsciiDocParser, ParseError};
