//! A lossless, error-tolerant front end for a small imperative language:
//! a lexer, an event-driven parser with markers, and a tree builder.
pub mod event;
pub mod grammar;
pub mod lexer;
pub mod parser;
pub mod syntax;
pub mod tree;

pub use crate::event::{Step, StepEvent};
pub use crate::lexer::{is_whitespace, tokenize, Cursor, Token, TokenKind};
pub use crate::parser::{CompletedMarker, Marker, Parser};
pub use crate::syntax::{SyntaxKind, TipLanguage};
pub use crate::tree::{build, flatten, parse, Input, Parse, SyntaxError, TreeEvent};
