//! A lightweight markup-to-HTML converter.
//!
//! The library reads a document as a sequence of lines, classifies each
//! line's leading character into a block construct (heading, list,
//! blockquote, fenced code, raw passthrough, paragraph), and rewrites the
//! inline constructs of each line (emphasis, links, anchors, raw code
//! spans, escapes, horizontal rules) into HTML fragments.  The behaviour
//! of the whole conversion is pinned down by spec functions, and the
//! executable lexer is proved to follow them exactly.
#![verifier::loop_isolation(false)]

mod blocks;
mod classify;
mod inline;
mod numfmt;
mod lexer;

pub use classify::Pred;
pub use lexer::Error;
pub use lexer::Lexer;
