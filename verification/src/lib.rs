//! Boolean tag queries over an index of tagged locations.
//!
//! A query such as `work & !done` is tokenized by [`lexer::Lexer`], parsed
//! into a [`query::Query`] tree by [`parser::Parser`] and evaluated by
//! [`matcher::Matcher`] against an index built from `(tag, location)` pairs.
//! [`tags`] reads those pairs from the text of a ctags-style file.
pub mod ascending;
pub mod index;
pub mod lexer;
pub mod location;
pub mod matcher;
pub mod parser;
pub mod query;
pub mod tags;
pub mod text;
pub mod token;
