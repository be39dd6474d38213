//! A verified inverted index over plain-text books: tokenizing, the binary
//! on-disk index format (writing and reading), word lookup and the small
//! text helpers around them.

pub mod le;
pub mod text;
pub mod lex;
pub mod word_map;
pub mod index_io;
pub mod search;
pub mod gutenberg;
pub mod indexer;
pub mod pipeline;
pub mod tools;
pub mod web;
pub mod corpus;

