//! A single-pass, recursive-descent JSON parser over the bytes of a text buffer,
//! verified against a mathematical description of the accepted grammar.
pub mod grammar;
pub mod json;
pub mod laws;
pub mod parse;
pub mod utf8_facts;
pub mod written;
