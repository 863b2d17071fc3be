//! A grammar-driven sentence parser: grammars written in the LAN notation
//! describe parts and their production rules, dictionaries list the vocabulary
//! of each category, and the parser builds a syntax tree for a sentence.
pub mod text;
pub mod assembling;
pub mod lan;
pub mod table;
pub mod lanparser;
pub mod concrete;
pub mod dictionary;
pub mod parse;
