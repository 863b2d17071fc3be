//! Dictionaries as the first parser generation reads them. Their format and
//! their words are those of [`crate::lan::dictionary`], whose reader is used.
pub use crate::lan::dictionary::{Voca, VocaV, Dictionary, load_dictionary, voca_of, spec_load};
