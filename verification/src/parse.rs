//! The first parser generation: its syntax trees and the expectations with
//! which it matches rules.
pub mod syntree;
pub mod fit_rules;

use vstd::prelude::*;
use crate::table::Table;
use crate::lanparser::declaration::{PhraseContext, TemplateNode};

verus! {

/// The grammar's parts, by name.
pub type PhraseRulesCollection<'p> = &'p Table<PhraseContext>;

/// The nodes of a rule still to be matched.
pub type ParsingRule<'p> = &'p [TemplateNode];

} // verus!
