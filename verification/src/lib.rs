//! Name generation from XML rule files: a verified model of the XML
//! document, the rules and rulesets read from it, weighted selection, and
//! the Markov chains trained on its lists.
use vstd::prelude::*;

pub mod text;
pub mod xml;
pub mod xmlparse;
pub mod mchain;
pub mod document;
pub mod namegen;
pub mod fixedgen;

verus! {

} // verus!
