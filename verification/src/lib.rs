//! Parsing and validating postal addresses written in the usual block form
//! (street lines, then a "City, ST ZIP" line), with canonical text and JSON
//! rendering. US addresses live in `address`, Canadian ones in
//! `international`; `text` holds the character-level helpers both share,
//! `report` renders a batch of results, and `laws` states and proves the
//! properties that hold for every input. `tables` lists the state, province
//! and street-suffix codes and proves they are exactly the ones accepted;
//! `rendering` states how the JSON and text outputs are laid out.
use vstd::prelude::*;

pub mod address;
pub mod international;
pub mod laws;
pub mod rendering;
pub mod report;
pub mod tables;
pub mod text;

verus! {

} // verus!
