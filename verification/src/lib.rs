//! Rules and display logic of a tabletop character builder and compendium.
use vstd::prelude::*;

pub mod abilities;
pub mod asi;
pub mod builder;
pub mod classes;
pub mod counting;
pub mod items;
pub mod labels;
pub mod matching;
pub mod picks;
pub mod prereqs;
pub mod progress;
pub mod save;
pub mod session;
pub mod sheet;
pub mod slots;
pub mod sorted;
pub mod sources;
pub mod species;
pub mod text;
pub mod validation;

verus! {

} // verus!
