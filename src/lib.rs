use vstd::prelude::*;

pub mod guess;
pub mod text;
pub mod rule;
pub mod store;
pub mod plan;
pub mod parser;

verus! {

} // verus!
