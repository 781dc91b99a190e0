use vstd::prelude::*;

pub mod decimal;
pub mod divisible;
pub mod input;
pub mod laws;
pub mod output;

verus! {

} // verus!
