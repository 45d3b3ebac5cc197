use vstd::prelude::*;

pub mod fold;
pub mod highlight;
pub mod pathkey;
pub mod paths;
pub mod scanner;
pub mod text;
pub mod trash;
pub mod ui;

verus! {

} // verus!
