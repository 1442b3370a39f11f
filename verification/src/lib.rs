use vstd::prelude::*;

pub mod common;
pub mod text;
pub mod graph;
pub mod order;
pub mod check;
pub mod subnode;
pub mod cycle;
pub mod json;
pub mod feedback;
pub mod ctx;
pub mod refresh;
pub mod store;
pub mod snapshot;
pub mod embed;
pub mod settings;
pub mod cli;

verus! {

} // verus!
