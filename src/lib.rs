use vstd::prelude::*;

pub mod batching;
pub mod consumer;
pub mod producer;

verus! {

} // verus!
