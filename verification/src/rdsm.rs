use vstd::prelude::*;

pub mod galois;
pub mod lookup;
pub mod poly;

verus! {

} // verus!
