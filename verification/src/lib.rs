use vstd::prelude::*;

pub mod hints;
pub mod laws;
pub mod router;
pub mod tagger;
pub mod trace;

verus! {

} // verus!
