use vstd::prelude::*;

pub mod dictionary;
pub mod game;
pub mod lookup_laws;
pub mod protocol;
pub mod radix;
pub mod radix_laws;
pub mod text;

verus! {

} // verus!
