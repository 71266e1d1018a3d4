use vstd::prelude::*;

pub mod wire;
pub mod message;
pub mod server;

verus! {

} // verus!
