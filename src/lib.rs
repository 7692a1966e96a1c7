use vstd::prelude::*;

pub mod cursor;
pub mod header;
pub mod mark;

verus! {

} // verus!
