use vstd::prelude::*;

pub mod shaders;

verus! {

} // verus!
