use vstd::prelude::*;
use std::sync::{Arc, Mutex};


verus! {

#[verifier::external_type_specification]
#[verifier::external_body]
#[verifier::reject_recursive_types(T)]
pub struct ExMutex<T: ?Sized>(Mutex<T>);

pub type CpuBuffer = Arc<Mutex<Vec<u8>>>;

/// A buffer bound to a slot, as the CPU kernels see it.
#[derive(Clone)]
pub struct CpuBinding {
    pub slot: u32,
    pub buffer: CpuBuffer,
}


} // verus!
