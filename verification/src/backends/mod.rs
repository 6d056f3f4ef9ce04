use vstd::prelude::*;

pub mod cpu;
pub mod cuda;
pub mod wgpu;

pub use crate::shader::{CpuBinding, CpuBuffer};

verus! {

/// A CPU implementation of a kernel: it runs over the bindings of one
/// dispatch. Every function or closure over the bindings is one.
pub trait CpuKernelFn: Sync {
    /// The kernel accepts these bindings.
    spec fn accepts(&self, bindings: &[CpuBinding]) -> bool;

    fn run(&self, bindings: &[CpuBinding])
        requires
            self.accepts(bindings),
    ;
}

impl<F: Fn(&[CpuBinding]) + Sync> CpuKernelFn for F {
    open spec fn accepts(&self, bindings: &[CpuBinding]) -> bool {
        call_requires(*self, (bindings,))
    }

    fn run(&self, bindings: &[CpuBinding]) {
        self(bindings)
    }
}

/// How one backend runs a kernel: for wgpu, the WGSL source of the kernel;
/// for the CPU backends, the function that runs it.
pub enum BackendDispatch {
    Wgpu(&'static str),
    Cpu(&'static dyn CpuKernelFn),
    Rayon(&'static dyn CpuKernelFn),
}

} // verus!
