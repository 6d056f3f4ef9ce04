use vstd::prelude::*;

verus! {

/// How a `NodeSpec` is spread across a mesh's devices.
#[derive(Debug, Clone, Copy, PartialEq, Eq, Structural)]
pub enum Parallelity {
    /// Every device runs its own full, independent copy; each device's own
    /// tensors resolve their sizes independently.
    Data,
    /// One logical op is split across devices, each computing its own slice
    /// in parallel; sizes are proportioned from a shared total and the slices
    /// need combining afterwards.
    Tensor,
    /// Sequential stages: a later stage needs an earlier stage's output
    /// before it can run.
    Pipeline,
}

} // verus!
