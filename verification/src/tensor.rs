use vstd::prelude::*;

verus! {

/// Number of whole elements of `elem_size` bytes in a tensor of
/// `size_bytes` logical bytes.
pub open spec fn logical_elems(size_bytes: u64, elem_size: usize) -> int {
    ((size_bytes as usize) / elem_size) as int
}

/// Cuts a buffer read back from the device down to the tensor's logical
/// size: the physical buffer may be larger, and its tail is pool garbage.
pub fn truncate_to_logical<T>(v: Vec<T>, size_bytes: u64, elem_size: usize) -> (r: Vec<T>)
    requires
        elem_size > 0,
    ensures
        v@.len() <= logical_elems(size_bytes, elem_size) ==> r@ == v@,
        v@.len() > logical_elems(size_bytes, elem_size) ==> r@ == v@.take(logical_elems(size_bytes, elem_size)),
{
    let mut v = v;
    let n = (size_bytes as usize) / elem_size;
    v.truncate(n);
    v
}

} // verus!
