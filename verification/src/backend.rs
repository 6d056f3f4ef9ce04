use vstd::prelude::*;

verus! {

/// What a kernel does with one of its bindings.
#[derive(Debug, Clone, Copy, PartialEq, Eq, Structural)]
pub enum TensorMode {
    Input,
    /// Fully overwritten by the kernel: prior contents (pool garbage
    /// included) never leak into the result.
    Output,
    /// Read-modify-write where the old value is consumed.
    InOut,
    /// Read-add-write: the kernel does `buf += result`, so the caller must
    /// hand over initialized contents.
    Accumulate,
    Meta,
}

/// Element type of a buffer.
#[derive(Debug, Clone, Copy, PartialEq, Eq, Hash, Structural)]
pub enum Dtype {
    F32,
    F16,
    Bf16,
}

/// Whether a kernel only reads a binding of this mode, so that the binding
/// can be declared read-only storage.
pub open spec fn is_read_only(mode: TensorMode) -> bool {
    mode == TensorMode::Input || mode == TensorMode::Meta
}

impl TensorMode {
    pub fn read_only(self) -> (r: bool)
        ensures
            r == is_read_only(self),
    {
        match self {
            TensorMode::Input | TensorMode::Meta => true,
            _ => false,
        }
    }
}

/// The storage entries of a kernel's bind-group layout: slot `i` of the
/// layout becomes binding number `i`, read-only exactly when the kernel only
/// reads it.
pub fn storage_entries(layout: &[TensorMode]) -> (r: Vec<(u32, bool)>)
    requires
        layout@.len() <= u32::MAX + 1,
    ensures
        r@.len() == layout@.len(),
        forall|i: int| 0 <= i < r@.len() ==> #[trigger] r@[i] == (i as u32, is_read_only(layout@[i])),
{
    let mut r: Vec<(u32, bool)> = Vec::new();
    let mut i: usize = 0;
    while i < layout.len()
        invariant
            i <= layout@.len(),
            layout@.len() <= u32::MAX + 1,
            r@.len() == i,
            forall|j: int| 0 <= j < i ==> #[trigger] r@[j] == (j as u32, is_read_only(layout@[j])),
        decreases layout@.len() - i,
    {
        let ro = layout[i].read_only();
        r.push((i as u32, ro));
        i = i + 1;
    }
    r
}

/// Size in bytes of one element of the type.
pub open spec fn dtype_size(d: Dtype) -> nat {
    match d {
        Dtype::F32 => 4,
        Dtype::F16 | Dtype::Bf16 => 2,
    }
}

impl Dtype {
    pub fn elem_size(self) -> (r: usize)
        ensures
            r == dtype_size(self),
    {
        match self {
            Dtype::F32 => 4,
            Dtype::F16 | Dtype::Bf16 => 2,
        }
    }
}

/// One buffer bound to one slot of a kernel, with the mode the caller
/// claims for it.
pub struct Binding<'a, Buf> {
    pub slot: u32,
    pub buffer: &'a Buf,
    pub mode: TensorMode,
}

impl<'a, Buf> Binding<'a, Buf> {
    pub fn new(slot: u32, buffer: &'a Buf, mode: TensorMode) -> (r: Self)
        ensures
            r.slot == slot,
            r.buffer == buffer,
            r.mode == mode,
    {
        Binding { slot, buffer, mode }
    }
}

/// Why a binding does not fit a kernel's layout.
#[derive(Debug, Clone, Copy, PartialEq, Eq, Structural)]
pub enum LayoutMismatch {
    /// The slot lies past the end of the layout, which has `layout_len` slots.
    SlotOutOfRange { slot: u32, layout_len: usize },
    /// The layout declares `expected` for the slot, the binding claims `got`.
    WrongMode { slot: u32, expected: TensorMode, got: TensorMode },
}

/// A binding fits a layout when its slot exists and its mode is the one the
/// layout declares for that slot.
pub open spec fn binding_fits(layout: Seq<TensorMode>, slot: u32, mode: TensorMode) -> bool {
    slot < layout.len() && layout[slot as int] == mode
}

/// The error reported for a binding that does not fit.
pub open spec fn misfit_error(layout: Seq<TensorMode>, slot: u32, mode: TensorMode) -> LayoutMismatch {
    if slot >= layout.len() {
        LayoutMismatch::SlotOutOfRange { slot, layout_len: layout.len() as usize }
    } else {
        LayoutMismatch::WrongMode { slot, expected: layout[slot as int], got: mode }
    }
}

/// Checks every binding against the kernel's layout, in order, and reports
/// the first one that does not fit.
pub fn check_layout<Buf>(layout: &[TensorMode], bindings: &[Binding<Buf>]) -> (r: Result<(), LayoutMismatch>)
    ensures
        r is Ok <==> forall|i: int|
            0 <= i < bindings@.len() ==> binding_fits(layout@, #[trigger] bindings@[i].slot, bindings@[i].mode),
        r matches Err(e) ==> exists|i: int|
            0 <= i < bindings@.len()
            && (forall|j: int| 0 <= j < i ==> binding_fits(layout@, #[trigger] bindings@[j].slot, bindings@[j].mode))
            && !binding_fits(layout@, bindings@[i].slot, bindings@[i].mode)
            && e == misfit_error(layout@, bindings@[i].slot, bindings@[i].mode),
{
    let mut i: usize = 0;
    while i < bindings.len()
        invariant
            i <= bindings@.len(),
            forall|j: int| 0 <= j < i ==> binding_fits(layout@, #[trigger] bindings@[j].slot, bindings@[j].mode),
        decreases bindings@.len() - i,
    {
        let b = &bindings[i];
        let slot = b.slot;
        if slot as usize >= layout.len() {
            return Err(LayoutMismatch::SlotOutOfRange { slot, layout_len: layout.len() });
        }
        let expected = layout[slot as usize];
        if expected != b.mode {
            return Err(LayoutMismatch::WrongMode { slot, expected, got: b.mode });
        }
        i = i + 1;
    }
    Ok(())
}

} // verus!
