//! The decisions of the CUDA backend that do not touch the device: the
//! capture life cycle of a graph, the checks a generic dispatch makes on a
//! kernel's layout, the launch grid of a 1-D kernel, and the cuBLAS shape of
//! a row-major matrix product.

use vstd::prelude::*;

use crate::backend::{is_read_only, TensorMode};

verus! {

// ---------------------------------------------------------------------------
// Capture life cycle
// ---------------------------------------------------------------------------

/// How far a graph kept under one key has come.
#[derive(Debug, Clone, Copy, PartialEq, Eq, Structural)]
pub enum CaptureStage {
    /// Run once without capture, so first-call allocations stay outside.
    Warmed,
    /// Recorded; later runs replay the recording.
    Captured,
}

/// What one captured run of a graph does.
#[derive(Debug, Clone, Copy, PartialEq, Eq, Structural)]
pub enum CaptureAction {
    /// Dispatch the nodes one by one, without recording.
    WarmUp,
    /// Dispatch the nodes while recording them, then launch the recording.
    Record,
    /// Launch the recording made earlier.
    Replay,
}

/// The action a captured run takes in a given stage, and the stage after.
pub open spec fn capture_step(stage: Option<CaptureStage>) -> (CaptureAction, CaptureStage) {
    match stage {
        None => (CaptureAction::WarmUp, CaptureStage::Warmed),
        Some(CaptureStage::Warmed) => (CaptureAction::Record, CaptureStage::Captured),
        Some(CaptureStage::Captured) => (CaptureAction::Replay, CaptureStage::Captured),
    }
}

/// Decides what a captured run of a graph does, from the stage its key has
/// reached (`None` for a key never run).
pub fn next_capture_action(stage: Option<CaptureStage>) -> (r: (CaptureAction, CaptureStage))
    ensures
        r == capture_step(stage),
{
    match stage {
        None => (CaptureAction::WarmUp, CaptureStage::Warmed),
        Some(CaptureStage::Warmed) => (CaptureAction::Record, CaptureStage::Captured),
        Some(CaptureStage::Captured) => (CaptureAction::Replay, CaptureStage::Captured),
    }
}

/// The stage a key reaches after `runs` captured runs from scratch.
pub open spec fn stage_after(runs: nat) -> Option<CaptureStage>
    decreases runs,
{
    if runs == 0 {
        None
    } else {
        Some(capture_step(stage_after((runs - 1) as nat)).1)
    }
}

/// A graph run under a fresh key is warmed up on its first run, recorded on
/// its second, and replayed on every run after that.
pub proof fn lemma_capture_life_cycle(runs: nat)
    ensures
        runs == 0 ==> capture_step(stage_after(runs)).0 == CaptureAction::WarmUp,
        runs == 1 ==> capture_step(stage_after(runs)).0 == CaptureAction::Record,
        runs >= 2 ==> capture_step(stage_after(runs)).0 == CaptureAction::Replay,
    decreases runs,
{
    assert(stage_after(0) == None::<CaptureStage>);
    assert(stage_after(1) == Some(CaptureStage::Warmed));
    if runs >= 2 {
        lemma_capture_life_cycle((runs - 1) as nat);
        if runs == 2 {
            assert(stage_after(1) == Some(CaptureStage::Warmed));
        }
    }
}

// ---------------------------------------------------------------------------
// Generic dispatch checks
// ---------------------------------------------------------------------------

/// Why a kernel's layout does not suit the generic CUDA dispatch.
#[derive(Debug, Clone, Copy, PartialEq, Eq, Structural)]
pub enum GenericShapeError {
    /// The layout has `count` meta slots; the generic dispatch takes one.
    TooManyMeta { count: usize },
    /// The meta slot is not the last binding.
    MetaNotLast { slot: usize },
    /// Meta fields are declared but the layout has no meta slot.
    FieldsWithoutMeta { count: usize },
    /// The meta buffer holds `words` words, fewer than the `fields` declared.
    MetaBufferTooSmall { words: usize, fields: usize },
    /// The kernel asks for the first buffer's length but has no buffer.
    NoBufferForLen,
}

/// Number of meta slots among the first `n` slots.
pub open spec fn meta_count(layout: Seq<TensorMode>, n: int) -> nat
    decreases n,
{
    if n <= 0 {
        0
    } else {
        meta_count(layout, n - 1) + (if layout[n - 1] == TensorMode::Meta { 1nat } else { 0nat })
    }
}

/// What the generic dispatch concludes from a layout: its meta slot, if any.
pub open spec fn generic_meta_check(layout: Seq<TensorMode>, meta_fields: nat) -> Result<Option<usize>, GenericShapeError> {
    let count = meta_count(layout, layout.len() as int);
    if count > 1 {
        Err(GenericShapeError::TooManyMeta { count: count as usize })
    } else if count == 1 {
        let slot = choose|s: int| 0 <= s < layout.len() && layout[s] == TensorMode::Meta;
        if slot != layout.len() - 1 {
            Err(GenericShapeError::MetaNotLast { slot: slot as usize })
        } else {
            Ok(Some(slot as usize))
        }
    } else if meta_fields > 0 {
        Err(GenericShapeError::FieldsWithoutMeta { count: meta_fields as usize })
    } else {
        Ok(None)
    }
}

proof fn lemma_meta_count_bounds(layout: Seq<TensorMode>, n: int)
    requires
        0 <= n <= layout.len(),
    ensures
        meta_count(layout, n) <= n,
        meta_count(layout, n) == 0 <==> forall|s: int| 0 <= s < n ==> layout[s] != TensorMode::Meta,
    decreases n,
{
    if n > 0 {
        lemma_meta_count_bounds(layout, n - 1);
    }
}

/// A layout with exactly one meta slot among the first `n` slots has it
/// at `slot`, and no other.
proof fn lemma_single_meta(layout: Seq<TensorMode>, n: int, slot: int)
    requires
        0 <= slot < n <= layout.len(),
        layout[slot] == TensorMode::Meta,
        meta_count(layout, n) == 1,
    ensures
        forall|s: int| 0 <= s < n && s != slot ==> layout[s] != TensorMode::Meta,
    decreases n,
{
    if n - 1 == slot {
        lemma_meta_count_bounds(layout, n - 1);
    } else {
        lemma_meta_count_bounds(layout, n - 1);
        lemma_single_meta(layout, n - 1, slot);
    }
}

/// Checks a kernel's layout for the generic CUDA dispatch: at most one meta
/// slot, and that one last; no meta fields without a meta slot.
pub fn generic_meta_slot(layout: &[TensorMode], meta_fields: usize) -> (r: Result<Option<usize>, GenericShapeError>)
    ensures
        r == generic_meta_check(layout@, meta_fields as nat),
{
    let n = layout.len();
    let mut count: usize = 0;
    let mut first: usize = 0;
    let mut i: usize = 0;
    while i < n
        invariant
            i <= n == layout@.len(),
            count == meta_count(layout@, i as int),
            count > 0 ==> first < i && layout@[first as int] == TensorMode::Meta,
            count > 0 ==> forall|s: int| 0 <= s < first ==> layout@[s] != TensorMode::Meta,
            count == 0 ==> forall|s: int| 0 <= s < i ==> layout@[s] != TensorMode::Meta,
        decreases n - i,
    {
        proof {
            lemma_meta_count_bounds(layout@, i as int);
        }
        if layout[i] == TensorMode::Meta {
            if count == 0 {
                first = i;
            }
            count = count + 1;
        }
        i = i + 1;
    }
    proof {
        lemma_meta_count_bounds(layout@, n as int);
    }
    if count > 1 {
        return Err(GenericShapeError::TooManyMeta { count });
    }
    if count == 1 {
        proof {
            lemma_single_meta(layout@, n as int, first as int);
            let slot = choose|s: int| 0 <= s < layout@.len() && layout@[s] == TensorMode::Meta;
            assert(slot == first);
        }
        if first != n - 1 {
            return Err(GenericShapeError::MetaNotLast { slot: first });
        }
        return Ok(Some(first));
    }
    if meta_fields > 0 {
        return Err(GenericShapeError::FieldsWithoutMeta { count: meta_fields });
    }
    Ok(None)
}

/// How a kernel is launched through the generic dispatch.
pub struct GenericLaunch {
    /// The layout's meta slot, if it has one.
    pub meta_slot: Option<usize>,
    /// The element count passed after the buffers, when the kernel asks for
    /// one: that of the first buffer.
    pub len_arg: Option<u32>,
    /// The launch grid: the workgroup counts, with no dimension below 1.
    pub grid: (u32, u32, u32),
    /// Per layout slot, whether the kernel gets its buffer writable.
    pub writable: Vec<bool>,
}

/// A grid dimension as launched: never below 1.
pub open spec fn launched_dim(w: u32) -> u32 {
    if w == 0 { 1 } else { w }
}

/// Why a generic launch is refused, if it is.
pub open spec fn generic_launch_error(
    layout: Seq<TensorMode>,
    meta_fields: nat,
    buffer_words: Seq<usize>,
    append_len: bool,
) -> Option<GenericShapeError> {
    match generic_meta_check(layout, meta_fields) {
        Err(e) => Some(e),
        Ok(Some(slot)) => if buffer_words[slot as int] < meta_fields {
            Some(GenericShapeError::MetaBufferTooSmall { words: buffer_words[slot as int], fields: meta_fields as usize })
        } else {
            None
        },
        Ok(None) => if append_len && layout.len() == 0 {
            Some(GenericShapeError::NoBufferForLen)
        } else {
            None
        },
    }
}

fn launched(w: u32) -> (r: u32)
    ensures
        r == launched_dim(w),
{
    if w == 0 { 1 } else { w }
}

/// Plans a generic dispatch from the kernel's layout, its declared meta
/// field count, the word count of the buffer bound to each slot (in layout
/// order), whether the kernel takes the first buffer's length, and the
/// workgroup counts.
pub fn plan_generic_launch(
    layout: &[TensorMode],
    meta_fields: usize,
    buffer_words: &[usize],
    append_len: bool,
    workgroups: [u32; 3],
) -> (r: Result<GenericLaunch, GenericShapeError>)
    requires
        buffer_words@.len() == layout@.len(),
    ensures
        r is Err <==> generic_launch_error(layout@, meta_fields as nat, buffer_words@, append_len) is Some,
        r matches Err(e) ==> generic_launch_error(layout@, meta_fields as nat, buffer_words@, append_len) == Some(e),
        r matches Ok(p) ==> {
            &&& generic_meta_check(layout@, meta_fields as nat) == Ok::<Option<usize>, GenericShapeError>(p.meta_slot)
            &&& p.len_arg == (if append_len { Some(buffer_words@[0] as u32) } else { None })
            &&& p.grid == (launched_dim(workgroups[0]), launched_dim(workgroups[1]), launched_dim(workgroups[2]))
            &&& p.writable@.len() == layout@.len()
            &&& forall|i: int| 0 <= i < layout@.len() ==> #[trigger] p.writable@[i] == !is_read_only(layout@[i])
        },
{
    let meta_slot = match generic_meta_slot(layout, meta_fields) {
        Ok(s) => s,
        Err(e) => {
            return Err(e);
        },
    };
    match meta_slot {
        Some(slot) => {
            if buffer_words[slot] < meta_fields {
                return Err(GenericShapeError::MetaBufferTooSmall { words: buffer_words[slot], fields: meta_fields });
            }
        },
        None => {},
    }
    let len_arg = if append_len {
        if buffer_words.len() == 0 {
            proof {
                assert(meta_slot is None);
            }
            return Err(GenericShapeError::NoBufferForLen);
        }
        Some(buffer_words[0] as u32)
    } else {
        None
    };
    let mut writable: Vec<bool> = Vec::new();
    let mut i: usize = 0;
    while i < layout.len()
        invariant
            i <= layout@.len(),
            writable@.len() == i,
            forall|j: int| 0 <= j < i ==> #[trigger] writable@[j] == !is_read_only(layout@[j]),
        decreases layout@.len() - i,
    {
        let ro = layout[i].read_only();
        writable.push(!ro);
        i = i + 1;
    }
    let grid = (launched(workgroups[0]), launched(workgroups[1]), launched(workgroups[2]));
    Ok(GenericLaunch { meta_slot, len_arg, grid, writable })
}

// ---------------------------------------------------------------------------
// Launch geometry
// ---------------------------------------------------------------------------

/// Threads per block of a 1-D launch.
pub const BLOCK_1D: u32 = 256;

/// The grid of a 1-D launch over `n` elements: enough blocks of 256 threads
/// to cover every element.
pub fn grid_1d(n: u32) -> (r: (u32, u32, u32))
    requires
        n <= u32::MAX - 255,
    ensures
        r.0 == (n + 255) / 256,
        r.1 == 1,
        r.2 == 1,
        r.0 * 256 >= n,
        r.0 == 0 || (r.0 - 1) * 256 < n,
{
    ((n + 255) / 256, 1, 1)
}

/// The argument shape of a cuBLAS matrix product, in cuBLAS's column-major
/// terms.
#[derive(Debug, Clone, Copy, PartialEq, Eq, Structural)]
pub struct GemmShape {
    pub transpose_a: bool,
    pub transpose_b: bool,
    pub m: i32,
    pub n: i32,
    pub k: i32,
    pub lda: i32,
    pub ldb: i32,
    pub ldc: i32,
}

/// The cuBLAS call for row-major `C (m x n) = A (m x k) * B`, where `B` is
/// `k x n`, or `n x k` read transposed: cuBLAS computes the column-major
/// `C^T = B^T * A^T`, so B goes first and the roles of m and n swap.
pub fn matmul_gemm_shape(m: u32, n: u32, k: u32, transpose_b: bool) -> (r: GemmShape)
    ensures
        r.transpose_a == transpose_b,
        !r.transpose_b,
        r.m == n as i32,
        r.n == m as i32,
        r.k == k as i32,
        r.lda == (if transpose_b { k } else { n }) as i32,
        r.ldb == k as i32,
        r.ldc == n as i32,
{
    let ldb = if transpose_b { k } else { n };
    GemmShape {
        transpose_a: transpose_b,
        transpose_b: false,
        m: n as i32,
        n: m as i32,
        k: k as i32,
        lda: ldb as i32,
        ldb: k as i32,
        ldc: n as i32,
    }
}

/// The cuBLAS call for the weight gradient `dB (k x n) += A^T * dC`, where
/// `A` is `m x k` and `dC` is `m x n`, all row-major.
pub fn weight_bwd_gemm_shape(m: u32, n: u32, k: u32) -> (r: GemmShape)
    ensures
        !r.transpose_a,
        r.transpose_b,
        r.m == n as i32,
        r.n == k as i32,
        r.k == m as i32,
        r.lda == n as i32,
        r.ldb == k as i32,
        r.ldc == n as i32,
{
    GemmShape {
        transpose_a: false,
        transpose_b: true,
        m: n as i32,
        n: k as i32,
        k: m as i32,
        lda: n as i32,
        ldb: k as i32,
        ldc: n as i32,
    }
}

} // verus!
