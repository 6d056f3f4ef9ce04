use std::sync::{Arc, Mutex};

use wilupgu::backend::{check_layout, storage_entries, Binding as ModeBinding, Dtype, LayoutMismatch, TensorMode};
use wilupgu::backends::cpu::{
    cache_write, cache_write_from_words, embedding, embedding_from_words, find, head_gather, head_gather_from_words,
    head_scatter, head_scatter_from_words, read_u32, run_cache_write, run_embedding, zero_tensor_from_words,
    run_head_gather, run_head_scatter, run_zero_tensor, KernelError,
};
use wilupgu::backends::cuda::{
    generic_meta_slot, grid_1d, matmul_gemm_shape, plan_generic_launch, next_capture_action, weight_bwd_gemm_shape, CaptureAction,
    CaptureStage, GenericShapeError,
};
use wilupgu::backends::wgpu::{InFlight, MAX_IN_FLIGHT};
use wilupgu::backends::CpuBinding;
use wilupgu::nn::shaders::BuiltInShader;
use wilupgu::pool::{size_class, BufferPool, MAX_FREE_PER_CLASS};
use wilupgu::tensor::truncate_to_logical;
use wilupgu::traits::{
    check_bindings, find_hazard, BindingError, BindingRole, BufferAccess, BufferId, DataKind, DeviceId,
    MetaKind, Node, Shader, WriteKind, Workgroups,
};

fn words(ws: &[u32]) -> Vec<u8> {
    bytemuck::cast_slice(ws).to_vec()
}

#[test]
fn size_class_is_the_next_power_of_two() {
    assert_eq!(size_class(0), 1);
    assert_eq!(size_class(1), 1);
    assert_eq!(size_class(2), 2);
    assert_eq!(size_class(3), 4);
    assert_eq!(size_class(1000), 1024);
    assert_eq!(size_class(1024), 1024);
    assert_eq!(size_class(1025), 2048);
    assert_eq!(size_class(1 << 63), 1 << 63);
}

#[test]
fn pool_returns_the_last_recycled_buffer() {
    let mut pool: BufferPool<&str> = BufferPool::new();
    assert_eq!(pool.take(64), None);
    assert_eq!(pool.recycle(64, "a"), None);
    assert_eq!(pool.recycle(64, "b"), None);
    assert_eq!(pool.recycle(128, "c"), None);
    assert_eq!(pool.take(64), Some("b"));
    assert_eq!(pool.take(64), Some("a"));
    assert_eq!(pool.take(64), None);
    assert_eq!(pool.take(128), Some("c"));
}

#[test]
fn pool_evicts_beyond_the_cap() {
    let mut pool: BufferPool<usize> = BufferPool::new();
    for i in 0..MAX_FREE_PER_CLASS {
        assert_eq!(pool.recycle(8, i), None);
    }
    assert_eq!(pool.recycle(8, 99), Some(99));
    assert_eq!(pool.take(8), Some(MAX_FREE_PER_CLASS - 1));
    assert_eq!(pool.recycle(8, 42), None);
    assert_eq!(pool.take(8), Some(42));
}

#[test]
fn layout_check_reports_the_first_misfit() {
    let layout = [TensorMode::Input, TensorMode::Output, TensorMode::Meta];
    let buf = 0u8;
    let ok = [
        ModeBinding::new(0, &buf, TensorMode::Input),
        ModeBinding::new(2, &buf, TensorMode::Meta),
    ];
    assert_eq!(check_layout(&layout, &ok), Ok(()));
    let bad = [
        ModeBinding::new(0, &buf, TensorMode::Input),
        ModeBinding::new(1, &buf, TensorMode::InOut),
        ModeBinding::new(5, &buf, TensorMode::Meta),
    ];
    assert_eq!(
        check_layout(&layout, &bad),
        Err(LayoutMismatch::WrongMode { slot: 1, expected: TensorMode::Output, got: TensorMode::InOut })
    );
    let far = [ModeBinding::new(3, &buf, TensorMode::Meta)];
    assert_eq!(check_layout(&layout, &far), Err(LayoutMismatch::SlotOutOfRange { slot: 3, layout_len: 3 }));
}

#[test]
fn dtype_sizes() {
    assert_eq!(Dtype::F32.elem_size(), 4);
    assert_eq!(Dtype::F16.elem_size(), 2);
    assert_eq!(Dtype::Bf16.elem_size(), 2);
}

#[test]
fn roles_accept_same_kind_only() {
    assert!(BindingRole::Input(DataKind::F32).accepts(&BindingRole::Input(DataKind::F32)));
    assert!(!BindingRole::Input(DataKind::F32).accepts(&BindingRole::Input(DataKind::F16)));
    assert!(!BindingRole::Output(DataKind::F32).accepts(&BindingRole::InOut(DataKind::F32)));
    assert!(BindingRole::Meta { fields: &[], kind: MetaKind::Static }
        .accepts(&BindingRole::Meta { fields: &[], kind: MetaKind::Dynamic }));
}

#[test]
fn binding_check_errors() {
    let layout = [BindingRole::Input(DataKind::F32), BindingRole::Output(DataKind::F32)];
    let buf = 0u8;
    let missing = [wilupgu::traits::Binding::new(1, &buf, BindingRole::Output(DataKind::F32))];
    assert_eq!(check_bindings(&layout, &missing), Err(BindingError::Missing { expected: 2, supplied: 1 }));
    let wrong = [
        wilupgu::traits::Binding::new(0, &buf, BindingRole::Input(DataKind::F32)),
        wilupgu::traits::Binding::new(1, &buf, BindingRole::Input(DataKind::F32)),
    ];
    assert_eq!(check_bindings(&layout, &wrong), Err(BindingError::RoleMismatch { slot: 1, binding: 1 }));
    let far = [wilupgu::traits::Binding::new(2, &buf, BindingRole::Input(DataKind::F32))];
    assert_eq!(check_bindings(&layout, &far), Err(BindingError::SlotOutOfRange { slot: 2, layout_len: 2 }));
    let dynamic_layout = [BindingRole::Meta { fields: &[], kind: MetaKind::Static }];
    let dynamic = [wilupgu::traits::Binding::new(0, &buf, BindingRole::Meta { fields: &[], kind: MetaKind::Dynamic })];
    assert_eq!(check_bindings(&dynamic_layout, &dynamic), Ok(true));
}

#[derive(Clone)]
struct SmallNode;
static NO_ROLES: [BindingRole; 0] = [];
static SMALL: Shader = Shader { name: "Small", layout: &NO_ROLES, dispatch: &[] };
impl Node for SmallNode {
    const MAX_WORKGROUPS_PER_DIM: u32 = 65535;
    fn shader(&self) -> &'static Shader {
        &SMALL
    }
    fn workgroups(&self) -> Workgroups {
        Workgroups::linear(1)
    }
}

#[test]
fn workgroup_limit_is_per_axis() {
    assert!(SmallNode::validate_workgroups(Workgroups { x: 65535, y: 65535, z: 1 }).is_ok());
    let err = SmallNode::validate_workgroups(Workgroups { x: 1, y: 65536, z: 1 }).unwrap_err();
    assert!(err.contains("exceeds this backend's limit of 65535"), "{err}");
    assert_eq!(Workgroups::linear(7).dims(), [7, 1, 1]);
}

fn access(dispatch: usize, buffer: u64, kind: WriteKind) -> BufferAccess {
    BufferAccess { dispatch, slot: 0, buffer: BufferId(buffer), owner: DeviceId(0), kind }
}

#[test]
fn hazards_are_unordered_exclusive_rewrites() {
    let reads = [access(0, 1, WriteKind::ReadOnly), access(1, 1, WriteKind::ReadOnly)];
    assert_eq!(find_hazard(&reads), None);
    let accumulate = [access(0, 1, WriteKind::Accumulate), access(1, 1, WriteKind::Accumulate)];
    assert_eq!(find_hazard(&accumulate), None);
    let after_accumulate = [
        access(0, 1, WriteKind::Accumulate),
        access(1, 2, WriteKind::Exclusive),
        access(2, 1, WriteKind::Accumulate),
        access(3, 1, WriteKind::Exclusive),
    ];
    assert_eq!(find_hazard(&after_accumulate), Some((3, 2)));
    let twice = [access(0, 5, WriteKind::Exclusive), access(4, 5, WriteKind::Exclusive)];
    assert_eq!(find_hazard(&twice), Some((4, 0)));
}

#[test]
fn copy_kernels_move_windows() {
    // 2 rows of 4 columns; head of 2 columns at offset 1.
    let src = vec![10, 11, 12, 13, 20, 21, 22, 23];
    let mut head = vec![0; 4];
    head_gather(&src, &mut head, 2, 4, 2, 1);
    assert_eq!(head, vec![11, 12, 21, 22]);
    let mut full = vec![0; 8];
    head_scatter(&head, &mut full, 2, 4, 2, 1);
    assert_eq!(full, vec![0, 11, 12, 0, 0, 21, 22, 0]);
    let mut cache = vec![9; 8];
    cache_write(&[1, 2, 3, 4], &mut cache, 2, 2, 1);
    assert_eq!(cache, vec![9, 9, 1, 2, 3, 4, 9, 9]);
}

#[test]
fn embedding_looks_up_rows_and_zeroes_unknown_tokens() {
    let weight = vec![1, 1, 2, 2, 3, 3];
    let out = embedding(&[2, 7, 0], &weight, 0, 3, 2, 3);
    assert_eq!(out, vec![3, 3, 0, 0, 1, 1]);
    let out = run_embedding(&[1, 0], &weight, 0, &words(&[3, 2, 2])).unwrap();
    assert_eq!(out, vec![2, 2, 1, 1]);
    assert_eq!(run_embedding(&[1], &weight, 0, &words(&[3, 2, 2])), Err(KernelError::OutOfBounds));
}

#[test]
fn kernel_runners_read_meta_words() {
    let mut dst = vec![0; 4];
    run_head_gather(&[5, 6, 7, 8], &mut dst, &words(&[2, 2, 1, 1])).unwrap();
    assert_eq!(dst, vec![6, 8, 0, 0]);
    let mut full = vec![0; 4];
    run_head_scatter(&[6, 8], &mut full, &words(&[2, 2, 1, 0])).unwrap();
    assert_eq!(full, vec![6, 0, 8, 0]);
    let mut cache = vec![0; 4];
    run_cache_write(&[1, 2], &mut cache, &words(&[1, 2, 1])).unwrap();
    assert_eq!(cache, vec![0, 0, 1, 2]);
    let mut small = vec![0; 2];
    assert_eq!(run_cache_write(&[1, 2], &mut small, &words(&[1, 2, 1])), Err(KernelError::OutOfBounds));
    assert_eq!(small, vec![0, 0]);
    assert_eq!(
        run_head_gather(&[1], &mut small, &words(&[1, 1])),
        Err(KernelError::MetaTooShort { needed: 4, words: 2 })
    );
    assert_eq!(read_u32(&[1, 0, 0, 0, 2, 0, 0, 0]).len(), 2);
}

#[test]
fn find_returns_the_first_binding_of_a_slot() {
    let a = Arc::new(Mutex::new(vec![1u8]));
    let b = Arc::new(Mutex::new(vec![2u8]));
    let bindings = [
        CpuBinding { slot: 3, buffer: a.clone() },
        CpuBinding { slot: 1, buffer: b.clone() },
        CpuBinding { slot: 1, buffer: a.clone() },
    ];
    let found = find(&bindings, 1);
    assert!(Arc::ptr_eq(&found.buffer, &b));
}

#[test]
fn builtin_shader_names() {
    assert_eq!(BuiltInShader::MatMul.name(), "MatMul");
    assert_eq!(BuiltInShader::RMSNormWeightBwd.name(), "RMSNormWeightBwd");
    assert_eq!(BuiltInShader::AdamW.name(), "AdamW");
}

#[test]
fn capture_life_cycle_warms_records_then_replays() {
    let (a1, s1) = next_capture_action(None);
    assert_eq!(a1, CaptureAction::WarmUp);
    let (a2, s2) = next_capture_action(Some(s1));
    assert_eq!(a2, CaptureAction::Record);
    let (a3, s3) = next_capture_action(Some(s2));
    assert_eq!(a3, CaptureAction::Replay);
    assert_eq!(s3, CaptureStage::Captured);
}

#[test]
fn generic_dispatch_layout_checks() {
    assert_eq!(generic_meta_slot(&[TensorMode::Input, TensorMode::Output, TensorMode::Meta], 2), Ok(Some(2)));
    assert_eq!(generic_meta_slot(&[TensorMode::Input, TensorMode::Output], 0), Ok(None));
    assert_eq!(generic_meta_slot(&[TensorMode::Input, TensorMode::Output], 1), Err(GenericShapeError::FieldsWithoutMeta { count: 1 }));
    assert_eq!(generic_meta_slot(&[TensorMode::Meta, TensorMode::Output], 1), Err(GenericShapeError::MetaNotLast { slot: 0 }));
    assert_eq!(generic_meta_slot(&[TensorMode::Meta, TensorMode::Meta], 1), Err(GenericShapeError::TooManyMeta { count: 2 }));
}

#[test]
fn launch_geometry() {
    assert_eq!(grid_1d(0), (0, 1, 1));
    assert_eq!(grid_1d(256), (1, 1, 1));
    assert_eq!(grid_1d(257), (2, 1, 1));
    let g = matmul_gemm_shape(2, 3, 4, false);
    assert_eq!((g.m, g.n, g.k, g.lda, g.ldb, g.ldc), (3, 2, 4, 3, 4, 3));
    assert!(!g.transpose_a);
    let t = matmul_gemm_shape(2, 3, 4, true);
    assert!(t.transpose_a);
    assert_eq!(t.lda, 4);
    let w = weight_bwd_gemm_shape(2, 3, 4);
    assert_eq!((w.m, w.n, w.k, w.lda, w.ldb, w.ldc), (3, 4, 2, 3, 4, 3));
    assert!(w.transpose_b);
}

#[test]
fn in_flight_waits_for_the_oldest_beyond_the_limit() {
    let mut q = InFlight::new();
    for i in 0..MAX_IN_FLIGHT {
        assert_eq!(q.submit(i), None);
    }
    assert_eq!(q.submit(100), Some(0));
    assert_eq!(q.submit(101), Some(1));
    q.clear();
    assert_eq!(q.submit(7), None);
}

#[test]
fn readback_is_cut_to_the_logical_size() {
    assert_eq!(truncate_to_logical(vec![1, 2, 3, 4, 5, 6, 7, 8], 12, 4), vec![1, 2, 3]);
    assert_eq!(truncate_to_logical(vec![1, 2], 12, 4), vec![1, 2]);
}

#[test]
fn storage_entries_number_slots_and_mark_read_only_ones() {
    let layout = [TensorMode::Input, TensorMode::Output, TensorMode::Meta, TensorMode::InOut, TensorMode::Accumulate];
    assert_eq!(storage_entries(&layout), vec![(0, true), (1, false), (2, true), (3, false), (4, false)]);
    assert!(storage_entries(&[]).is_empty());
    assert!(TensorMode::Input.read_only());
    assert!(!TensorMode::Accumulate.read_only());
}

#[test]
fn zero_tensor_fills_the_count_from_meta() {
    assert_eq!(run_zero_tensor(0u32, &words(&[5])), Ok(vec![0u32; 5]));
    assert_eq!(run_zero_tensor(7u8, &words(&[0, 9])), Ok(vec![]));
    assert_eq!(run_zero_tensor(0u32, &[]), Err(KernelError::MetaTooShort { needed: 1, words: 0 }));
}

#[test]
fn generic_launch_plan_follows_the_layout() {
    let layout = [TensorMode::Input, TensorMode::Output, TensorMode::Meta];
    let plan = plan_generic_launch(&layout, 2, &[10, 20, 2], true, [0, 3, 0]).unwrap();
    assert_eq!(plan.meta_slot, Some(2));
    assert_eq!(plan.len_arg, Some(10));
    assert_eq!(plan.grid, (1, 3, 1));
    assert_eq!(plan.writable, vec![false, true, false]);

    let plan = plan_generic_launch(&[TensorMode::Accumulate], 0, &[4], false, [2, 2, 2]).unwrap();
    assert_eq!(plan.len_arg, None);
    assert_eq!(plan.writable, vec![true]);
}

#[test]
fn generic_launch_plan_refusals() {
    let layout = [TensorMode::Input, TensorMode::Meta];
    assert_eq!(
        plan_generic_launch(&layout, 3, &[8, 2], false, [1, 1, 1]).err(),
        Some(GenericShapeError::MetaBufferTooSmall { words: 2, fields: 3 })
    );
    assert_eq!(plan_generic_launch(&[], 0, &[], true, [1, 1, 1]).err(), Some(GenericShapeError::NoBufferForLen));
    assert_eq!(
        plan_generic_launch(&[TensorMode::Meta, TensorMode::Input], 0, &[1, 1], false, [1, 1, 1]).err(),
        Some(GenericShapeError::MetaNotLast { slot: 0 })
    );
}

#[test]
fn gather_after_scatter_gives_the_heads_back() {
    let heads: Vec<u32> = vec![1, 2, 3, 4, 5, 6];
    let mut full: Vec<u32> = vec![0; 15];
    head_scatter(&heads, &mut full, 3, 5, 2, 3);
    assert_eq!(full, vec![0, 0, 0, 1, 2, 0, 0, 0, 3, 4, 0, 0, 0, 5, 6]);
    let mut out: Vec<u32> = vec![9; 6];
    head_gather(&full, &mut out, 3, 5, 2, 3);
    assert_eq!(out, heads);
}

#[test]
fn meta_words_are_read_in_the_machine_byte_order() {
    assert_eq!(
        read_u32(&[1, 0, 0, 0, 2, 0, 0, 0]),
        vec![u32::from_ne_bytes([1, 0, 0, 0]), u32::from_ne_bytes([2, 0, 0, 0])]
    );
    assert!(read_u32(&[]).is_empty());
}

#[test]
fn runners_on_decoded_words() {
    let mut cache = vec![0u32; 6];
    assert_eq!(cache_write_from_words(&[1, 2, 3, 4], &mut cache, &[2, 2, 1]), Ok(()));
    assert_eq!(cache, vec![0, 0, 1, 2, 3, 4]);
    assert_eq!(cache_write_from_words(&[1, 2], &mut cache, &[1, 2]), Err(KernelError::MetaTooShort { needed: 3, words: 2 }));
    assert_eq!(cache_write_from_words(&[1, 2], &mut cache, &[1, 2, 3]), Err(KernelError::OutOfBounds));
    assert_eq!(cache, vec![0, 0, 1, 2, 3, 4]);

    let full = [1u32, 2, 3, 4, 5, 6];
    let mut head = vec![0u32; 2];
    assert_eq!(head_gather_from_words(&full, &mut head, &[2, 3, 1, 2]), Ok(()));
    assert_eq!(head, vec![3, 6]);
    assert_eq!(head_gather_from_words(&full, &mut head, &[2, 3, 2, 2]), Err(KernelError::OutOfBounds));

    let mut rows = vec![0u32; 6];
    assert_eq!(head_scatter_from_words(&[7, 8], &mut rows, &[2, 3, 1, 0]), Ok(()));
    assert_eq!(rows, vec![7, 0, 0, 8, 0, 0]);
    assert_eq!(head_scatter_from_words(&[7, 8], &mut rows, &[2, 3]), Err(KernelError::MetaTooShort { needed: 4, words: 2 }));

    let weight = [10u32, 11, 20, 21];
    assert_eq!(embedding_from_words(&[1, 5], &weight, 0, &[2, 2, 2]), Ok(vec![20, 21, 0, 0]));
    assert_eq!(embedding_from_words(&[1, 5], &weight, 0, &[6, 2, 2]), Err(KernelError::OutOfBounds));
    assert_eq!(embedding_from_words(&[1], &weight, 0, &[2, 2, 2]), Err(KernelError::OutOfBounds));

    assert_eq!(zero_tensor_from_words(0u32, &[3, 9]), Ok(vec![0, 0, 0]));
    assert_eq!(zero_tensor_from_words(0u32, &[]), Err(KernelError::MetaTooShort { needed: 1, words: 0 }));
}

#[test]
#[should_panic(expected = "Tensor Mode Mismatch")]
fn test_validation_idiot_proof() {
    // The residual-add kernel accumulates into slot 0 and reads slot 1.
    let layout = [TensorMode::Accumulate, TensorMode::Input];
    let dummy = vec![1.0f32; 16];
    let bindings = [
        ModeBinding::new(0, &dummy, TensorMode::Input),
        ModeBinding::new(1, &dummy, TensorMode::Input),
    ];
    match check_layout(&layout, &bindings) {
        Ok(()) => {}
        Err(LayoutMismatch::SlotOutOfRange { slot, layout_len }) => panic!(
            "Tensor Mode Mismatch: kernel `ResidualAdd` binding slot {slot} out of range (kernel expects {layout_len} bindings)"
        ),
        Err(LayoutMismatch::WrongMode { slot, expected, got }) => panic!(
            "Tensor Mode Mismatch: kernel `ResidualAdd` slot {slot} expects {expected:?}, got {got:?}"
        ),
    }
}

#[test]
fn zero_width_rows_write_nothing() {
    let mut cache = vec![5u32, 6];
    assert_eq!(cache_write_from_words(&[], &mut cache, &[3, 0, u32::MAX]), Ok(()));
    assert_eq!(cache, vec![5, 6]);
}

#[test]
fn meta_of_partial_words_is_refused() {
    let mut dst = vec![0u32; 4];
    assert_eq!(run_cache_write(&[1u32], &mut dst, &[1, 0, 0, 0, 1]), Err(KernelError::MetaNotWords { bytes: 5 }));
    assert_eq!(dst, vec![0; 4]);
    assert_eq!(run_zero_tensor(0u8, &[3, 0]), Err(KernelError::MetaNotWords { bytes: 2 }));
    assert_eq!(run_embedding(&[0], &[1u32], 0, &[1, 2, 3]), Err(KernelError::MetaNotWords { bytes: 3 }));
}
