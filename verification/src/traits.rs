use vstd::prelude::*;
use core::ops::Range;
use std::sync::Arc;
use std::collections::HashMap;

use crate::backends::BackendDispatch;
use crate::id::{GlobalId, IdSource};
use crate::mesh::Parallelity;
use crate::text::decimal;

verus! {

/// Element type carried by a binding.
#[derive(Debug, Clone, Copy, PartialEq, Eq, Structural)]
pub enum DataKind {
    F32,
    F16,
    Bf16,
    Int8,
    Int4,
}

/// A named size that is settled only when the graph is placed.
#[derive(Debug, Clone, PartialEq, Eq)]
pub struct SizeTag(pub String);

/// When the contents of a meta binding are known.
#[derive(Debug, Clone)]
pub enum MetaKind {
    Static,
    Dynamic,
    Maximized(SizeTag),
}

/// One field of a meta struct.
#[derive(Clone, Copy, PartialEq, Eq, Debug, Structural)]
pub enum MetaField {
    Uint,
    Float,
}

pub type MetaSlot = &'static [MetaField];

/// What a kernel does with one binding, and with which element type.
#[derive(Debug, Clone)]
pub enum BindingRole {
    Input(DataKind),
    Output(DataKind),
    InOut(DataKind),
    Accumulate(DataKind),
    Meta { fields: MetaSlot, kind: MetaKind },
}

/// A declared role accepts an actual one when both are the same kind of
/// access on the same element type; any meta accepts any meta.
pub open spec fn role_accepts(expected: BindingRole, actual: BindingRole) -> bool {
    match (expected, actual) {
        (BindingRole::Input(a), BindingRole::Input(b)) => a == b,
        (BindingRole::Output(a), BindingRole::Output(b)) => a == b,
        (BindingRole::InOut(a), BindingRole::InOut(b)) => a == b,
        (BindingRole::Accumulate(a), BindingRole::Accumulate(b)) => a == b,
        (BindingRole::Meta { .. }, BindingRole::Meta { .. }) => true,
        _ => false,
    }
}

/// The element type a data role carries, if it is not a meta.
pub open spec fn role_data_kind(role: BindingRole) -> Option<DataKind> {
    match role {
        BindingRole::Input(k) | BindingRole::Output(k) | BindingRole::InOut(k) | BindingRole::Accumulate(k) => Some(k),
        BindingRole::Meta { .. } => None,
    }
}

/// A declared role accepts a binding's role exactly when both are the same
/// access (input, output, in-out, accumulate, or both meta) and, for data,
/// carry the same element type: a binding of another element type, or of
/// another access, is refused.
pub proof fn lemma_accepts_same_access_and_type(expected: BindingRole, actual: BindingRole)
    ensures
        role_accepts(expected, actual) <==> {
            &&& (expected is Input <==> actual is Input)
            &&& (expected is Output <==> actual is Output)
            &&& (expected is InOut <==> actual is InOut)
            &&& (expected is Accumulate <==> actual is Accumulate)
            &&& (expected is Meta <==> actual is Meta)
            &&& role_data_kind(expected) == role_data_kind(actual)
        },
{
}

impl BindingRole {
    pub fn accepts(&self, actual: &BindingRole) -> (r: bool)
        ensures
            r == role_accepts(*self, *actual),
    {
        match (self, actual) {
            (BindingRole::Input(a), BindingRole::Input(b)) => *a == *b,
            (BindingRole::Output(a), BindingRole::Output(b)) => *a == *b,
            (BindingRole::InOut(a), BindingRole::InOut(b)) => *a == *b,
            (BindingRole::Accumulate(a), BindingRole::Accumulate(b)) => *a == *b,
            (BindingRole::Meta { .. }, BindingRole::Meta { .. }) => true,
            _ => false,
        }
    }
}

/// One buffer bound to one slot of a kernel, with the role the caller
/// claims for it.
pub struct Binding<'a, Buf> {
    pub slot: u32,
    pub buffer: &'a Buf,
    pub mode: BindingRole,
}

impl<'a, Buf> Binding<'a, Buf> {
    pub fn new(slot: u32, buffer: &'a Buf, mode: BindingRole) -> (r: Self)
        ensures
            r.slot == slot,
            r.buffer == buffer,
            r.mode == mode,
    {
        Binding { slot, buffer, mode }
    }
}

/// A kernel: its name, the role of each binding slot, and how each backend
/// runs it.
pub struct Shader {
    pub name: &'static str,
    pub layout: &'static [BindingRole],
    pub dispatch: &'static [BackendDispatch],
}

/// Number of workgroups along each axis.
#[derive(Debug, Clone, Copy, PartialEq, Eq, Structural)]
pub struct Workgroups {
    pub x: u32,
    pub y: u32,
    pub z: u32,
}

impl Workgroups {
    pub fn linear(n: u32) -> (r: Self)
        ensures
            r == (Workgroups { x: n, y: 1, z: 1 }),
    {
        Workgroups { x: n, y: 1, z: 1 }
    }

    pub fn dims(self) -> (r: [u32; 3])
        ensures
            r@ == seq![self.x, self.y, self.z],
    {
        [self.x, self.y, self.z]
    }
}

/// A storage element type. Host words are carried as their bit patterns.
pub trait DataType: Copy + Send + Sync + 'static {
    type HostRepr: Copy + Default + Clone;

    const BITS_PER_ELEM: u32;

    const ELEMS_PER_HOST_WORD: u32 = 1;

    const KIND: DataKind;
}

#[derive(Clone, Copy)]
pub struct F32;

impl DataType for F32 {
    type HostRepr = u32;

    const BITS_PER_ELEM: u32 = 32;

    const KIND: DataKind = DataKind::F32;
}

#[derive(Clone, Copy)]
pub struct F16;

impl DataType for F16 {
    type HostRepr = u16;

    const BITS_PER_ELEM: u32 = 16;

    const KIND: DataKind = DataKind::F16;
}

#[derive(Clone, Copy)]
pub struct Bf16;

impl DataType for Bf16 {
    type HostRepr = u16;

    const BITS_PER_ELEM: u32 = 16;

    const KIND: DataKind = DataKind::Bf16;
}

#[derive(Clone, Copy)]
pub struct Int8;

impl DataType for Int8 {
    type HostRepr = u8;

    const BITS_PER_ELEM: u32 = 8;

    const KIND: DataKind = DataKind::Int8;
}

#[derive(Clone, Copy)]
pub struct Int4;

impl DataType for Int4 {
    type HostRepr = u32;

    const BITS_PER_ELEM: u32 = 4;

    const ELEMS_PER_HOST_WORD: u32 = 8;

    const KIND: DataKind = DataKind::Int4;
}

#[derive(Clone, Copy, PartialEq, Eq, Hash, Debug, Structural)]
pub struct BufferId(pub u64);

#[derive(Clone, Copy, PartialEq, Eq, Hash, Debug, Structural)]
pub struct DeviceId(pub u64);

/// Identity of a tensor specification.
#[derive(Clone, Copy, PartialEq, Eq, Hash, Debug, Structural)]
pub struct TensorSpecId(u64);

impl View for TensorSpecId {
    type V = u64;

    closed spec fn view(&self) -> u64 {
        self.0
    }
}

impl TensorSpecId {
    /// A fresh identity, drawn from `ids`.
    pub fn next(ids: &mut IdSource) -> (id: Self)
        ensures
            id@ == old(ids)@,
            final(ids)@ == crate::id::next_count(old(ids)@),
    {
        TensorSpecId(ids.fetch_next())
    }
}

/// The size of a tensor, in elements.
pub enum TensorSize {
    Fixed(u32),
    /// Not known at build time: as large as the devices allow, in steps of
    /// `multiplier`, plus `coefficient`.
    Maximize { tag: SizeTag, multiplier: u32, coefficient: u32 },
    /// Not known at build time: a share of a total that is split across
    /// devices.
    Partition { tag: SizeTag, multiplier: u32, coefficient: u32 },
}

/// How a tensor's contents are initialized.
pub enum InitRecipe<D: DataType> {
    UploadFromHost(Vec<D::HostRepr>),
    Zero,
}

/// A tensor described before any buffer exists for it.
pub struct TensorSpec<D: DataType> {
    id: TensorSpecId,
    size: TensorSize,
    init: Option<InitRecipe<D>>,
}

impl<D: DataType> TensorSpec<D> {
    pub closed spec fn spec_id(&self) -> TensorSpecId {
        self.id
    }

    pub closed spec fn spec_size(&self) -> TensorSize {
        self.size
    }

    pub closed spec fn spec_init(&self) -> Option<InitRecipe<D>> {
        self.init
    }

    /// A spec without an initializer; its identity is drawn from `ids`.
    pub fn blank(size: TensorSize, ids: &mut IdSource) -> (r: Self)
        ensures
            r.spec_id()@ == old(ids)@,
            final(ids)@ == crate::id::next_count(old(ids)@),
            r.spec_size() == size,
            r.spec_init() is None,
    {
        TensorSpec { id: TensorSpecId::next(ids), size, init: None }
    }

    /// A spec with an initializer; its identity is drawn from `ids`.
    pub fn seeded(size: TensorSize, init: InitRecipe<D>, ids: &mut IdSource) -> (r: Self)
        ensures
            r.spec_id()@ == old(ids)@,
            final(ids)@ == crate::id::next_count(old(ids)@),
            r.spec_size() == size,
            r.spec_init() == Some(init),
    {
        TensorSpec { id: TensorSpecId::next(ids), size, init: Some(init) }
    }

    pub fn id(&self) -> (r: TensorSpecId)
        ensures
            r == self.spec_id(),
    {
        self.id
    }

    pub fn size(&self) -> (r: &TensorSize)
        ensures
            *r == self.spec_size(),
    {
        &self.size
    }

    pub fn init(&self) -> (r: Option<&InitRecipe<D>>)
        ensures
            r matches Some(i) ==> self.spec_init() == Some(*i),
            r is None <==> self.spec_init() is None,
    {
        match &self.init {
            Some(i) => Some(i),
            None => None,
        }
    }
}

/// A buffer of some backend.
pub trait Buffer: Clone + Send + Sync + 'static {
    fn size_bytes(&self) -> u64;

    fn is_sole_owner(&self) -> bool;

    fn id(&self) -> BufferId;

    fn owner(&self) -> DeviceId;
}

/// A built dispatch of some backend.
pub trait Node: Clone + Send + Sync + 'static {
    const MAX_WORKGROUPS_PER_DIM: u32 = u32::MAX;

    fn shader(&self) -> &'static Shader;

    fn workgroups(&self) -> Workgroups;

    /// Refuses a dispatch size beyond this backend's per-axis limit.
    fn validate_workgroups(wg: Workgroups) -> (r: Result<(), String>)
        default_ensures
            r is Ok <==> workgroups_within(wg, Self::MAX_WORKGROUPS_PER_DIM),
            r matches Err(m) ==> m@ == workgroups_limit_text(wg, Self::MAX_WORKGROUPS_PER_DIM),
    {
        if wg.x <= Self::MAX_WORKGROUPS_PER_DIM && wg.y <= Self::MAX_WORKGROUPS_PER_DIM && wg.z
            <= Self::MAX_WORKGROUPS_PER_DIM {
            Ok(())
        } else {
            Err(workgroups_limit_message(wg, Self::MAX_WORKGROUPS_PER_DIM))
        }
    }
}

/// Every axis of `wg` is at most `max`.
pub open spec fn workgroups_within(wg: Workgroups, max: u32) -> bool {
    wg.x <= max && wg.y <= max && wg.z <= max
}

/// The message for a dispatch size over the limit `max`.
pub open spec fn workgroups_limit_text(wg: Workgroups, max: u32) -> Seq<char> {
    "workgroup count Workgroups { x: "@ + decimal(wg.x as nat) + ", y: "@ + decimal(wg.y as nat) + ", z: "@ + decimal(
        wg.z as nat,
    ) + " } exceeds this backend's limit of "@ + decimal(max as nat) + " per dimension"@
}

/// `format!` of the message for a dispatch size over the limit.
#[verifier::external_body]
fn workgroups_limit_message(wg: Workgroups, max: u32) -> (r: String)
    ensures
        r@ == workgroups_limit_text(wg, max),
{
    format!("workgroup count {wg:?} exceeds this backend's limit of {max} per dimension")
}

/// A device that a topology can attach to.
pub trait Device: Clone + std::fmt::Debug + Send + Sync + 'static {
    fn label(&self) -> String;

    fn total_memory_bytes(&self) -> u64;
}

/// A kind of backend that can list its devices and attach to one.
pub trait Topology: Sized + Send + Sync + 'static {
    type Device: Device;

    fn choosable_devices() -> Vec<Self::Device>;

    fn attach(device: Self::Device) -> Result<Self, String>;

    fn name(&self) -> &'static str;
}

/// Owner of the buffers of one device.
pub trait Storage: Send + Sync + 'static {
    type Buffer: Buffer;

    fn device_id(&self) -> DeviceId;

    fn drop_buffer(&self, buf: Self::Buffer);
}

/// Builds and runs dispatches on one device.
pub trait Dispatch: Storage {
    type Node: Node;

    fn build_node(
        &self,
        shader: &'static Shader,
        bindings: &[Binding<Self::Buffer>],
        workgroups: Workgroups,
    ) -> Self::Node;

    fn execute(&self, nodes: &[Self::Node]);

    fn synchronize(&self);

    /// Runs `nodes` replayed from a capture kept under `key`; a backend
    /// without capture runs them as `execute` does.
    fn execute_captured(&self, key: usize, nodes: &[Self::Node])
        default_ensures
            call_ensures(Self::execute, (self, nodes), ()),
    {
        self.execute(nodes);
    }

    fn release_captured(&self, key: usize) {
    }

    fn supports_p2p(&self, other: DeviceId) -> (r: bool)
        default_ensures
            !r,
    {
        false
    }
}

pub trait Backend: Dispatch {

}

impl<T: Dispatch> Backend for T {

}

/// A backend that stores elements of type `D`.
pub trait SupportsDType<D: DataType>: Storage {
    fn allocate(&self, elem_count: usize) -> Self::Buffer;

    fn upload(&self, buf: &Self::Buffer, data: &[D::HostRepr]);

    fn download(&self, buf: &Self::Buffer) -> Vec<D::HostRepr>;

    /// Copies the contents of `buf` into a fresh buffer of `dest`, through
    /// the host.
    fn copy_to(&self, buf: &Self::Buffer, dest: &Self) -> (r: Self::Buffer)
        default_ensures
            exists|data: Vec<D::HostRepr>, host: &[D::HostRepr]|
                #![trigger call_ensures(Self::download, (self, buf), data), host@]
                call_ensures(Self::download, (self, buf), data) && call_ensures(
                    Self::allocate,
                    (dest, data@.len() as usize),
                    r,
                ) && host@ == data@ && call_ensures(Self::upload, (dest, &r, host), ()),
    {
        let data = self.download(buf);
        let new_buf = dest.allocate(data.len());
        let host = data.as_slice();
        dest.upload(&new_buf, host);
        proof {
            assert(call_ensures(Self::download, (self, buf), data));
            assert(host@ == data@);
        }
        new_buf
    }
}

/// A reserved region of device memory.
pub trait Area: Send + Sync + 'static {
    fn size_bytes(&self) -> u64;

    fn remaining_bytes(&self) -> u64;
}

/// A backend that can reserve regions of memory.
pub trait Areable: Storage {
    type Area: Area;

    fn reserve(&self, total_bytes: u64) -> Self::Area;

    fn release(&self, area: Self::Area);
}

/// A backend that can cut buffers of `D` out of a reserved region.
pub trait SupportsCarve<D: DataType>: Areable + SupportsDType<D> {
    fn carve(&self, area: &mut Self::Area, elem_count: usize) -> Self::Buffer;
}

/// One dispatch as described before the graph is built.
pub struct NodeSpec<'a, Buf> {
    pub id: GlobalId,
    pub shader: &'static Shader,
    pub bindings: &'a [Binding<'a, Buf>],
    pub workgroups: Workgroups,
    pub parallelity: Parallelity,
}


/// How one run of a graph dispatches a contiguous run of its nodes: replayed
/// from a capture kept under `key`, or streamed node by node.
pub enum DispatchPlan {
    Captured { key: usize, nodes: Range<usize> },
    Streamed { nodes: Range<usize> },
}

/// The nodes a plan segment covers.
pub open spec fn seg_range(s: DispatchPlan) -> Range<usize> {
    match s {
        DispatchPlan::Captured { nodes, .. } => nodes,
        DispatchPlan::Streamed { nodes } => nodes,
    }
}

/// How a segment runs: `Some(key)` when replayed from a capture, `None` when
/// streamed.
pub open spec fn seg_mode(s: DispatchPlan) -> Option<usize> {
    match s {
        DispatchPlan::Captured { key, .. } => Some(key),
        DispatchPlan::Streamed { .. } => None,
    }
}

/// Number of nodes a segment covers.
pub open spec fn seg_len(s: DispatchPlan) -> nat {
    let r = seg_range(s);
    if r.start < r.end { (r.end - r.start) as nat } else { 0 }
}

/// Each node of a segment, in order, with the way it is run.
pub open spec fn seg_nodes(s: DispatchPlan) -> Seq<(int, Option<usize>)> {
    Seq::new(seg_len(s), |t: int| (seg_range(s).start + t, seg_mode(s)))
}

/// Each node a plan runs, in the order it runs them, with the way it is run.
pub open spec fn plan_nodes(p: Seq<DispatchPlan>) -> Seq<(int, Option<usize>)>
    decreases p.len(),
{
    if p.len() == 0 {
        Seq::empty()
    } else {
        plan_nodes(p.drop_last()) + seg_nodes(p.last())
    }
}

/// A plan for a graph of `n` nodes: every segment is a valid range of node
/// indices, and the plan runs every node exactly once, in index order.
pub open spec fn plan_wf(p: Seq<DispatchPlan>, n: nat) -> bool {
    &&& forall|i: int| 0 <= i < p.len() ==>
        seg_range(#[trigger] p[i]).start <= seg_range(p[i]).end <= n
    &&& plan_nodes(p).len() == n
    &&& forall|j: int| 0 <= j < n ==> (#[trigger] plan_nodes(p)[j]).0 == j
}

/// The smaller of two indices.
pub open spec fn min_idx(a: usize, b: usize) -> usize {
    if a <= b { a } else { b }
}

/// The larger of two indices.
pub open spec fn max_idx(a: usize, b: usize) -> usize {
    if a >= b { a } else { b }
}

/// A segment after the nodes of `r` are captured under `key`: a streamed
/// segment that overlaps `r` splits into its part before the overlap, the
/// overlap (captured), and its part after; other segments stay as they are.
pub open spec fn split_segment(s: DispatchPlan, key: usize, r: Range<usize>) -> Seq<DispatchPlan> {
    match s {
        DispatchPlan::Streamed { nodes } => {
            let lo = max_idx(nodes.start, r.start);
            let hi = min_idx(nodes.end, r.end);
            if lo >= hi {
                seq![s]
            } else {
                (if nodes.start < lo {
                    seq![DispatchPlan::Streamed { nodes: Range { start: nodes.start, end: lo } }]
                } else {
                    Seq::empty()
                }) + seq![DispatchPlan::Captured { key, nodes: Range { start: lo, end: hi } }] + (
                if hi < nodes.end {
                    seq![DispatchPlan::Streamed { nodes: Range { start: hi, end: nodes.end } }]
                } else {
                    Seq::empty()
                })
            }
        },
        DispatchPlan::Captured { .. } => seq![s],
    }
}

/// A whole plan after the nodes of `r` are captured under `key`: each
/// segment split in place.
pub open spec fn capture_plan(p: Seq<DispatchPlan>, key: usize, r: Range<usize>) -> Seq<DispatchPlan>
    decreases p.len(),
{
    if p.len() == 0 {
        Seq::empty()
    } else {
        capture_plan(p.drop_last(), key, r) + split_segment(p.last(), key, r)
    }
}

/// How a node runs after the nodes of `r` are captured under `key`: a
/// streamed node inside `r` is now replayed under `key`; every other node
/// runs as before.
pub open spec fn captured_node(x: (int, Option<usize>), key: usize, r: Range<usize>) -> (int, Option<usize>) {
    if x.1 is None && r.start <= x.0 < r.end {
        (x.0, Some(key))
    } else {
        x
    }
}

proof fn lemma_plan_nodes_append(a: Seq<DispatchPlan>, b: Seq<DispatchPlan>)
    ensures
        plan_nodes(a + b) == plan_nodes(a) + plan_nodes(b),
    decreases b.len(),
{
    if b.len() == 0 {
        assert(a + b =~= a);
        assert(plan_nodes(b) =~= Seq::<(int, Option<usize>)>::empty());
        assert(plan_nodes(a) + plan_nodes(b) =~= plan_nodes(a));
    } else {
        lemma_plan_nodes_append(a, b.drop_last());
        assert((a + b).drop_last() =~= a + b.drop_last());
        assert((a + b).last() == b.last());
        assert(plan_nodes(a) + plan_nodes(b) =~= plan_nodes(a) + plan_nodes(b.drop_last()) + seg_nodes(b.last()));
    }
}

proof fn lemma_plan_nodes_single(s: DispatchPlan)
    ensures
        plan_nodes(seq![s]) == seg_nodes(s),
{
    assert(seq![s].drop_last() =~= Seq::<DispatchPlan>::empty());
    assert(plan_nodes(Seq::<DispatchPlan>::empty()) + seg_nodes(s) =~= seg_nodes(s));
}

/// Splitting one segment keeps its nodes, in order, and changes only how
/// the captured ones run.
proof fn lemma_split_segment_nodes(s: DispatchPlan, key: usize, r: Range<usize>)
    ensures
        plan_nodes(split_segment(s, key, r)) == seg_nodes(s).map_values(
            |x: (int, Option<usize>)| captured_node(x, key, r),
        ),
{
    let f = |x: (int, Option<usize>)| captured_node(x, key, r);
    match s {
        DispatchPlan::Streamed { nodes } => {
            let lo = max_idx(nodes.start, r.start);
            let hi = min_idx(nodes.end, r.end);
            if lo >= hi {
                lemma_plan_nodes_single(s);
                assert forall|t: int| 0 <= t < seg_nodes(s).len() implies #[trigger] f(seg_nodes(s)[t]) == seg_nodes(s)[t] by {}
                assert(seg_nodes(s).map_values(f) =~= seg_nodes(s));
            } else {
                let before = if nodes.start < lo {
                    seq![DispatchPlan::Streamed { nodes: Range { start: nodes.start, end: lo } }]
                } else {
                    Seq::empty()
                };
                let mid = seq![DispatchPlan::Captured { key, nodes: Range { start: lo, end: hi } }];
                let after = if hi < nodes.end {
                    seq![DispatchPlan::Streamed { nodes: Range { start: hi, end: nodes.end } }]
                } else {
                    Seq::empty()
                };
                assert(split_segment(s, key, r) == before + mid + after);
                lemma_plan_nodes_append(before + mid, after);
                lemma_plan_nodes_append(before, mid);
                lemma_plan_nodes_single(mid[0]);
                assert(mid =~= seq![mid[0]]);
                let pb = plan_nodes(before);
                let pm = plan_nodes(mid);
                let pa = plan_nodes(after);
                if nodes.start < lo {
                    lemma_plan_nodes_single(before[0]);
                    assert(before =~= seq![before[0]]);
                } else {
                    assert(pb =~= Seq::<(int, Option<usize>)>::empty());
                }
                if hi < nodes.end {
                    lemma_plan_nodes_single(after[0]);
                    assert(after =~= seq![after[0]]);
                } else {
                    assert(pa =~= Seq::<(int, Option<usize>)>::empty());
                }
                assert(pb.len() == lo - nodes.start);
                assert(pm.len() == hi - lo);
                assert(pa.len() == nodes.end - hi);
                assert(plan_nodes(split_segment(s, key, r)) =~= seg_nodes(s).map_values(f)) by {
                    assert(plan_nodes(split_segment(s, key, r)) == pb + pm + pa);
                    assert forall|t: int| 0 <= t < seg_nodes(s).len() implies
                        #[trigger] (pb + pm + pa)[t] == seg_nodes(s).map_values(f)[t] by {
                        if t < pb.len() {
                        } else if t < pb.len() + pm.len() {
                            assert((pb + pm + pa)[t] == pm[t - pb.len()]);
                        } else {
                            assert((pb + pm + pa)[t] == pa[t - pb.len() - pm.len()]);
                        }
                    }
                }
            }
        },
        DispatchPlan::Captured { .. } => {
            lemma_plan_nodes_single(s);
            assert forall|t: int| 0 <= t < seg_nodes(s).len() implies #[trigger] f(seg_nodes(s)[t]) == seg_nodes(s)[t] by {}
            assert(seg_nodes(s).map_values(f) =~= seg_nodes(s));
        },
    }
}

/// Capturing the nodes of `r` under `key` keeps every node of the plan, in
/// the order the plan runs them, and changes only how the streamed nodes
/// inside `r` run: they are now replayed under `key`. Nodes that were
/// already captured, and nodes outside `r`, run as before.
pub proof fn lemma_capture_nodes(p: Seq<DispatchPlan>, key: usize, r: Range<usize>)
    ensures
        plan_nodes(capture_plan(p, key, r)) == plan_nodes(p).map_values(
            |x: (int, Option<usize>)| captured_node(x, key, r),
        ),
    decreases p.len(),
{
    let f = |x: (int, Option<usize>)| captured_node(x, key, r);
    if p.len() == 0 {
        assert(plan_nodes(p).map_values(f) =~= Seq::<(int, Option<usize>)>::empty());
    } else {
        lemma_capture_nodes(p.drop_last(), key, r);
        lemma_plan_nodes_append(capture_plan(p.drop_last(), key, r), split_segment(p.last(), key, r));
        lemma_split_segment_nodes(p.last(), key, r);
        assert(plan_nodes(p).map_values(f) =~= plan_nodes(p.drop_last()).map_values(f) + seg_nodes(
            p.last(),
        ).map_values(f));
    }
}

/// Every segment a split produces lies inside the segment it came from.
proof fn lemma_split_segment_bounds(s: DispatchPlan, key: usize, r: Range<usize>, n: nat)
    requires
        seg_range(s).start <= seg_range(s).end <= n,
    ensures
        forall|i: int| 0 <= i < split_segment(s, key, r).len() ==>
            seg_range(#[trigger] split_segment(s, key, r)[i]).start <= seg_range(split_segment(s, key, r)[i]).end <= n,
{
}

/// Capturing keeps a well-formed plan well-formed.
pub proof fn lemma_capture_keeps_wf(p: Seq<DispatchPlan>, key: usize, r: Range<usize>, n: nat)
    requires
        plan_wf(p, n),
    ensures
        plan_wf(capture_plan(p, key, r), n),
    decreases p.len(),
{
    let q = capture_plan(p, key, r);
    lemma_capture_nodes(p, key, r);
    assert forall|j: int| 0 <= j < n implies (#[trigger] plan_nodes(q)[j]).0 == j by {
        assert(plan_nodes(q)[j] == captured_node(plan_nodes(p)[j], key, r));
    }
    lemma_capture_bounds(p, key, r, n);
}

proof fn lemma_capture_bounds(p: Seq<DispatchPlan>, key: usize, r: Range<usize>, n: nat)
    requires
        forall|i: int| 0 <= i < p.len() ==> seg_range(#[trigger] p[i]).start <= seg_range(p[i]).end <= n,
    ensures
        forall|i: int| 0 <= i < capture_plan(p, key, r).len() ==>
            seg_range(#[trigger] capture_plan(p, key, r)[i]).start <= seg_range(capture_plan(p, key, r)[i]).end <= n,
    decreases p.len(),
{
    if p.len() > 0 {
        lemma_capture_bounds(p.drop_last(), key, r, n);
        lemma_split_segment_bounds(p.last(), key, r, n);
        let a = capture_plan(p.drop_last(), key, r);
        let b = split_segment(p.last(), key, r);
        assert forall|i: int| 0 <= i < (a + b).len() implies
            seg_range(#[trigger] (a + b)[i]).start <= seg_range((a + b)[i]).end <= n by {
            if i >= a.len() {
                assert((a + b)[i] == b[i - a.len()]);
            }
        }
    }
}

/// Number of segments of the plan replayed from the capture kept under `key`.
pub open spec fn captured_under(p: Seq<DispatchPlan>, key: usize) -> nat
    decreases p.len(),
{
    if p.len() == 0 {
        0
    } else {
        captured_under(p.drop_last(), key) + (if p.last() matches DispatchPlan::Captured { key: k, .. } && k == key {
            1nat
        } else {
            0nat
        })
    }
}

/// Number of streamed segments of the plan that share a node with `r`.
pub open spec fn streamed_meeting(p: Seq<DispatchPlan>, r: Range<usize>) -> nat
    decreases p.len(),
{
    if p.len() == 0 {
        0
    } else {
        streamed_meeting(p.drop_last(), r) + (if p.last() matches DispatchPlan::Streamed { nodes } && r.start < nodes.end
            && nodes.start < r.end && r.start < r.end && nodes.start < nodes.end {
            1nat
        } else {
            0nat
        })
    }
}

proof fn lemma_captured_under_append(a: Seq<DispatchPlan>, b: Seq<DispatchPlan>, key: usize)
    ensures
        captured_under(a + b, key) == captured_under(a, key) + captured_under(b, key),
    decreases b.len(),
{
    if b.len() == 0 {
        assert(a + b =~= a);
    } else {
        lemma_captured_under_append(a, b.drop_last(), key);
        assert((a + b).drop_last() =~= a + b.drop_last());
        assert((a + b).last() == b.last());
    }
}

proof fn lemma_captured_under_single(s: DispatchPlan, key: usize)
    ensures
        captured_under(seq![s], key) == (if s matches DispatchPlan::Captured { key: k, .. } && k == key {
            1nat
        } else {
            0nat
        }),
{
    assert(seq![s].drop_last() =~= Seq::<DispatchPlan>::empty());
    assert(seq![s].last() == s);
    assert(captured_under(Seq::<DispatchPlan>::empty(), key) == 0);
}

/// Capturing `r` under `key` turns the nodes that each streamed segment
/// shares with `r` into exactly one captured segment under `key`: the plan
/// gains one such segment per streamed segment that meets `r`, and keeps
/// every segment it already replayed under `key`.
pub proof fn lemma_capture_one_segment_per_overlap(p: Seq<DispatchPlan>, key: usize, r: Range<usize>)
    ensures
        captured_under(capture_plan(p, key, r), key) == captured_under(p, key) + streamed_meeting(p, r),
    decreases p.len(),
{
    if p.len() > 0 {
        lemma_capture_one_segment_per_overlap(p.drop_last(), key, r);
        let s = p.last();
        let before = capture_plan(p.drop_last(), key, r);
        assert(capture_plan(p, key, r) == before + split_segment(s, key, r));
        lemma_captured_under_append(before, split_segment(s, key, r), key);
        match s {
            DispatchPlan::Streamed { nodes } => {
                let lo = max_idx(nodes.start, r.start);
                let hi = min_idx(nodes.end, r.end);
                if lo >= hi {
                    lemma_captured_under_single(s, key);
                } else {
                    let first = if nodes.start < lo {
                        seq![DispatchPlan::Streamed { nodes: Range { start: nodes.start, end: lo } }]
                    } else {
                        Seq::empty()
                    };
                    let mid = seq![DispatchPlan::Captured { key, nodes: Range { start: lo, end: hi } }];
                    let last = if hi < nodes.end {
                        seq![DispatchPlan::Streamed { nodes: Range { start: hi, end: nodes.end } }]
                    } else {
                        Seq::empty()
                    };
                    assert(split_segment(s, key, r) == first + mid + last);
                    lemma_captured_under_append(first + mid, last, key);
                    lemma_captured_under_append(first, mid, key);
                    lemma_captured_under_single(mid[0], key);
                    assert(mid =~= seq![mid[0]]);
                    if nodes.start < lo {
                        lemma_captured_under_single(first[0], key);
                        assert(first =~= seq![first[0]]);
                    }
                    if hi < nodes.end {
                        lemma_captured_under_single(last[0], key);
                        assert(last =~= seq![last[0]]);
                    }
                }
            },
            DispatchPlan::Captured { .. } => {
                lemma_captured_under_single(s, key);
            },
        }
    }
}

/// Every segment of the plan covers at least one node.
pub open spec fn no_empty_segment(p: Seq<DispatchPlan>) -> bool {
    forall|i: int| 0 <= i < p.len() ==> seg_range(#[trigger] p[i]).start < seg_range(p[i]).end
}

/// No streamed segment of the plan shares a node with `r`.
pub open spec fn misses_streamed(p: Seq<DispatchPlan>, r: Range<usize>) -> bool {
    forall|i: int|
        0 <= i < p.len() ==> (#[trigger] p[i] matches DispatchPlan::Streamed { nodes } ==> max_idx(nodes.start, r.start)
            >= min_idx(nodes.end, r.end))
}

/// Capturing adds no empty segment: a plan whose segments all cover some
/// node still has only such segments afterwards.
pub proof fn lemma_capture_no_empty_segment(p: Seq<DispatchPlan>, key: usize, r: Range<usize>)
    requires
        no_empty_segment(p),
    ensures
        no_empty_segment(capture_plan(p, key, r)),
    decreases p.len(),
{
    if p.len() > 0 {
        lemma_capture_no_empty_segment(p.drop_last(), key, r);
        let a = capture_plan(p.drop_last(), key, r);
        let b = split_segment(p.last(), key, r);
        assert(no_empty_segment(b));
        assert forall|i: int| 0 <= i < (a + b).len() implies seg_range(#[trigger] (a + b)[i]).start < seg_range(
            (a + b)[i],
        ).end by {
            if i >= a.len() {
                assert((a + b)[i] == b[i - a.len()]);
            }
        }
    }
}

/// Capturing a range that shares no node with a streamed segment leaves the
/// plan as it was.
pub proof fn lemma_capture_outside_streamed(p: Seq<DispatchPlan>, key: usize, r: Range<usize>)
    requires
        misses_streamed(p, r),
    ensures
        capture_plan(p, key, r) == p,
    decreases p.len(),
{
    if p.len() > 0 {
        assert(misses_streamed(p.drop_last(), r)) by {
            assert forall|i: int| 0 <= i < p.drop_last().len() implies (#[trigger] p.drop_last()[i] matches DispatchPlan::Streamed { nodes } ==> max_idx(nodes.start, r.start)
                >= min_idx(nodes.end, r.end)) by {
                assert(p.drop_last()[i] == p[i]);
            }
        }
        lemma_capture_outside_streamed(p.drop_last(), key, r);
        assert(p[p.len() - 1] == p.last());
        assert(split_segment(p.last(), key, r) == seq![p.last()]);
        assert(p.drop_last() + seq![p.last()] =~= p);
    }
}

/// The plan a freshly built graph of `n` nodes starts with: everything
/// streamed.
pub open spec fn initial_plan(n: usize) -> Seq<DispatchPlan> {
    seq![DispatchPlan::Streamed { nodes: Range { start: 0, end: n } }]
}

/// A freshly built graph's plan is well formed.
pub proof fn lemma_initial_plan_wf(n: usize)
    ensures
        plan_wf(initial_plan(n), n as nat),
{
    let p = initial_plan(n);
    lemma_plan_nodes_single(p[0]);
    assert(p =~= seq![p[0]]);
}


// ---------------------------------------------------------------------------
// Checking one dispatch against its kernel's layout
// ---------------------------------------------------------------------------

/// Why the bindings of a dispatch do not fit its kernel's layout.
#[derive(Debug, Clone, Copy, PartialEq, Eq, Structural)]
pub enum BindingError {
    /// A binding names a slot past the end of the layout.
    SlotOutOfRange { slot: u32, layout_len: usize },
    /// The binding at index `binding` claims a role that the layout does not
    /// accept for its slot.
    RoleMismatch { slot: u32, binding: usize },
    /// Only `supplied` of the `expected` slots are bound.
    Missing { expected: usize, supplied: usize },
}

/// A binding fits a layout when its slot exists and the layout's role for
/// the slot accepts the binding's role.
pub open spec fn role_fits(layout: Seq<BindingRole>, slot: u32, mode: BindingRole) -> bool {
    slot < layout.len() && role_accepts(layout[slot as int], mode)
}

/// The error reported for the binding at index `i`, which does not fit.
pub open spec fn role_misfit_error<Buf>(layout: Seq<BindingRole>, bindings: Seq<Binding<Buf>>, i: int) -> BindingError {
    if bindings[i].slot >= layout.len() {
        BindingError::SlotOutOfRange { slot: bindings[i].slot, layout_len: layout.len() as usize }
    } else {
        BindingError::RoleMismatch { slot: bindings[i].slot, binding: i as usize }
    }
}

/// Some binding is bound to slot `s`.
pub open spec fn slot_bound<Buf>(bindings: Seq<Binding<Buf>>, s: int) -> bool {
    exists|j: int| 0 <= j < bindings.len() && bindings[j].slot == s
}

/// Number of the first `n` slots that some binding is bound to.
pub open spec fn bound_count<Buf>(bindings: Seq<Binding<Buf>>, n: int) -> nat
    decreases n,
{
    if n <= 0 {
        0
    } else {
        bound_count(bindings, n - 1) + (if slot_bound(bindings, n - 1) { 1nat } else { 0nat })
    }
}

/// Some binding is a meta whose contents change between runs.
pub open spec fn has_dynamic_meta<Buf>(bindings: Seq<Binding<Buf>>) -> bool {
    exists|j: int|
        0 <= j < bindings.len() && (#[trigger] bindings[j]).mode matches BindingRole::Meta {
            kind: MetaKind::Dynamic,
            ..
        }
}

/// What checking a dispatch's bindings against its layout gives: the first
/// binding that does not fit; else, when a slot is left unbound, how many
/// are bound; else whether some meta is dynamic.
pub open spec fn bindings_check<Buf>(layout: Seq<BindingRole>, bindings: Seq<Binding<Buf>>) -> Result<bool, BindingError> {
    if exists|i: int| 0 <= i < bindings.len() && !role_fits(layout, #[trigger] bindings[i].slot, bindings[i].mode) {
        let i = choose|i: int|
            0 <= i < bindings.len() && !role_fits(layout, #[trigger] bindings[i].slot, bindings[i].mode)
            && forall|j: int| 0 <= j < i ==> role_fits(layout, #[trigger] bindings[j].slot, bindings[j].mode);
        Err(role_misfit_error(layout, bindings, i))
    } else if exists|s: int| 0 <= s < layout.len() && !slot_bound(bindings, s) {
        Err(BindingError::Missing { expected: layout.len() as usize, supplied: bound_count(bindings, layout.len() as int) as usize })
    } else {
        Ok(has_dynamic_meta(bindings))
    }
}

/// Among the bindings that do not fit, there is a first one.
proof fn lemma_first_misfit<Buf>(layout: Seq<BindingRole>, bindings: Seq<Binding<Buf>>, k: int)
    requires
        0 <= k < bindings.len(),
        !role_fits(layout, bindings[k].slot, bindings[k].mode),
    ensures
        exists|i: int|
            0 <= i < bindings.len() && !role_fits(layout, #[trigger] bindings[i].slot, bindings[i].mode)
            && forall|j: int| 0 <= j < i ==> role_fits(layout, #[trigger] bindings[j].slot, bindings[j].mode),
    decreases k,
{
    if exists|j: int| 0 <= j < k && !role_fits(layout, #[trigger] bindings[j].slot, bindings[j].mode) {
        let j = choose|j: int| 0 <= j < k && !role_fits(layout, #[trigger] bindings[j].slot, bindings[j].mode);
        lemma_first_misfit(layout, bindings, j);
    }
}

proof fn lemma_bound_count_le<Buf>(bindings: Seq<Binding<Buf>>, n: int)
    requires
        n >= 0,
    ensures
        bound_count(bindings, n) <= n,
    decreases n,
{
    if n > 0 {
        lemma_bound_count_le(bindings, n - 1);
    }
}

/// A role mismatch names a slot of the layout and one of the bindings.
proof fn lemma_role_mismatch_in_range<Buf>(layout: Seq<BindingRole>, bindings: Seq<Binding<Buf>>)
    ensures
        bindings_check(layout, bindings) matches Err(BindingError::RoleMismatch { slot, binding }) ==> slot
            < layout.len() && binding < bindings.len(),
{
    if exists|i: int| 0 <= i < bindings.len() && !role_fits(layout, #[trigger] bindings[i].slot, bindings[i].mode) {
        let k = choose|i: int| 0 <= i < bindings.len() && !role_fits(layout, #[trigger] bindings[i].slot, bindings[i].mode);
        lemma_first_misfit(layout, bindings, k);
    }
}

/// Checks a dispatch's bindings against its kernel's layout.
pub fn check_bindings<Buf>(layout: &[BindingRole], bindings: &[Binding<Buf>]) -> (r: Result<bool, BindingError>)
    ensures
        r == bindings_check(layout@, bindings@),
{
    let n = layout.len();
    let mut covered: Vec<bool> = Vec::new();
    let mut s: usize = 0;
    while s < n
        invariant
            s <= n,
            n == layout@.len(),
            covered@.len() == s,
            forall|t: int| 0 <= t < s ==> !(#[trigger] covered@[t]),
        decreases n - s,
    {
        covered.push(false);
        s = s + 1;
    }
    let mut has_dynamic = false;
    let mut j: usize = 0;
    while j < bindings.len()
        invariant
            j <= bindings@.len(),
            n == layout@.len(),
            covered@.len() == n,
            forall|i: int| 0 <= i < j ==> role_fits(layout@, #[trigger] bindings@[i].slot, bindings@[i].mode),
            forall|t: int|
                0 <= t < n ==> (#[trigger] covered@[t] <==> exists|i: int|
                    0 <= i < j && bindings@[i].slot == t),
            has_dynamic <==> exists|i: int|
                0 <= i < j && (#[trigger] bindings@[i]).mode matches BindingRole::Meta {
                    kind: MetaKind::Dynamic,
                    ..
                },
        decreases bindings@.len() - j,
    {
        let b = &bindings[j];
        let slot = b.slot;
        if slot as usize >= n {
            proof {
                lemma_first_misfit(layout@, bindings@, j as int);
                let i = choose|i: int|
                    0 <= i < bindings@.len() && !role_fits(layout@, #[trigger] bindings@[i].slot, bindings@[i].mode)
                    && forall|k: int| 0 <= k < i ==> role_fits(layout@, #[trigger] bindings@[k].slot, bindings@[k].mode);
                assert(i == j);
            }
            return Err(BindingError::SlotOutOfRange { slot, layout_len: n });
        }
        if !layout[slot as usize].accepts(&b.mode) {
            proof {
                lemma_first_misfit(layout@, bindings@, j as int);
                let i = choose|i: int|
                    0 <= i < bindings@.len() && !role_fits(layout@, #[trigger] bindings@[i].slot, bindings@[i].mode)
                    && forall|k: int| 0 <= k < i ==> role_fits(layout@, #[trigger] bindings@[k].slot, bindings@[k].mode);
                assert(i == j);
            }
            return Err(BindingError::RoleMismatch { slot, binding: j });
        }
        covered.set(slot as usize, true);
        if let BindingRole::Meta { kind: MetaKind::Dynamic, .. } = &b.mode {
            has_dynamic = true;
        }
        proof {
            assert forall|t: int|
                0 <= t < n implies (#[trigger] covered@[t] <==> exists|i: int|
                    0 <= i < j + 1 && bindings@[i].slot == t) by {
                if t == slot as int {
                    assert(bindings@[j as int].slot == t);
                }
            }
        }
        j = j + 1;
    }
    assert(!exists|i: int| 0 <= i < bindings@.len() && !role_fits(layout@, #[trigger] bindings@[i].slot, bindings@[i].mode));
    let mut supplied: usize = 0;
    let mut all = true;
    let mut t: usize = 0;
    while t < n
        invariant
            t <= n,
            n == layout@.len(),
            covered@.len() == n,
            forall|u: int|
                0 <= u < n ==> (#[trigger] covered@[u] <==> exists|i: int|
                    0 <= i < bindings@.len() && bindings@[i].slot == u),
            supplied == bound_count(bindings@, t as int),
            all <==> forall|u: int| 0 <= u < t ==> slot_bound(bindings@, u),
        decreases n - t,
    {
        proof {
            lemma_bound_count_le(bindings@, t as int);
        }
        if covered[t] {
            supplied = supplied + 1;
        } else {
            all = false;
        }
        t = t + 1;
    }
    if !all {
        return Err(BindingError::Missing { expected: n, supplied });
    }
    Ok(has_dynamic)
}

/// How `{:?}` writes a device identity.
pub open spec fn device_debug(device: DeviceId) -> Seq<char> {
    "DeviceId("@ + decimal(device.0 as nat) + ")"@
}

/// The message for a binding slot past the end of the layout.
pub open spec fn slot_out_of_range_text(name: Seq<char>, slot: u32, layout_len: usize) -> Seq<char> {
    "Tensor Mode Mismatch: kernel `"@ + name + "` binding slot "@ + decimal(slot as nat) + " out of range (kernel expects "@
        + decimal(layout_len as nat) + " bindings)"@
}

/// The text `{:?}` makes of a binding role.
pub uninterp spec fn role_debug_text(role: BindingRole) -> Seq<char>;

/// The message for a binding whose role the layout refuses.
pub open spec fn role_mismatch_text(name: Seq<char>, slot: u32, expected: BindingRole, got: BindingRole) -> Seq<char> {
    "Tensor Mode Mismatch: kernel `"@ + name + "` slot "@ + decimal(slot as nat) + " expects "@ + role_debug_text(expected)
        + ", got "@ + role_debug_text(got)
}

/// The message for unbound slots.
pub open spec fn missing_bindings_text(name: Seq<char>, expected: usize, supplied: usize) -> Seq<char> {
    "Tensor Mode Mismatch: kernel `"@ + name + "` expects "@ + decimal(expected as nat) + " binding(s), only "@ + decimal(
        supplied as nat,
    ) + " were supplied"@
}

/// A kernel's name in front of a message about it.
pub open spec fn kernel_text(name: Seq<char>, message: Seq<char>) -> Seq<char> {
    "kernel `"@ + name + "`: "@ + message
}

/// `format!` of the message for a binding slot past the end of the layout:
/// a text fixed by the arguments.
#[verifier::external_body]
fn slot_out_of_range_message(name: &str, slot: u32, layout_len: usize) -> (r: String)
    ensures
        r@ == slot_out_of_range_text(name@, slot, layout_len),
{
    format!("Tensor Mode Mismatch: kernel `{name}` binding slot {slot} out of range (kernel expects {layout_len} bindings)")
}

/// `format!` of the message for a binding whose role the layout refuses: a
/// text fixed by the arguments.
#[verifier::external_body]
fn role_mismatch_message(name: &str, slot: u32, expected: &BindingRole, got: &BindingRole) -> (r: String)
    ensures
        r@ == "Tensor Mode Mismatch: kernel `"@ + name@ + "` slot "@ + decimal(slot as nat) + " expects "@ + role_debug_text(
            *expected,
        ) + ", got "@ + role_debug_text(*got),
{
    format!("Tensor Mode Mismatch: kernel `{name}` slot {slot} expects {expected:?}, got {got:?}")
}

/// `format!` of the message for unbound slots: a text fixed by the
/// arguments.
#[verifier::external_body]
fn missing_bindings_message(name: &str, expected: usize, supplied: usize) -> (r: String)
    ensures
        r@ == missing_bindings_text(name@, expected, supplied),
{
    format!("Tensor Mode Mismatch: kernel `{name}` expects {expected} binding(s), only {supplied} were supplied")
}

/// `format!` of a kernel's name in front of a message about it: a text
/// fixed by the arguments.
#[verifier::external_body]
fn kernel_message(name: &str, message: &str) -> (r: String)
    ensures
        r@ == kernel_text(name@, message@),
{
    format!("kernel `{name}`: {message}")
}

/// The message describing binding error `e` of a dispatch of kernel `name`.
pub open spec fn binding_error_text<Buf>(
    name: Seq<char>,
    layout: Seq<BindingRole>,
    bindings: Seq<Binding<Buf>>,
    e: BindingError,
) -> Seq<char> {
    match e {
        BindingError::SlotOutOfRange { slot, layout_len } => slot_out_of_range_text(name, slot, layout_len),
        BindingError::RoleMismatch { slot, binding } => role_mismatch_text(
            name,
            slot,
            layout[slot as int],
            bindings[binding as int].mode,
        ),
        BindingError::Missing { expected, supplied } => missing_bindings_text(name, expected, supplied),
    }
}

/// The message describing a binding error of the dispatch of kernel `name`.
fn binding_error_message<Buf>(name: &str, layout: &[BindingRole], bindings: &[Binding<Buf>], e: BindingError) -> (r: String)
    requires
        e matches BindingError::RoleMismatch { slot, binding } ==> slot < layout@.len() && binding
            < bindings@.len(),
    ensures
        r@ == binding_error_text(name@, layout@, bindings@, e),
{
    match e {
        BindingError::SlotOutOfRange { slot, layout_len } => slot_out_of_range_message(name, slot, layout_len),
        BindingError::RoleMismatch { slot, binding } => role_mismatch_message(
            name,
            slot,
            &layout[slot as usize],
            &bindings[binding].mode,
        ),
        BindingError::Missing { expected, supplied } => missing_bindings_message(name, expected, supplied),
    }
}

/// What validating dispatch `spec` gives, once the backend's size check has
/// answered `workgroups`: the backend's refusal behind the kernel's name;
/// else the first binding error, described; else whether the dispatch has a
/// dynamic meta.
pub open spec fn validation_outcome<Buf>(
    spec: NodeSpec<Buf>,
    workgroups: Result<(), String>,
    r: Result<bool, String>,
) -> bool {
    let checked = bindings_check(spec.shader.layout@, spec.bindings@);
    &&& r is Ok <==> workgroups is Ok && checked is Ok
    &&& r matches Ok(dynamic) ==> checked == Ok::<bool, BindingError>(dynamic)
    &&& workgroups matches Err(w) ==> r matches Err(m) && m@ == kernel_text(spec.shader.name@, w@)
    &&& workgroups is Ok ==> (r matches Err(m) ==> checked matches Err(e) && m@ == binding_error_text(
        spec.shader.name@,
        spec.shader.layout@,
        spec.bindings@,
        e,
    ))
}

/// Validates one dispatch: the backend checks its size, then its bindings
/// are checked against its kernel's layout. On success, tells whether the
/// dispatch has a dynamic meta.
pub fn validate_spec<N: Node, Buf>(spec: &NodeSpec<Buf>) -> (r: Result<bool, String>)
    ensures
        exists|w: Result<(), String>|
            call_ensures(N::validate_workgroups, (spec.workgroups,), w) && #[trigger] validation_outcome(*spec, w, r),
{
    let workgroups = N::validate_workgroups(spec.workgroups);
    finish_validation(spec, workgroups)
}

/// What validating a dispatch gives once the backend has checked its size
/// (`workgroups`): the backend's refusal, prefixed with the kernel's name;
/// else the first binding error; else whether the dispatch has a dynamic
/// meta.
pub fn finish_validation<Buf>(spec: &NodeSpec<Buf>, workgroups: Result<(), String>) -> (r: Result<bool, String>)
    ensures
        validation_outcome(*spec, workgroups, r),
{
    match workgroups {
        Ok(()) => {},
        Err(e) => {
            return Err(kernel_message(spec.shader.name, e.as_str()));
        },
    }
    match check_bindings(spec.shader.layout, spec.bindings) {
        Ok(dynamic) => Ok(dynamic),
        Err(e) => {
            proof {
                lemma_role_mismatch_in_range(spec.shader.layout@, spec.bindings@);
            }
            Err(binding_error_message(spec.shader.name, spec.shader.layout, spec.bindings, e))
        },
    }
}


// ---------------------------------------------------------------------------
// Buffer ownership and write hazards across the dispatches of a graph
// ---------------------------------------------------------------------------

broadcast use vstd::std_specs::hash::group_hash_axioms;

/// How a binding writes its buffer.
#[derive(Debug, Clone, Copy, PartialEq, Eq, Structural)]
pub enum WriteKind {
    /// Output or InOut: the dispatch owns the buffer's contents.
    Exclusive,
    /// Accumulate: the dispatch adds into the buffer.
    Accumulate,
    /// Input or Meta: the dispatch only reads.
    ReadOnly,
}

pub open spec fn role_write_kind(role: BindingRole) -> WriteKind {
    match role {
        BindingRole::Output(_) | BindingRole::InOut(_) => WriteKind::Exclusive,
        BindingRole::Accumulate(_) => WriteKind::Accumulate,
        BindingRole::Input(_) | BindingRole::Meta { .. } => WriteKind::ReadOnly,
    }
}

fn write_kind(role: &BindingRole) -> (k: WriteKind)
    ensures
        k == role_write_kind(*role),
{
    match role {
        BindingRole::Output(_) | BindingRole::InOut(_) => WriteKind::Exclusive,
        BindingRole::Accumulate(_) => WriteKind::Accumulate,
        BindingRole::Input(_) | BindingRole::Meta { .. } => WriteKind::ReadOnly,
    }
}

/// One binding of one dispatch, as the graph-level checks see it.
#[derive(Debug, Clone, Copy, PartialEq, Eq, Structural)]
pub struct BufferAccess {
    pub dispatch: usize,
    pub slot: u32,
    pub buffer: BufferId,
    pub owner: DeviceId,
    pub kind: WriteKind,
}

/// For each buffer written by the first `k` accesses, the dispatch that
/// wrote it last.
pub open spec fn last_writes(acc: Seq<BufferAccess>, k: int) -> Map<u64, usize>
    decreases k,
{
    if k <= 0 {
        Map::empty()
    } else {
        let prev = last_writes(acc, k - 1);
        let a = acc[k - 1];
        if a.kind != WriteKind::ReadOnly {
            prev.insert(a.buffer.0, a.dispatch)
        } else {
            prev
        }
    }
}

/// Access `k` writes, exclusively, a buffer that an earlier access already
/// wrote: nothing orders the two writes.
pub open spec fn hazard_at(acc: Seq<BufferAccess>, k: int) -> bool {
    acc[k].kind == WriteKind::Exclusive && last_writes(acc, k).contains_key(acc[k].buffer.0)
}

/// Finds the first unordered double write: the dispatch of the access that
/// writes again, and the dispatch that wrote the buffer last before it.
pub fn find_hazard(acc: &[BufferAccess]) -> (r: Option<(usize, usize)>)
    ensures
        r is None <==> forall|k: int| 0 <= k < acc@.len() ==> !hazard_at(acc@, k),
        r matches Some((i, prev)) ==> exists|k: int|
            0 <= k < acc@.len() && hazard_at(acc@, k) && (forall|t: int| 0 <= t < k ==> !hazard_at(acc@, t))
            && i == acc@[k].dispatch && prev == last_writes(acc@, k)[acc@[k].buffer.0],
{
    let mut last: HashMap<u64, usize> = HashMap::new();
    let mut k: usize = 0;
    while k < acc.len()
        invariant
            k <= acc@.len(),
            last@ == last_writes(acc@, k as int),
            forall|t: int| 0 <= t < k ==> !hazard_at(acc@, t),
        decreases acc@.len() - k,
    {
        let a = acc[k];
        let id = a.buffer.0;
        match a.kind {
            WriteKind::Exclusive => {
                match last.get(&id) {
                    Some(prev) => {
                        proof {
                            assert(hazard_at(acc@, k as int));
                            assert(last_writes(acc@, k as int)[acc@[k as int].buffer.0] == *prev);
                        }
                        return Some((a.dispatch, *prev));
                    },
                    None => {},
                }
                last.insert(id, a.dispatch);
            },
            WriteKind::Accumulate => {
                last.insert(id, a.dispatch);
            },
            WriteKind::ReadOnly => {},
        }
        k = k + 1;
    }
    None
}

/// The first access whose buffer lives on another device than `device`.
pub fn find_foreign(acc: &[BufferAccess], device: DeviceId) -> (r: Option<usize>)
    ensures
        r is None <==> forall|k: int| 0 <= k < acc@.len() ==> (#[trigger] acc@[k]).owner == device,
        r matches Some(k) ==> k < acc@.len() && acc@[k as int].owner != device && forall|t: int|
            0 <= t < k ==> (#[trigger] acc@[t]).owner == device,
{
    let mut k: usize = 0;
    while k < acc.len()
        invariant
            k <= acc@.len(),
            forall|t: int| 0 <= t < k ==> (#[trigger] acc@[t]).owner == device,
        decreases acc@.len() - k,
    {
        if acc[k].owner != device {
            return Some(k);
        }
        k = k + 1;
    }
    None
}

/// The bindings of the dispatches, in order, with what is known of them
/// before any buffer is asked anything: dispatch index, slot and how the
/// binding writes.
pub open spec fn binding_shapes<Buf>(specs: Seq<NodeSpec<Buf>>) -> Seq<(usize, u32, WriteKind)>
    decreases specs.len(),
{
    if specs.len() == 0 {
        Seq::empty()
    } else {
        binding_shapes(specs.drop_last()) + specs.last().bindings@.map_values(
            |b: Binding<Buf>| ((specs.len() - 1) as usize, b.slot, role_write_kind(b.mode)),
        )
    }
}

/// `acc` lists the bindings of `specs`, in order.
pub open spec fn accesses_of<Buf>(specs: Seq<NodeSpec<Buf>>, acc: Seq<BufferAccess>) -> bool {
    let shapes = binding_shapes(specs);
    &&& acc.len() == shapes.len()
    &&& forall|t: int|
        0 <= t < acc.len() ==> (#[trigger] acc[t]).dispatch == shapes[t].0 && acc[t].slot == shapes[t].1
            && acc[t].kind == shapes[t].2
}

/// Every listed binding belongs to one of the dispatches.
proof fn lemma_binding_shapes_dispatch<Buf>(specs: Seq<NodeSpec<Buf>>)
    ensures
        forall|t: int| 0 <= t < binding_shapes(specs).len() ==> (#[trigger] binding_shapes(specs)[t]).0 < specs.len(),
    decreases specs.len(),
{
    if specs.len() > 0 {
        lemma_binding_shapes_dispatch(specs.drop_last());
        let a = binding_shapes(specs.drop_last());
        let b = specs.last().bindings@.map_values(
            |b: Binding<Buf>| ((specs.len() - 1) as usize, b.slot, role_write_kind(b.mode)),
        );
        assert forall|t: int| 0 <= t < (a + b).len() implies (#[trigger] (a + b)[t]).0 < specs.len() by {
            if t >= a.len() {
                assert((a + b)[t] == b[t - a.len()]);
            }
        }
    }
}

proof fn lemma_binding_shapes_push<Buf>(specs: Seq<NodeSpec<Buf>>, i: int)
    requires
        0 <= i < specs.len(),
    ensures
        binding_shapes(specs.take(i + 1)) == binding_shapes(specs.take(i)) + specs[i].bindings@.map_values(
            |b: Binding<Buf>| (i as usize, b.slot, role_write_kind(b.mode)),
        ),
{
    assert(specs.take(i + 1).drop_last() =~= specs.take(i));
}

/// The roles of the bindings of the dispatches, in order.
pub open spec fn bound_roles<Buf>(specs: Seq<NodeSpec<Buf>>) -> Seq<BindingRole>
    decreases specs.len(),
{
    if specs.len() == 0 {
        Seq::empty()
    } else {
        bound_roles(specs.drop_last()) + specs.last().bindings@.map_values(|b: Binding<Buf>| b.mode)
    }
}

/// A binding in this role changes its buffer.
pub open spec fn role_writes(role: BindingRole) -> bool {
    role is Output || role is InOut || role is Accumulate
}

/// A binding in this role claims its buffer's contents for itself: the
/// kernel overwrites them, or reads and replaces them.
pub open spec fn role_overwrites(role: BindingRole) -> bool {
    role is Output || role is InOut
}

proof fn lemma_shapes_follow_roles<Buf>(specs: Seq<NodeSpec<Buf>>)
    ensures
        binding_shapes(specs).len() == bound_roles(specs).len(),
        forall|t: int|
            0 <= t < binding_shapes(specs).len() ==> (#[trigger] binding_shapes(specs)[t]).2 == role_write_kind(
                bound_roles(specs)[t],
            ),
    decreases specs.len(),
{
    if specs.len() > 0 {
        lemma_shapes_follow_roles(specs.drop_last());
        let a = binding_shapes(specs.drop_last());
        let ra = bound_roles(specs.drop_last());
        let b = specs.last().bindings@.map_values(
            |b: Binding<Buf>| ((specs.len() - 1) as usize, b.slot, role_write_kind(b.mode)),
        );
        let rb = specs.last().bindings@.map_values(|b: Binding<Buf>| b.mode);
        assert forall|t: int| 0 <= t < (a + b).len() implies (#[trigger] (a + b)[t]).2 == role_write_kind(
            (ra + rb)[t],
        ) by {
            if t >= a.len() {
                assert((a + b)[t] == b[t - a.len()]);
                assert((ra + rb)[t] == rb[t - ra.len()]);
            } else {
                assert((a + b)[t] == a[t]);
                assert((ra + rb)[t] == ra[t]);
            }
        }
    }
}

/// Every buffer that an access before `k` writes is among the buffers
/// written so far.
proof fn lemma_written_before(acc: Seq<BufferAccess>, t: int, k: int)
    requires
        0 <= t < k <= acc.len(),
        acc[t].kind != WriteKind::ReadOnly,
    ensures
        last_writes(acc, k).contains_key(acc[t].buffer.0),
    decreases k,
{
    if k - 1 > t {
        lemma_written_before(acc, t, k - 1);
    }
}

/// A buffer that one binding writes (as Output, InOut or Accumulate) and a
/// later binding claims (as Output or InOut) is an unordered double write:
/// the accesses of a graph that `build` accepts, which hold no hazard, hold
/// no such pair.
pub proof fn lemma_no_hazard_no_double_write<Buf>(specs: Seq<NodeSpec<Buf>>, acc: Seq<BufferAccess>, t: int, u: int)
    requires
        accesses_of(specs, acc),
        forall|k: int| 0 <= k < acc.len() ==> !hazard_at(acc, k),
        0 <= t < u < acc.len(),
    ensures
        !(acc[t].buffer == acc[u].buffer && role_writes(bound_roles(specs)[t]) && role_overwrites(
            bound_roles(specs)[u],
        )),
{
    lemma_shapes_follow_roles(specs);
    if acc[t].buffer == acc[u].buffer && role_writes(bound_roles(specs)[t]) && role_overwrites(bound_roles(specs)[u]) {
        assert(binding_shapes(specs)[t].2 == role_write_kind(bound_roles(specs)[t]));
        assert(binding_shapes(specs)[u].2 == role_write_kind(bound_roles(specs)[u]));
        assert(acc[t].kind != WriteKind::ReadOnly);
        assert(acc[u].kind == WriteKind::Exclusive);
        lemma_written_before(acc, t, u);
        assert(hazard_at(acc, u));
    }
}

/// The buffers bound by the dispatches, in order.
pub open spec fn bound_buffers<Buf>(specs: Seq<NodeSpec<Buf>>) -> Seq<Buf>
    decreases specs.len(),
{
    if specs.len() == 0 {
        Seq::empty()
    } else {
        bound_buffers(specs.drop_last()) + specs.last().bindings@.map_values(|b: Binding<Buf>| *b.buffer)
    }
}

/// `acc` lists the bindings of `specs` in order, with the identity and the
/// owner that each bound buffer answered when asked.
pub open spec fn accesses_read<Buf: Buffer>(specs: Seq<NodeSpec<Buf>>, acc: Seq<BufferAccess>) -> bool {
    &&& accesses_of(specs, acc)
    &&& bound_buffers(specs).len() == acc.len()
    &&& forall|t: int|
        0 <= t < acc.len() ==> call_ensures(Buf::id, (&bound_buffers(specs)[t],), (#[trigger] acc[t]).buffer)
            && call_ensures(Buf::owner, (&bound_buffers(specs)[t],), acc[t].owner)
}

proof fn lemma_bound_buffers_push<Buf>(specs: Seq<NodeSpec<Buf>>, i: int)
    requires
        0 <= i < specs.len(),
    ensures
        bound_buffers(specs.take(i + 1)) == bound_buffers(specs.take(i)) + specs[i].bindings@.map_values(
            |b: Binding<Buf>| *b.buffer,
        ),
{
    assert(specs.take(i + 1).drop_last() =~= specs.take(i));
}

/// Asks every bound buffer for its identity and owner, and lists the
/// bindings of the dispatches in order.
fn collect_accesses<Buf: Buffer>(specs: &[NodeSpec<Buf>]) -> (acc: Vec<BufferAccess>)
    ensures
        accesses_read(specs@, acc@),
{
    let mut acc: Vec<BufferAccess> = Vec::new();
    let mut i: usize = 0;
    assert(specs@.take(0) =~= Seq::<NodeSpec<Buf>>::empty());
    while i < specs.len()
        invariant
            i <= specs@.len(),
            accesses_read(specs@.take(i as int), acc@),
        decreases specs@.len() - i,
    {
        let spec = &specs[i];
        let ghost before = acc@;
        let mut j: usize = 0;
        while j < spec.bindings.len()
            invariant
                i < specs@.len(),
                spec == specs@[i as int],
                j <= spec.bindings@.len(),
                acc@.len() == before.len() + j,
                acc@.take(before.len() as int) == before,
                accesses_read(specs@.take(i as int), before),
                forall|t: int|
                    0 <= t < j ==> (#[trigger] acc@[before.len() + t]).dispatch == i && acc@[before.len() + t].slot
                        == spec.bindings@[t].slot && acc@[before.len() + t].kind == role_write_kind(
                        spec.bindings@[t].mode,
                    ) && call_ensures(Buf::id, (spec.bindings@[t].buffer,), acc@[before.len() + t].buffer)
                        && call_ensures(Buf::owner, (spec.bindings@[t].buffer,), acc@[before.len() + t].owner),
            decreases spec.bindings@.len() - j,
        {
            let b = &spec.bindings[j];
            let id = b.buffer.id();
            let owner = b.buffer.owner();
            acc.push(BufferAccess { dispatch: i, slot: b.slot, buffer: id, owner, kind: write_kind(&b.mode) });
            proof {
                assert(acc@.take(before.len() as int) =~= before);
                assert(acc@[before.len() + j] == acc@[acc@.len() - 1]);
            }
            j = j + 1;
        }
        proof {
            lemma_binding_shapes_push(specs@, i as int);
            lemma_bound_buffers_push(specs@, i as int);
            let shapes = binding_shapes(specs@.take(i + 1));
            let old_shapes = binding_shapes(specs@.take(i as int));
            let bufs = bound_buffers(specs@.take(i + 1));
            let old_bufs = bound_buffers(specs@.take(i as int));
            assert(shapes.len() == acc@.len());
            assert forall|t: int| 0 <= t < acc@.len() implies (#[trigger] acc@[t]).dispatch == shapes[t].0
                && acc@[t].slot == shapes[t].1 && acc@[t].kind == shapes[t].2 && call_ensures(
                Buf::id,
                (&bufs[t],),
                acc@[t].buffer,
            ) && call_ensures(Buf::owner, (&bufs[t],), acc@[t].owner) by {
                if t < before.len() {
                    assert(acc@[t] == before[t]);
                    assert(shapes[t] == old_shapes[t]);
                    assert(bufs[t] == old_bufs[t]);
                } else {
                    let u = t - before.len();
                    assert(acc@[before.len() + u] == acc@[t]);
                    assert(bufs[t] == *spec.bindings@[u].buffer);
                }
            }
        }
        i = i + 1;
    }
    assert(specs@.take(specs@.len() as int) =~= specs@);
    acc
}

/// The message for a binding whose buffer lives on device `actual` of a
/// graph that runs on device `owner`.
pub open spec fn ownership_text(dispatch: usize, name: Seq<char>, slot: u32, actual: DeviceId, owner: DeviceId) -> Seq<char> {
    "Buffer ownership mismatch: dispatch "@ + decimal(dispatch as nat) + " (kernel `"@ + name + "`) binding slot "@ + decimal(
        slot as nat,
    ) + " belongs to device "@ + device_debug(actual) + ", but this Graph runs on "@ + device_debug(owner)
}

/// The message for an unordered double write.
pub open spec fn hazard_text(dispatch: usize, prev: usize) -> Seq<char> {
    "Buffer hazard: dispatch "@ + decimal(dispatch as nat) + " writes a buffer already written by dispatch "@ + decimal(
        prev as nat,
    ) + " with nothing establishing their order"@
}

/// `format!` of the message for a buffer of another device.
#[verifier::external_body]
fn ownership_message(dispatch: usize, name: &str, slot: u32, actual: DeviceId, owner: DeviceId) -> (r: String)
    ensures
        r@ == ownership_text(dispatch, name@, slot, actual, owner),
{
    format!(
        "Buffer ownership mismatch: dispatch {dispatch} (kernel `{name}`) binding slot {slot} belongs to device {actual:?}, but this Graph runs on {owner:?}"
    )
}

/// `format!` of the message for an unordered double write.
#[verifier::external_body]
fn hazard_message(dispatch: usize, prev: usize) -> (r: String)
    ensures
        r@ == hazard_text(dispatch, prev),
{
    format!(
        "Buffer hazard: dispatch {dispatch} writes a buffer already written by dispatch {prev} with nothing establishing their order"
    )
}

// ---------------------------------------------------------------------------
// Graph
// ---------------------------------------------------------------------------

/// Every dispatch's bindings fit its kernel's layout.
pub open spec fn all_bindings_fit<Buf>(specs: Seq<NodeSpec<Buf>>) -> bool {
    forall|i: int| 0 <= i < specs.len() ==> (bindings_check(
        (#[trigger] specs[i]).shader.layout@,
        specs[i].bindings@,
    ) is Ok)
}

/// The backend's size check can pass dispatch `spec`, and its bindings fit.
pub open spec fn spec_passes<N: Node, Buf>(spec: NodeSpec<Buf>) -> bool {
    &&& exists|w: Result<(), String>| #[trigger] call_ensures(N::validate_workgroups, (spec.workgroups,), w) && w is Ok
    &&& bindings_check(spec.shader.layout@, spec.bindings@) is Ok
}

/// Validating dispatch `spec` can refuse it with message `m`.
pub open spec fn validation_refused<N: Node, Buf>(spec: NodeSpec<Buf>, m: String) -> bool {
    exists|w: Result<(), String>|
        #[trigger] call_ensures(N::validate_workgroups, (spec.workgroups,), w) && validation_outcome(
            spec,
            w,
            Err::<bool, String>(m),
        )
}

/// The refusal `m` that the accesses `acc` of `specs` earn on a graph of
/// device `owner`: the first access to a buffer of another device; else,
/// when every buffer is the device's, the first unordered double write.
pub open spec fn access_refusal<Buf>(specs: Seq<NodeSpec<Buf>>, acc: Seq<BufferAccess>, owner: DeviceId, m: String) -> bool {
    ||| exists|k: int|
        0 <= k < acc.len() && (#[trigger] acc[k]).owner != owner && (forall|t: int|
            0 <= t < k ==> (#[trigger] acc[t]).owner == owner) && m@ == ownership_text(
            acc[k].dispatch,
            specs[acc[k].dispatch as int].shader.name@,
            acc[k].slot,
            acc[k].owner,
            owner,
        )
    ||| (forall|k: int| 0 <= k < acc.len() ==> (#[trigger] acc[k]).owner == owner) && exists|k: int|
        0 <= k < acc.len() && #[trigger] hazard_at(acc, k) && (forall|t: int| 0 <= t < k ==> !hazard_at(acc, t))
            && m@ == hazard_text(acc[k].dispatch, last_writes(acc, k)[acc[k].buffer.0])
}

/// Backend `ctx` was handed the nodes of segment `seg`: streamed through
/// `execute`, or replayed through `execute_captured` under the segment's
/// key.
pub open spec fn segment_ran<B: Backend>(ctx: B, nodes: Seq<B::Node>, seg: DispatchPlan) -> bool {
    exists|part: &[B::Node]|
        #![trigger part@]
        part@ == nodes.subrange(seg_range(seg).start as int, seg_range(seg).end as int) && match seg {
            DispatchPlan::Captured { key, .. } => call_ensures(B::execute_captured, (&ctx, key, part), ()),
            DispatchPlan::Streamed { .. } => call_ensures(B::execute, (&ctx, part), ()),
        }
}

/// A validated list of dispatches, built for one backend, with the plan
/// that says which runs of them are streamed and which are replayed from a
/// capture.
pub struct Graph<B: Backend> {
    ctx: Arc<B>,
    nodes: Vec<B::Node>,
    plan: Vec<DispatchPlan>,
}

impl<B: Backend> Graph<B> {
    #[verifier::type_invariant]
    spec fn plan_is_wf(self) -> bool {
        plan_wf(self.plan@, self.nodes@.len())
    }

    /// The plan, segment by segment.
    pub closed spec fn plan_view(&self) -> Seq<DispatchPlan> {
        self.plan@
    }

    /// Number of built dispatches.
    pub closed spec fn node_count(&self) -> nat {
        self.nodes@.len()
    }

    /// The built dispatches, in order.
    pub closed spec fn built_nodes(&self) -> Seq<B::Node> {
        self.nodes@
    }

    /// The backend the graph runs on.
    pub closed spec fn backend(&self) -> B {
        *self.ctx
    }

    /// Validates every dispatch, checks that every bound buffer lives on the
    /// backend's device and that no buffer is written twice without an
    /// order, then builds the dispatches. The graph starts with everything
    /// streamed.
    pub fn build(ctx: Arc<B>, specs: &[NodeSpec<B::Buffer>]) -> (r: Result<Self, String>)
        ensures
            !all_bindings_fit(specs@) ==> r is Err,
            specs@.len() == 0 ==> r is Ok,
            r matches Ok(g) ==> {
                &&& all_bindings_fit(specs@)
                &&& forall|i: int| 0 <= i < specs@.len() ==> spec_passes::<B::Node, B::Buffer>(#[trigger] specs@[i])
                &&& exists|acc: Seq<BufferAccess>, owner: DeviceId|
                    #![trigger accesses_read(specs@, acc), call_ensures(B::device_id, (&*ctx,), owner)]
                    accesses_read(specs@, acc) && call_ensures(B::device_id, (&*ctx,), owner) && (forall|k: int|
                        0 <= k < acc.len() ==> (#[trigger] acc[k]).owner == owner) && forall|k: int|
                        0 <= k < acc.len() ==> !hazard_at(acc, k)
                &&& g.node_count() == specs@.len()
                &&& g.plan_view() == initial_plan(specs@.len() as usize)
                &&& g.backend() == *ctx
                &&& g.built_nodes().len() == specs@.len()
                &&& forall|j: int|
                    0 <= j < specs@.len() ==> call_ensures(
                        B::build_node,
                        (&*ctx, specs@[j].shader, specs@[j].bindings, specs@[j].workgroups),
                        #[trigger] g.built_nodes()[j],
                    )
            },
            r matches Err(m) ==> (exists|i: int|
                0 <= i < specs@.len() && (forall|j: int|
                    0 <= j < i ==> spec_passes::<B::Node, B::Buffer>(#[trigger] specs@[j])) && validation_refused::<
                    B::Node,
                    B::Buffer,
                >(#[trigger] specs@[i], m)) || ((forall|i: int|
                0 <= i < specs@.len() ==> spec_passes::<B::Node, B::Buffer>(#[trigger] specs@[i])) && exists|
                acc: Seq<BufferAccess>,
                owner: DeviceId,
            |
                #![trigger accesses_read(specs@, acc), call_ensures(B::device_id, (&*ctx,), owner)]
                accesses_read(specs@, acc) && call_ensures(B::device_id, (&*ctx,), owner) && access_refusal(
                    specs@,
                    acc,
                    owner,
                    m,
                )),
    {
        let mut i: usize = 0;
        while i < specs.len()
            invariant
                i <= specs@.len(),
                forall|t: int| 0 <= t < i ==> spec_passes::<B::Node, B::Buffer>(#[trigger] specs@[t]),
            decreases specs@.len() - i,
        {
            let checked = validate_spec::<B::Node, B::Buffer>(&specs[i]);
            let ghost w = choose|w: Result<(), String>|
                call_ensures(B::Node::validate_workgroups, (specs@[i as int].workgroups,), w) && #[trigger] validation_outcome(
                    specs@[i as int],
                    w,
                    checked,
                );
            match checked {
                Ok(_) => {
                    proof {
                        assert(call_ensures(B::Node::validate_workgroups, (specs@[i as int].workgroups,), w) && w is Ok);
                        assert(spec_passes::<B::Node, B::Buffer>(specs@[i as int]));
                    }
                },
                Err(e) => {
                    proof {
                        assert(validation_refused::<B::Node, B::Buffer>(specs@[i as int], e));
                    }
                    return Err(e);
                },
            }
            i = i + 1;
        }
        proof {
            assert forall|t: int| 0 <= t < specs@.len() implies (bindings_check(
                (#[trigger] specs@[t]).shader.layout@,
                specs@[t].bindings@,
            ) is Ok) by {
                assert(spec_passes::<B::Node, B::Buffer>(specs@[t]));
            }
        }
        let acc = collect_accesses(specs);
        let owner = ctx.device_id();
        proof {
            assert(call_ensures(B::device_id, (&*ctx,), owner));
        }
        match find_foreign(acc.as_slice(), owner) {
            Some(k) => {
                let a = acc[k];
                proof {
                    lemma_binding_shapes_dispatch(specs@);
                    assert(binding_shapes(specs@)[k as int].0 < specs@.len());
                }
                let m = ownership_message(a.dispatch, specs[a.dispatch].shader.name, a.slot, a.owner, owner);
                proof {
                    assert(acc@[k as int].owner != owner);
                    assert(access_refusal(specs@, acc@, owner, m));
                }
                return Err(m);
            },
            None => {},
        }
        match find_hazard(acc.as_slice()) {
            Some((d, prev)) => {
                let m = hazard_message(d, prev);
                proof {
                    let k = choose|k: int|
                        0 <= k < acc@.len() && hazard_at(acc@, k) && (forall|t: int| 0 <= t < k ==> !hazard_at(acc@, t))
                            && d == acc@[k].dispatch && prev == last_writes(acc@, k)[acc@[k].buffer.0];
                    assert(hazard_at(acc@, k));
                    assert(access_refusal(specs@, acc@, owner, m));
                }
                return Err(m);
            },
            None => {},
        }
        let mut nodes: Vec<B::Node> = Vec::new();
        let mut j: usize = 0;
        while j < specs.len()
            invariant
                j <= specs@.len(),
                nodes@.len() == j,
                forall|t: int|
                    0 <= t < j ==> call_ensures(
                        B::build_node,
                        (&*ctx, specs@[t].shader, specs@[t].bindings, specs@[t].workgroups),
                        #[trigger] nodes@[t],
                    ),
            decreases specs@.len() - j,
        {
            let s = &specs[j];
            let node = ctx.build_node(s.shader, s.bindings, s.workgroups);
            nodes.push(node);
            j = j + 1;
        }
        let mut plan: Vec<DispatchPlan> = Vec::new();
        plan.push(DispatchPlan::Streamed { nodes: Range { start: 0, end: nodes.len() } });
        proof {
            lemma_initial_plan_wf(nodes@.len() as usize);
            assert(plan@ =~= initial_plan(nodes@.len() as usize));
        }
        Ok(Graph { ctx, nodes, plan })
    }

    /// Runs the graph: each segment of the plan, in order, streamed or
    /// replayed from its capture.
    pub fn run(&self)
        ensures
            forall|i: int|
                0 <= i < self.plan_view().len() ==> segment_ran(
                    self.backend(),
                    self.built_nodes(),
                    #[trigger] self.plan_view()[i],
                ),
    {
        proof {
            use_type_invariant(self);
        }
        let mut i: usize = 0;
        while i < self.plan.len()
            invariant
                i <= self.plan@.len(),
                plan_wf(self.plan@, self.nodes@.len()),
                forall|t: int| 0 <= t < i ==> segment_ran(*self.ctx, self.nodes@, #[trigger] self.plan@[t]),
            decreases self.plan@.len() - i,
        {
            match &self.plan[i] {
                DispatchPlan::Streamed { nodes } => {
                    let part = vstd::slice::slice_subrange(self.nodes.as_slice(), nodes.start, nodes.end);
                    self.ctx.execute(part);
                    proof {
                        assert(call_ensures(B::execute, (&*self.ctx, part), ()));
                    }
                },
                DispatchPlan::Captured { key, nodes } => {
                    let part = vstd::slice::slice_subrange(self.nodes.as_slice(), nodes.start, nodes.end);
                    self.ctx.execute_captured(*key, part);
                    proof {
                        assert(call_ensures(B::execute_captured, (&*self.ctx, *key, part), ()));
                    }
                },
            }
            proof {
                assert(segment_ran(*self.ctx, self.nodes@, self.plan@[i as int]));
            }
            i = i + 1;
        }
    }

    /// Replays the streamed nodes inside `range` from a capture kept under
    /// `key` from now on: each streamed segment that overlaps `range` is
    /// split around the overlap.
    pub fn capture(&mut self, key: usize, range: Range<usize>)
        ensures
            final(self).plan_view() == capture_plan(old(self).plan_view(), key, range),
            final(self).node_count() == old(self).node_count(),
            final(self).built_nodes() == old(self).built_nodes(),
            final(self).backend() == old(self).backend(),
    {
        proof {
            use_type_invariant(&*self);
        }
        let ghost old_plan = self.plan@;
        let mut new_plan: Vec<DispatchPlan> = Vec::new();
        let mut i: usize = 0;
        while i < self.plan.len()
            invariant
                i <= self.plan@.len(),
                self.plan@ == old_plan,
                new_plan@ == capture_plan(old_plan.take(i as int), key, range),
            decreases self.plan@.len() - i,
        {
            proof {
                assert(old_plan.take(i + 1).drop_last() =~= old_plan.take(i as int));
            }
            match &self.plan[i] {
                DispatchPlan::Streamed { nodes } => {
                    let lo = if nodes.start >= range.start { nodes.start } else { range.start };
                    let hi = if nodes.end <= range.end { nodes.end } else { range.end };
                    if lo >= hi {
                        new_plan.push(DispatchPlan::Streamed { nodes: Range { start: nodes.start, end: nodes.end } });
                    } else {
                        if nodes.start < lo {
                            new_plan.push(DispatchPlan::Streamed { nodes: Range { start: nodes.start, end: lo } });
                        }
                        new_plan.push(DispatchPlan::Captured { key, nodes: Range { start: lo, end: hi } });
                        if hi < nodes.end {
                            new_plan.push(DispatchPlan::Streamed { nodes: Range { start: hi, end: nodes.end } });
                        }
                    }
                },
                DispatchPlan::Captured { key: k, nodes } => {
                    new_plan.push(DispatchPlan::Captured { key: *k, nodes: Range { start: nodes.start, end: nodes.end } });
                },
            }
            proof {
                let seg = old_plan[i as int];
                assert(old_plan.take(i + 1).last() == seg);
                assert(new_plan@ =~= capture_plan(old_plan.take(i as int), key, range) + split_segment(seg, key, range));
            }
            i = i + 1;
        }
        proof {
            assert(old_plan.take(old_plan.len() as int) =~= old_plan);
            lemma_capture_keeps_wf(old_plan, key, range, self.nodes@.len());
        }
        self.plan = new_plan;
    }

    /// The plan, segment by segment.
    pub fn plan(&self) -> (r: &[DispatchPlan])
        ensures
            r@ == self.plan_view(),
    {
        self.plan.as_slice()
    }
}

} // verus!
