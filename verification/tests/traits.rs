use std::sync::{Arc as StdArc, Mutex};

use wilupgu::backends::{CpuBinding, CpuKernelFn};

use wilupgu::backends::BackendDispatch;
use wilupgu::id::{GlobalId, IdSource};
use wilupgu::mesh::Parallelity;
use wilupgu::traits::{
    finish_validation, validate_spec, Area, Areable, Binding, BindingRole, Buffer, BufferId, DataKind, Device, DeviceId,
    Dispatch, DispatchPlan, Graph, MetaField, MetaKind, Node, NodeSpec, Shader, SizeTag, Storage,
    SupportsCarve, SupportsDType, TensorSize, TensorSpecId, Topology, Workgroups, F32,
};

#[derive(Clone)]
struct ToyBuffer(StdArc<Mutex<Vec<u8>>>, DeviceId);
impl ToyBuffer {
    fn new(owner: DeviceId, bytes: usize) -> Self {
        Self(StdArc::new(Mutex::new(vec![0u8; bytes])), owner)
    }
}
impl Buffer for ToyBuffer {
    fn size_bytes(&self) -> u64 {
        self.0.lock().unwrap().len() as u64
    }
    fn is_sole_owner(&self) -> bool {
        StdArc::strong_count(&self.0) == 1
    }
    fn id(&self) -> BufferId {
        BufferId(StdArc::as_ptr(&self.0) as u64)
    }
    fn owner(&self) -> DeviceId {
        self.1
    }
}

static NO_ROLES: [BindingRole; 0] = [];
static NO_DISPATCH: [BackendDispatch; 0] = [];

static TOY_SHADER: Shader = Shader {
    name: "Toy",
    layout: &NO_ROLES,
    dispatch: &NO_DISPATCH,
};

#[derive(Clone)]
struct ToyNode;
impl Node for ToyNode {
    fn shader(&self) -> &'static Shader {
        &TOY_SHADER
    }
    fn workgroups(&self) -> Workgroups {
        Workgroups::linear(1)
    }
}

struct ToyBackend(u64);
impl Storage for ToyBackend {
    type Buffer = ToyBuffer;
    fn device_id(&self) -> DeviceId {
        DeviceId(self.0)
    }
    fn drop_buffer(&self, _buf: Self::Buffer) {}
}
impl Dispatch for ToyBackend {
    type Node = ToyNode;
    fn build_node(&self, _s: &'static Shader, _b: &[Binding<Self::Buffer>], _wg: Workgroups) -> Self::Node {
        ToyNode
    }
    fn execute(&self, _nodes: &[Self::Node]) {}
    fn synchronize(&self) {}
}

// ToyBackend never overrides execute_captured/release_captured --
// exercises Dispatch's default (runtime-fallback) bodies.

// ToyBackend only ever implements SupportsDType<F32> -- on purpose.
// Host words of F32 are carried as their bit patterns.
impl SupportsDType<F32> for ToyBackend {
    fn allocate(&self, elem_count: usize) -> Self::Buffer {
        ToyBuffer::new(self.device_id(), elem_count * 4)
    }
    fn upload(&self, buf: &Self::Buffer, data: &[u32]) {
        *buf.0.lock().unwrap() = bytemuck::cast_slice(data).to_vec();
    }
    fn download(&self, buf: &Self::Buffer) -> Vec<u32> {
        bytemuck::pod_collect_to_vec(&buf.0.lock().unwrap())
    }
}

#[derive(Clone, Debug)]
struct ToyDevice(u32);

impl Device for ToyDevice {
    fn label(&self) -> String {
        format!("toy-device-{}", self.0)
    }
    fn total_memory_bytes(&self) -> u64 {
        1024
    }
}

impl Topology for ToyBackend {
    type Device = ToyDevice;
    fn choosable_devices() -> Vec<Self::Device> {
        vec![ToyDevice(0), ToyDevice(1)]
    }
    fn attach(device: Self::Device) -> Result<Self, String> {
        Ok(ToyBackend(device.0 as u64))
    }
    fn name(&self) -> &'static str {
        "toy"
    }
}

#[test]
fn topology_enumerate_then_attach() {
    let devices = ToyBackend::choosable_devices();
    assert_eq!(devices.len(), 2);
    let backend = ToyBackend::attach(devices[0].clone()).unwrap();
    assert_eq!(backend.name(), "toy");
}

struct ToyArea;

impl Area for ToyArea {
    fn size_bytes(&self) -> u64 {
        1024
    }
    fn remaining_bytes(&self) -> u64 {
        1024
    }
}

impl Areable for ToyBackend {
    type Area = ToyArea;
    fn reserve(&self, _total_bytes: u64) -> Self::Area {
        ToyArea
    }
    fn release(&self, _area: Self::Area) {}
}

impl SupportsCarve<F32> for ToyBackend {
    fn carve(&self, _area: &mut Self::Area, elem_count: usize) -> Self::Buffer {
        ToyBuffer::new(self.device_id(), elem_count * 4)
    }
}

#[test]
fn carve_from_area() {
    let ctx = StdArc::new(ToyBackend(0));
    let mut area = ctx.reserve(1024);
    let buf = ctx.carve(&mut area, 4);
    assert_eq!(buf.size_bytes(), 16);
    ctx.release(area);
}

static COPY_ROLES: [BindingRole; 2] = [BindingRole::Input(DataKind::F32), BindingRole::Output(DataKind::F32)];

static COPY_SHADER: Shader = Shader {
    name: "Copy",
    layout: &COPY_ROLES,
    dispatch: &NO_DISPATCH,
};

static UINT_FIELD: [MetaField; 1] = [MetaField::Uint];

static META_ROLES: [BindingRole; 1] = [BindingRole::Meta {
    fields: &UINT_FIELD,
    kind: MetaKind::Static, // a shader's declared kind is irrelevant to `accepts`
}];

static META_SHADER: Shader = Shader {
    name: "MetaEcho",
    layout: &META_ROLES,
    dispatch: &NO_DISPATCH,
};

fn node_spec<'a>(
    ids: &mut IdSource,
    shader: &'static Shader,
    bindings: &'a [Binding<'a, ToyBuffer>],
) -> NodeSpec<'a, ToyBuffer> {
    NodeSpec {
        id: GlobalId::new(ids),
        shader,
        bindings,
        workgroups: Workgroups::linear(1),
        parallelity: Parallelity::Data,
    }
}

#[test]
fn maximized_meta_is_not_flagged_dynamic() {
    let mut ids = IdSource::new();
    let m = ToyBuffer::new(DeviceId(0), 4);
    let bindings = [Binding::new(
        0,
        &m,
        BindingRole::Meta {
            fields: &UINT_FIELD,
            kind: MetaKind::Maximized(SizeTag("batch_size".to_string())),
        },
    )];
    let spec = node_spec(&mut ids, &META_SHADER, &bindings);
    let has_dynamic_meta = validate_spec::<ToyNode, _>(&spec).unwrap();
    assert!(!has_dynamic_meta, "Maximized must not be treated as Dynamic");
}

#[test]
fn graph_build_and_run() {
    let mut ids = IdSource::new();
    let ctx = StdArc::new(ToyBackend(0));
    let a = ToyBuffer::new(DeviceId(0), 4);
    let b = ToyBuffer::new(DeviceId(0), 4);
    let bindings = [
        Binding::new(0, &a, BindingRole::Input(DataKind::F32)),
        Binding::new(1, &b, BindingRole::Output(DataKind::F32)),
    ];
    let specs = [node_spec(&mut ids, &COPY_SHADER, &bindings)];
    let graph = Graph::build(ctx, &specs).unwrap();
    graph.run();
}

#[test]
fn graph_capture_falls_back_to_execute() {
    let mut ids = IdSource::new();
    let ctx = StdArc::new(ToyBackend(0));
    let a = ToyBuffer::new(DeviceId(0), 4);
    let b = ToyBuffer::new(DeviceId(0), 4);
    let bindings = [
        Binding::new(0, &a, BindingRole::Input(DataKind::F32)),
        Binding::new(1, &b, BindingRole::Output(DataKind::F32)),
    ];
    let specs = [node_spec(&mut ids, &COPY_SHADER, &bindings)];
    let mut graph = Graph::build(ctx, &specs).unwrap();
    graph.capture(7, 0..1);
    assert!(matches!(graph.plan(), [DispatchPlan::Captured { key: 7, .. }]));
    graph.run(); // ToyBackend has no real capture support, runs via the default fallback
}

#[test]
fn graph_build_rejects_unordered_double_write() {
    let mut ids = IdSource::new();
    let ctx = StdArc::new(ToyBackend(0));
    let a = ToyBuffer::new(DeviceId(0), 4);
    let b = ToyBuffer::new(DeviceId(0), 4);
    let bindings1 = [
        Binding::new(0, &a, BindingRole::Input(DataKind::F32)),
        Binding::new(1, &b, BindingRole::Output(DataKind::F32)),
    ];
    let bindings2 = [
        Binding::new(0, &a, BindingRole::Input(DataKind::F32)),
        Binding::new(1, &b, BindingRole::Output(DataKind::F32)),
    ];
    let specs = [
        node_spec(&mut ids, &COPY_SHADER, &bindings1),
        node_spec(&mut ids, &COPY_SHADER, &bindings2),
    ];
    let err = Graph::build(ctx, &specs).err().unwrap();
    assert!(err.contains("Buffer hazard"), "unexpected error: {err}");
}

#[test]
fn graph_build_rejects_foreign_buffer() {
    let mut ids = IdSource::new();
    let ctx = StdArc::new(ToyBackend(0));
    let a = ToyBuffer::new(DeviceId(0), 4);
    let b = ToyBuffer::new(DeviceId(1), 4); // allocated on a different "device"
    let bindings = [
        Binding::new(0, &a, BindingRole::Input(DataKind::F32)),
        Binding::new(1, &b, BindingRole::Output(DataKind::F32)),
    ];
    let specs = [node_spec(&mut ids, &COPY_SHADER, &bindings)];
    let err = Graph::build(ctx, &specs).err().unwrap();
    assert!(err.contains("Buffer ownership mismatch"), "unexpected error: {err}");
}

#[test]
fn tensor_spec_id_is_unique() {
    let mut ids = IdSource::new();
    let a = TensorSpecId::next(&mut ids);
    let b = TensorSpecId::next(&mut ids);
    assert_ne!(a, b);
}

#[test]
fn tensor_size_variants_construct() {
    let fixed = TensorSize::Fixed(128);
    let max = TensorSize::Maximize {
        tag: SizeTag("batch_size".to_string()),
        multiplier: 64,
        coefficient: 1,
    };
    let part = TensorSize::Partition {
        tag: SizeTag("rows".to_string()),
        multiplier: 64,
        coefficient: 1,
    };
    assert!(matches!(fixed, TensorSize::Fixed(128)));
    assert!(matches!(max, TensorSize::Maximize { .. }));
    assert!(matches!(part, TensorSize::Partition { .. }));
}

#[test]
fn graph_of_no_dispatches_builds() {
    let ctx = StdArc::new(ToyBackend(0));
    let specs: [NodeSpec<ToyBuffer>; 0] = [];
    let graph = Graph::build(ctx, &specs).unwrap();
    graph.run();
}

#[test]
fn validation_after_the_size_check() {
    let mut ids = IdSource::new();
    let a = ToyBuffer::new(DeviceId(0), 4);
    let b = ToyBuffer::new(DeviceId(0), 4);
    let good = [
        Binding::new(0, &a, BindingRole::Input(DataKind::F32)),
        Binding::new(1, &b, BindingRole::Output(DataKind::F32)),
    ];
    let spec = node_spec(&mut ids, &COPY_SHADER, &good);
    assert_eq!(finish_validation(&spec, Ok(())), Ok(false));
    let refused = finish_validation(&spec, Err("too big".to_string())).unwrap_err();
    assert!(refused.ends_with(": too big"));

    let bad = [Binding::new(0, &a, BindingRole::Input(DataKind::F32))];
    let spec = node_spec(&mut ids, &COPY_SHADER, &bad);
    let missing = finish_validation(&spec, Ok(())).unwrap_err();
    assert!(missing.starts_with("Tensor Mode Mismatch"));
}

#[derive(Clone)]
struct SmallNode;
impl Node for SmallNode {
    const MAX_WORKGROUPS_PER_DIM: u32 = 4;
    fn shader(&self) -> &'static Shader {
        &TOY_SHADER
    }
    fn workgroups(&self) -> Workgroups {
        Workgroups::linear(1)
    }
}

#[test]
fn refusal_messages_are_exact() {
    let mut ids = IdSource::new();
    let a = ToyBuffer::new(DeviceId(0), 4);
    let b = ToyBuffer::new(DeviceId(0), 4);
    let c = ToyBuffer::new(DeviceId(1), 4);

    let big = NodeSpec {
        id: GlobalId::new(&mut ids),
        shader: &COPY_SHADER,
        bindings: &[],
        workgroups: Workgroups { x: 5, y: 1, z: 2 },
        parallelity: Parallelity::Data,
    };
    assert_eq!(
        validate_spec::<SmallNode, ToyBuffer>(&big).unwrap_err(),
        "kernel `Copy`: workgroup count Workgroups { x: 5, y: 1, z: 2 } exceeds this backend's limit of 4 per dimension"
    );

    let far = [Binding::new(3, &a, BindingRole::Input(DataKind::F32))];
    assert_eq!(
        validate_spec::<ToyNode, ToyBuffer>(&node_spec(&mut ids, &COPY_SHADER, &far)).unwrap_err(),
        "Tensor Mode Mismatch: kernel `Copy` binding slot 3 out of range (kernel expects 2 bindings)"
    );
    let one = [Binding::new(0, &a, BindingRole::Input(DataKind::F32))];
    assert_eq!(
        validate_spec::<ToyNode, ToyBuffer>(&node_spec(&mut ids, &COPY_SHADER, &one)).unwrap_err(),
        "Tensor Mode Mismatch: kernel `Copy` expects 2 binding(s), only 1 were supplied"
    );

    let twice = [
        Binding::new(0, &a, BindingRole::Input(DataKind::F32)),
        Binding::new(1, &b, BindingRole::Output(DataKind::F32)),
    ];
    let specs = [
        node_spec(&mut ids, &COPY_SHADER, &twice),
        node_spec(&mut ids, &COPY_SHADER, &twice),
    ];
    assert_eq!(
        Graph::build(StdArc::new(ToyBackend(0)), &specs).err().unwrap(),
        "Buffer hazard: dispatch 1 writes a buffer already written by dispatch 0 with nothing establishing their order"
    );

    let foreign = [
        Binding::new(0, &a, BindingRole::Input(DataKind::F32)),
        Binding::new(1, &c, BindingRole::Output(DataKind::F32)),
    ];
    let specs = [node_spec(&mut ids, &COPY_SHADER, &foreign)];
    assert_eq!(
        Graph::build(StdArc::new(ToyBackend(0)), &specs).err().unwrap(),
        "Buffer ownership mismatch: dispatch 0 (kernel `Copy`) binding slot 1 belongs to device DeviceId(1), but this Graph runs on DeviceId(0)"
    );
}

fn double_first_byte(bindings: &[CpuBinding]) {
    let mut buf = bindings[0].buffer.lock().unwrap();
    buf[0] *= 2;
}

static OWN_CPU_DISPATCH: [BackendDispatch; 2] = [
    BackendDispatch::Cpu(&double_first_byte),
    BackendDispatch::Rayon(&double_first_byte),
];

static OWN_KERNEL: Shader = Shader {
    name: "Double",
    layout: &COPY_ROLES,
    dispatch: &OWN_CPU_DISPATCH,
};

#[test]
fn a_kernel_carries_its_own_cpu_function() {
    let buffer = StdArc::new(Mutex::new(vec![3u8, 1]));
    let bindings = [CpuBinding { slot: 0, buffer: buffer.clone() }];
    for dispatch in OWN_KERNEL.dispatch {
        match dispatch {
            BackendDispatch::Cpu(f) | BackendDispatch::Rayon(f) => f.run(&bindings),
            BackendDispatch::Wgpu(_) => unreachable!(),
        }
    }
    assert_eq!(*buffer.lock().unwrap(), vec![12, 1]);
}
