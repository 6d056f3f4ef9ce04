use wilupgu::backends::BackendDispatch;
use wilupgu::id::{GlobalId, IdSource};
use wilupgu::mesh::Parallelity;
use wilupgu::placement::{Placement, PlacementError, PlacementGap};
use wilupgu::traits::{BindingRole, DeviceId, NodeSpec, Shader, Workgroups};

static EMPTY_LAYOUT: [BindingRole; 0] = [];
static EMPTY_DISPATCH: [BackendDispatch; 0] = [];

static EMPTY: Shader = Shader {
    name: "Empty",
    layout: &EMPTY_LAYOUT,
    dispatch: &EMPTY_DISPATCH,
};

fn spec(ids: &mut IdSource, parallelity: Parallelity) -> NodeSpec<'static, ()> {
    NodeSpec {
        id: GlobalId::new(ids),
        shader: &EMPTY,
        bindings: &[],
        workgroups: Workgroups::linear(1),
        parallelity,
    }
}

#[test]
fn accepts_a_complete_placement() {
    let mut ids = IdSource::new();
    let specs = [spec(&mut ids, Parallelity::Data), spec(&mut ids, Parallelity::Pipeline)];
    let mut p = Placement::new();
    p.assign(&specs[0], vec![DeviceId(0), DeviceId(1)]).unwrap();
    p.assign(&specs[1], vec![DeviceId(1)]).unwrap();
    assert!(p.validate(&specs).is_ok());
}

#[test]
fn assign_rejects_no_device() {
    let mut ids = IdSource::new();
    let err = Placement::new()
        .assign(&spec(&mut ids, Parallelity::Data), vec![])
        .unwrap_err();
    assert!(err.contains("no device"), "{err}");
}

#[test]
fn assign_rejects_pipeline_on_two_devices() {
    let mut ids = IdSource::new();
    let err = Placement::new()
        .assign(&spec(&mut ids, Parallelity::Pipeline), vec![DeviceId(0), DeviceId(1)])
        .unwrap_err();
    assert!(err.contains("needs exactly 1"), "{err}");
}

#[test]
fn assign_rejects_duplicate_device() {
    let mut ids = IdSource::new();
    let err = Placement::new()
        .assign(&spec(&mut ids, Parallelity::Tensor), vec![DeviceId(0), DeviceId(0)])
        .unwrap_err();
    assert!(err.contains("twice"), "{err}");
}

#[test]
fn rejected_assign_leaves_nothing_behind() {
    let mut ids = IdSource::new();
    let s = spec(&mut ids, Parallelity::Pipeline);
    let mut p = Placement::new();
    let _ = p.assign(&s, vec![DeviceId(0), DeviceId(1)]);
    assert!(p.devices(s.id).is_none());
}

#[test]
fn validate_rejects_unplaced_node() {
    let mut ids = IdSource::new();
    let specs = [spec(&mut ids, Parallelity::Data)];
    let err = Placement::new().validate(&specs).unwrap_err();
    assert!(err.contains("has no placement"), "{err}");
}

#[test]
fn validate_rejects_node_outside_the_list() {
    let mut ids = IdSource::new();
    let specs = [spec(&mut ids, Parallelity::Data)];
    let stranger = spec(&mut ids, Parallelity::Data);
    let mut p = Placement::new();
    p.assign(&specs[0], vec![DeviceId(0)]).unwrap();
    p.assign(&stranger, vec![DeviceId(0)]).unwrap();
    let err = p.validate(&specs).unwrap_err();
    assert!(err.contains("isn't in the spec list"), "{err}");
}

// ---------------------------------------------------------------------------

#[test]
fn placement_messages_name_the_node_and_kernel() {
    let mut ids = IdSource::new();
    let s = spec(&mut ids, Parallelity::Data);
    let err = Placement::new().assign(&s, vec![]).unwrap_err();
    assert_eq!(err, "node GlobalId(0) (`Empty`) is placed on no device");
    let err = Placement::new()
        .assign(&s, vec![DeviceId(2), DeviceId(3), DeviceId(2)])
        .unwrap_err();
    assert_eq!(err, "node GlobalId(0) (`Empty`) lists device DeviceId(2) twice");
    let p = spec(&mut ids, Parallelity::Pipeline);
    let err = Placement::new()
        .assign(&p, vec![DeviceId(0), DeviceId(1), DeviceId(2)])
        .unwrap_err();
    assert_eq!(
        err,
        "node GlobalId(1) (`Empty`) is Pipeline but placed on 3 devices, needs exactly 1"
    );
}

#[test]
fn checked_errors_are_exact() {
    let mut ids = IdSource::new();
    let a = spec(&mut ids, Parallelity::Tensor);
    let b = spec(&mut ids, Parallelity::Data);
    let mut p = Placement::new();
    assert_eq!(p.assign_checked(&a, vec![]), Err(PlacementError::NoDevice));
    assert_eq!(
        p.assign_checked(&a, vec![DeviceId(1), DeviceId(4), DeviceId(4), DeviceId(1)]),
        Err(PlacementError::DuplicateDevice { device: DeviceId(4) })
    );
    let pipe = spec(&mut ids, Parallelity::Pipeline);
    assert_eq!(
        p.assign_checked(&pipe, vec![DeviceId(0), DeviceId(1)]),
        Err(PlacementError::PipelineNeedsOne { count: 2 })
    );
    assert_eq!(p.assign_checked(&pipe, vec![DeviceId(7)]), Ok(()));
    assert_eq!(p.devices(pipe.id), Some(&[DeviceId(7)][..]));
    let specs = [a, b];
    assert_eq!(p.validate_checked(&specs), Err(PlacementGap::Unplaced { index: 0 }));
}

#[test]
fn reassigning_a_node_replaces_its_devices() {
    let mut ids = IdSource::new();
    let s = spec(&mut ids, Parallelity::Data);
    let mut p = Placement::new();
    p.assign(&s, vec![DeviceId(0)]).unwrap();
    p.assign(&s, vec![DeviceId(1), DeviceId(2)]).unwrap();
    assert_eq!(p.devices(s.id), Some(&[DeviceId(1), DeviceId(2)][..]));
    assert!(p.validate(&[s]).is_ok());
}

#[test]
fn ids_from_one_source_are_distinct() {
    let mut ids = IdSource::new();
    let a = GlobalId::new(&mut ids);
    let b = GlobalId::new(&mut ids);
    assert_ne!(a, b);
    assert_eq!(a.raw() + 1, b.raw());
}

#[test]
fn validate_messages_are_exact() {
    let mut ids = IdSource::new();
    let specs = [spec(&mut ids, Parallelity::Data)];
    assert_eq!(
        Placement::new().validate(&specs).unwrap_err(),
        "node GlobalId(0) (`Empty`) has no placement"
    );
    let stranger = spec(&mut ids, Parallelity::Data);
    let mut p = Placement::new();
    p.assign(&specs[0], vec![DeviceId(0)]).unwrap();
    p.assign(&stranger, vec![DeviceId(0)]).unwrap();
    assert_eq!(
        p.validate(&specs).unwrap_err(),
        "placement names node GlobalId(1), which isn't in the spec list"
    );
}
