use vstd::prelude::*;
use std::collections::HashMap;

use crate::id::GlobalId;
use crate::mesh::Parallelity;
use crate::text::decimal;
use crate::traits::{device_debug, DeviceId, NodeSpec};

verus! {

broadcast use vstd::std_specs::hash::group_hash_axioms;

/// Why a node cannot be placed on the devices given for it.
#[derive(Debug, Clone, Copy, PartialEq, Eq, Structural)]
pub enum PlacementError {
    /// The device list is empty.
    NoDevice,
    /// `device` appears more than once in the list.
    DuplicateDevice { device: DeviceId },
    /// A pipeline stage runs on exactly one device; `count` were given.
    PipelineNeedsOne { count: usize },
}

/// Why a placement does not match a list of node specs.
#[derive(Debug, Clone, Copy, PartialEq, Eq, Structural)]
pub enum PlacementGap {
    /// The spec at this index has no placement.
    Unplaced { index: usize },
    /// The placement names this node, which no spec has.
    Stranger { node: GlobalId },
}

/// Device `j` of the list already appears before it.
pub open spec fn repeats_earlier(devs: Seq<DeviceId>, j: int) -> bool {
    exists|i: int| 0 <= i < j && devs[i] == devs[j]
}

/// What checking a device list for a node gives.
pub open spec fn placement_check(parallelity: Parallelity, devs: Seq<DeviceId>) -> Result<(), PlacementError> {
    if devs.len() == 0 {
        Err(PlacementError::NoDevice)
    } else if exists|j: int| 0 <= j < devs.len() && #[trigger] repeats_earlier(devs, j) {
        let j = choose|j: int|
            0 <= j < devs.len() && #[trigger] repeats_earlier(devs, j) && forall|k: int|
                0 <= k < j ==> !#[trigger] repeats_earlier(devs, k);
        Err(PlacementError::DuplicateDevice { device: devs[j] })
    } else if parallelity == Parallelity::Pipeline && devs.len() != 1 {
        Err(PlacementError::PipelineNeedsOne { count: devs.len() as usize })
    } else {
        Ok(())
    }
}

/// A device list that every placed node has: non-empty, each device once.
pub open spec fn devices_ok(devs: Seq<DeviceId>) -> bool {
    devs.len() > 0 && forall|j: int| 0 <= j < devs.len() ==> !#[trigger] repeats_earlier(devs, j)
}

proof fn lemma_first_repeat(devs: Seq<DeviceId>, j: int)
    requires
        0 <= j < devs.len(),
        repeats_earlier(devs, j),
    ensures
        exists|j0: int|
            0 <= j0 < devs.len() && #[trigger] repeats_earlier(devs, j0) && forall|k: int|
                0 <= k < j0 ==> !#[trigger] repeats_earlier(devs, k),
    decreases j,
{
    if exists|k: int| 0 <= k < j && #[trigger] repeats_earlier(devs, k) {
        let k = choose|k: int| 0 <= k < j && #[trigger] repeats_earlier(devs, k);
        lemma_first_repeat(devs, k);
    }
}

/// Only a pipeline stage is held to one device: a node of any other
/// parallelity is accepted on every non-empty list of distinct devices,
/// and a pipeline stage on every list of exactly one device.
pub proof fn lemma_distinct_devices_accepted(parallelity: Parallelity, devs: Seq<DeviceId>)
    requires
        devs.len() > 0,
        forall|i: int, j: int| 0 <= i < j < devs.len() ==> devs[i] != devs[j],
        parallelity == Parallelity::Pipeline ==> devs.len() == 1,
    ensures
        placement_check(parallelity, devs) is Ok,
{
    assert forall|j: int| 0 <= j < devs.len() implies !#[trigger] repeats_earlier(devs, j) by {
        if repeats_earlier(devs, j) {
            let i = choose|i: int| 0 <= i < j && devs[i] == devs[j];
            assert(devs[i] != devs[j]);
        }
    }
}

/// A list is refused exactly when it is empty, names a device twice, or
/// puts a pipeline stage on other than one device.
pub proof fn lemma_refused_lists(parallelity: Parallelity, devs: Seq<DeviceId>)
    ensures
        placement_check(parallelity, devs) is Err <==> (devs.len() == 0 || (exists|i: int, j: int|
            0 <= i < j < devs.len() && devs[i] == devs[j]) || (parallelity == Parallelity::Pipeline && devs.len()
            != 1)),
{
    if exists|i: int, j: int| 0 <= i < j < devs.len() && devs[i] == devs[j] {
        let (i, j) = choose|i: int, j: int| 0 <= i < j < devs.len() && devs[i] == devs[j];
        assert(repeats_earlier(devs, j));
    }
    if devs.len() > 0 && !(exists|i: int, j: int| 0 <= i < j < devs.len() && devs[i] == devs[j]) && !(parallelity
        == Parallelity::Pipeline && devs.len() != 1) {
        lemma_distinct_devices_accepted(parallelity, devs);
    }
}

/// Which devices each node of a mesh runs on.
#[derive(Debug, Clone)]
pub struct Placement {
    nodes: HashMap<u64, Vec<DeviceId>>,
    /// The placed nodes, in the order they were first placed.
    order: Vec<GlobalId>,
}

impl Placement {
    /// Each placed node, by identity, with its devices.
    pub closed spec fn placed(&self) -> Map<u64, Seq<DeviceId>> {
        self.nodes@.map_values(|v: Vec<DeviceId>| v@)
    }

    /// Every placed node has a non-empty list of distinct devices, and the
    /// record of placement order lists exactly the placed nodes.
    pub closed spec fn wf(&self) -> bool {
        &&& forall|k: u64| #[trigger] self.placed().contains_key(k) ==> devices_ok(self.placed()[k])
        &&& forall|k: u64| #[trigger] self.placed().contains_key(k) ==> exists|u: int|
            0 <= u < self.order@.len() && (#[trigger] self.order@[u])@ == k
        &&& forall|u: int| 0 <= u < self.order@.len() ==> self.placed().contains_key((#[trigger] self.order@[u])@)
    }

    /// Every placed node has a non-empty list of distinct devices.
    pub proof fn lemma_placed_devices_ok(&self, k: u64)
        requires
            self.wf(),
            self.placed().contains_key(k),
        ensures
            devices_ok(self.placed()[k]),
    {
    }

    pub fn new() -> (p: Self)
        ensures
            p.placed() == Map::<u64, Seq<DeviceId>>::empty(),
            p.wf(),
    {
        let p = Placement { nodes: HashMap::new(), order: Vec::new() };
        assert(p.placed() =~= Map::<u64, Seq<DeviceId>>::empty());
        p
    }

    /// Places `node` on `devices`, after checking the list: it must be
    /// non-empty, name each device once, and name exactly one device for a
    /// pipeline stage. A refused list leaves the placement as it was.
    pub fn assign_checked<Buf>(&mut self, node: &NodeSpec<Buf>, devices: Vec<DeviceId>) -> (r: Result<(), PlacementError>)
        requires
            old(self).wf(),
        ensures
            final(self).wf(),
            r == placement_check(node.parallelity, devices@),
            r is Ok ==> final(self).placed() == old(self).placed().insert(node.id@, devices@),
            r is Err ==> final(self).placed() == old(self).placed(),
    {
        if devices.len() == 0 {
            return Err(PlacementError::NoDevice);
        }
        let mut j: usize = 0;
        while j < devices.len()
            invariant
                old(self).wf(),
                j <= devices@.len(),
                devices@.len() > 0,
                forall|k: int| 0 <= k < j ==> !#[trigger] repeats_earlier(devices@, k),
            decreases devices@.len() - j,
        {
            let mut i: usize = 0;
            while i < j
                invariant
                    old(self).wf(),
                    i <= j < devices@.len(),
                    forall|k: int| 0 <= k < j ==> !#[trigger] repeats_earlier(devices@, k),
                    forall|t: int| 0 <= t < i ==> devices@[t] != devices@[j as int],
                decreases j - i,
            {
                if devices[i] == devices[j] {
                    proof {
                        assert(repeats_earlier(devices@, j as int));
                        lemma_first_repeat(devices@, j as int);
                        let j0 = choose|j0: int|
                            0 <= j0 < devices@.len() && #[trigger] repeats_earlier(devices@, j0) && forall|k: int|
                                0 <= k < j0 ==> !#[trigger] repeats_earlier(devices@, k);
                        assert(j0 == j);
                    }
                    return Err(PlacementError::DuplicateDevice { device: devices[j] });
                }
                i = i + 1;
            }
            j = j + 1;
        }
        if node.parallelity == Parallelity::Pipeline && devices.len() != 1 {
            return Err(PlacementError::PipelineNeedsOne { count: devices.len() });
        }
        let ghost devs = devices@;
        let fresh = !self.nodes.contains_key(&node.id.raw());
        self.nodes.insert(node.id.raw(), devices);
        if fresh {
            self.order.push(node.id);
        }
        proof {
            assert(self.placed() =~= old(self).placed().insert(node.id@, devs));
            assert forall|k: u64| #[trigger] self.placed().contains_key(k) implies devices_ok(self.placed()[k]) by {
                if k != node.id@ {
                    assert(old(self).placed().contains_key(k));
                }
            }
            assert forall|k: u64| #[trigger] self.placed().contains_key(k) implies exists|u: int|
                0 <= u < self.order@.len() && (#[trigger] self.order@[u])@ == k by {
                if k == node.id@ {
                    if fresh {
                        assert(self.order@[self.order@.len() - 1]@ == k);
                    } else {
                        assert(old(self).placed().contains_key(k));
                        let u = choose|u: int| 0 <= u < old(self).order@.len() && (#[trigger] old(self).order@[u])@ == k;
                        assert(self.order@[u] == old(self).order@[u]);
                    }
                } else {
                    assert(old(self).placed().contains_key(k));
                    let u = choose|u: int| 0 <= u < old(self).order@.len() && (#[trigger] old(self).order@[u])@ == k;
                    assert(self.order@[u] == old(self).order@[u]);
                }
            }
            assert forall|u: int| 0 <= u < self.order@.len() implies self.placed().contains_key((#[trigger] self.order@[u])@) by {
                if u < old(self).order@.len() {
                    assert(self.order@[u] == old(self).order@[u]);
                }
            }
        }
        Ok(())
    }

    /// `assign_checked`, with the refusal described as a message.
    pub fn assign<Buf>(&mut self, node: &NodeSpec<Buf>, devices: Vec<DeviceId>) -> (r: Result<(), String>)
        requires
            old(self).wf(),
        ensures
            final(self).wf(),
            r is Ok <==> placement_check(node.parallelity, devices@) is Ok,
            r is Ok ==> final(self).placed() == old(self).placed().insert(node.id@, devices@),
            r is Err ==> final(self).placed() == old(self).placed(),
            r matches Err(m) ==> placement_check(node.parallelity, devices@) matches Err(e) && m@
                == placement_error_text(node.id@, node.shader.name@, e),
    {
        match self.assign_checked(node, devices) {
            Ok(()) => Ok(()),
            Err(PlacementError::NoDevice) => Err(no_device_message(node.id, node.shader.name)),
            Err(PlacementError::DuplicateDevice { device }) => Err(
                duplicate_device_message(node.id, node.shader.name, device),
            ),
            Err(PlacementError::PipelineNeedsOne { count }) => Err(
                pipeline_message(node.id, node.shader.name, count),
            ),
        }
    }

    /// The devices `node` is placed on.
    pub fn devices(&self, node: GlobalId) -> (r: Option<&[DeviceId]>)
        ensures
            r is Some <==> self.placed().contains_key(node@),
            r matches Some(s) ==> s@ == self.placed()[node@],
    {
        match self.nodes.get(&node.raw()) {
            Some(v) => Some(v.as_slice()),
            None => None,
        }
    }

    /// Checks that the placement covers exactly the nodes of `specs`: the
    /// first spec without a placement, else a placed node that no spec has.
    pub fn validate_checked<Buf>(&self, specs: &[NodeSpec<Buf>]) -> (r: Result<(), PlacementGap>)
        requires
            self.wf(),
        ensures
            r is Ok <==> (forall|i: int| 0 <= i < specs@.len() ==> self.placed().contains_key(
                (#[trigger] specs@[i]).id@,
            )) && (forall|k: u64| #[trigger] self.placed().contains_key(k) ==> exists|i: int|
                0 <= i < specs@.len() && specs@[i].id@ == k),
            r matches Err(PlacementGap::Unplaced { index }) ==> index < specs@.len() && !self.placed().contains_key(
                specs@[index as int].id@,
            ) && forall|i: int| 0 <= i < index ==> self.placed().contains_key((#[trigger] specs@[i]).id@),
            r matches Err(PlacementGap::Stranger { node }) ==> self.placed().contains_key(node@) && (forall|i: int|
                0 <= i < specs@.len() ==> (#[trigger] specs@[i]).id@ != node@) && (forall|i: int|
                0 <= i < specs@.len() ==> self.placed().contains_key((#[trigger] specs@[i]).id@)),
    {
        let mut i: usize = 0;
        while i < specs.len()
            invariant
                i <= specs@.len(),
                forall|t: int| 0 <= t < i ==> self.placed().contains_key((#[trigger] specs@[t]).id@),
            decreases specs@.len() - i,
        {
            if !self.nodes.contains_key(&specs[i].id.raw()) {
                return Err(PlacementGap::Unplaced { index: i });
            }
            i = i + 1;
        }
        let mut t: usize = 0;
        while t < self.order.len()
            invariant
                t <= self.order@.len(),
                self.wf(),
                forall|u: int| 0 <= u < specs@.len() ==> self.placed().contains_key((#[trigger] specs@[u]).id@),
                forall|u: int| 0 <= u < t ==> exists|i: int|
                    0 <= i < specs@.len() && specs@[i].id@ == (#[trigger] self.order@[u])@,
            decreases self.order@.len() - t,
        {
            let id = self.order[t];
            let mut found = false;
            let mut i: usize = 0;
            while i < specs.len()
                invariant
                    i <= specs@.len(),
                    found <==> exists|u: int| 0 <= u < i && (#[trigger] specs@[u]).id@ == id@,
                decreases specs@.len() - i,
            {
                if specs[i].id.raw() == id.raw() {
                    found = true;
                }
                i = i + 1;
            }
            if !found {
                return Err(PlacementGap::Stranger { node: id });
            }
            t = t + 1;
        }
        proof {
            assert forall|k: u64| #[trigger] self.placed().contains_key(k) implies exists|i: int|
                0 <= i < specs@.len() && specs@[i].id@ == k by {
                let u = choose|u: int| 0 <= u < self.order@.len() && (#[trigger] self.order@[u])@ == k;
                assert(self.order@[u]@ == k);
            }
        }
        Ok(())
    }
}


impl Placement {
    /// `validate_checked`, with the gap described as a message.
    pub fn validate<Buf>(&self, specs: &[NodeSpec<Buf>]) -> (r: Result<(), String>)
        requires
            self.wf(),
        ensures
            r is Ok <==> (forall|i: int| 0 <= i < specs@.len() ==> self.placed().contains_key(
                (#[trigger] specs@[i]).id@,
            )) && (forall|k: u64| #[trigger] self.placed().contains_key(k) ==> exists|i: int|
                0 <= i < specs@.len() && specs@[i].id@ == k),
            r matches Err(m) ==> (exists|index: int|
                0 <= index < specs@.len() && !self.placed().contains_key((#[trigger] specs@[index]).id@) && (forall|i: int|
                    0 <= i < index ==> self.placed().contains_key((#[trigger] specs@[i]).id@)) && m@ == unplaced_text(
                    specs@[index].id@,
                    specs@[index].shader.name@,
                )) || ((forall|i: int| 0 <= i < specs@.len() ==> self.placed().contains_key((#[trigger] specs@[i]).id@))
                && exists|node: u64|
                #![trigger self.placed().contains_key(node)]
                self.placed().contains_key(node) && (forall|i: int| 0 <= i < specs@.len() ==> (#[trigger] specs@[i]).id@ != node)
                    && m@ == stranger_text(node)),
    {
        match self.validate_checked(specs) {
            Ok(()) => Ok(()),
            Err(PlacementGap::Unplaced { index }) => Err(
                unplaced_message(specs[index].id, specs[index].shader.name),
            ),
            Err(PlacementGap::Stranger { node }) => Err(stranger_message(node)),
        }
    }
}

impl Default for Placement {
    fn default() -> (p: Self)
        ensures
            p.placed() == Map::<u64, Seq<DeviceId>>::empty(),
            p.wf(),
    {
        Placement::new()
    }
}

/// How `{:?}` writes a node identity.
pub open spec fn node_debug(node: u64) -> Seq<char> {
    "GlobalId("@ + decimal(node as nat) + ")"@
}

/// The beginning of every message about a node: its identity and kernel.
pub open spec fn node_head(node: u64, name: Seq<char>) -> Seq<char> {
    "node "@ + node_debug(node) + " (`"@ + name + "`)"@
}

/// The message for a device list refused with `e`, for node `node` of
/// kernel `name`.
pub open spec fn placement_error_text(node: u64, name: Seq<char>, e: PlacementError) -> Seq<char> {
    match e {
        PlacementError::NoDevice => node_head(node, name) + " is placed on no device"@,
        PlacementError::DuplicateDevice { device } => node_head(node, name) + " lists device "@ + device_debug(device)
            + " twice"@,
        PlacementError::PipelineNeedsOne { count } => node_head(node, name) + " is Pipeline but placed on "@
            + decimal(count as nat) + " devices, needs exactly 1"@,
    }
}

/// The message for a spec without a placement.
pub open spec fn unplaced_text(node: u64, name: Seq<char>) -> Seq<char> {
    node_head(node, name) + " has no placement"@
}

/// The message for a placed node outside the spec list.
pub open spec fn stranger_text(node: u64) -> Seq<char> {
    "placement names node "@ + node_debug(node) + ", which isn't in the spec list"@
}

/// `format!` of the message for an empty device list.
#[verifier::external_body]
fn no_device_message(node: GlobalId, name: &str) -> (r: String)
    ensures
        r@ == placement_error_text(node@, name@, PlacementError::NoDevice),
{
    format!("node {node:?} (`{name}`) is placed on no device")
}

/// `format!` of the message for a device named twice.
#[verifier::external_body]
fn duplicate_device_message(node: GlobalId, name: &str, device: DeviceId) -> (r: String)
    ensures
        r@ == placement_error_text(node@, name@, PlacementError::DuplicateDevice { device }),
{
    format!("node {node:?} (`{name}`) lists device {device:?} twice")
}

/// `format!` of the message for a pipeline stage on several devices.
#[verifier::external_body]
fn pipeline_message(node: GlobalId, name: &str, count: usize) -> (r: String)
    ensures
        r@ == placement_error_text(node@, name@, PlacementError::PipelineNeedsOne { count }),
{
    format!("node {node:?} (`{name}`) is Pipeline but placed on {count} devices, needs exactly 1")
}

/// `format!` of the message for a spec without a placement.
#[verifier::external_body]
fn unplaced_message(node: GlobalId, name: &str) -> (r: String)
    ensures
        r@ == unplaced_text(node@, name@),
{
    format!("node {node:?} (`{name}`) has no placement")
}

/// `format!` of the message for a placed node outside the spec list.
#[verifier::external_body]
fn stranger_message(node: GlobalId) -> (r: String)
    ensures
        r@ == stranger_text(node@),
{
    format!("placement names node {node:?}, which isn't in the spec list")
}

} // verus!
