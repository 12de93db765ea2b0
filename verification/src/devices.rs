//! The devices a machine runs, and how a new configuration changes them.
//!
//! A machine runs one task per configured device of its own. Devices are
//! told apart by id alone: a device whose id stays configured keeps running,
//! whatever else changed in its description.

use vstd::prelude::*;
use crate::ids::Id;

verus! {

/// A device that does nothing.
#[derive(Debug, Clone, Copy, PartialEq, Eq, Structural)]
pub struct EmptyDeviceDescriptor;

/// Metadata of a point; the core message format carries none.
#[derive(Debug, Clone, Copy, PartialEq, Eq, Structural)]
pub struct PointMetaData {}

impl EmptyDeviceDescriptor {
    /// The title of a device that has none of its own.
    pub fn title(&self) -> (r: String)
        ensures
            r@ == "Untitled Device"@,
    {
        String::from_str("Untitled Device")
    }
}

/// The machine of an id.
pub open spec fn machine_of(id: Id) -> Id {
    match id {
        Id::Machine(m) => Id::Machine(m),
        Id::Device(m, _) => Id::Machine(m),
    }
}

/// The devices to start: those of the machine that are configured but not
/// running, each once, in the order of the configuration.
pub open spec fn to_start(running: Seq<Id>, configured: Seq<Id>, machine: Id) -> Seq<Id>
    decreases configured.len(),
{
    if configured.len() == 0 {
        Seq::empty()
    } else {
        let s = to_start(running, configured.drop_last(), machine);
        let c = configured.last();
        if machine_of(c) == machine && !running.contains(c) && !s.contains(c) {
            s.push(c)
        } else {
            s
        }
    }
}

/// The devices to stop: those running that the machine no longer has
/// configured, in the order they run.
pub open spec fn to_stop(running: Seq<Id>, configured: Seq<Id>, machine: Id) -> Seq<Id>
    decreases running.len(),
{
    if running.len() == 0 {
        Seq::empty()
    } else {
        let s = to_stop(running.drop_last(), configured, machine);
        let r = running.last();
        if configured.contains(r) && machine_of(r) == machine {
            s
        } else {
            s.push(r)
        }
    }
}


proof fn lemma_to_start_contains(running: Seq<Id>, configured: Seq<Id>, machine: Id, id: Id)
    ensures
        to_start(running, configured, machine).contains(id) <==> (configured.contains(id)
            && machine_of(id) == machine && !running.contains(id)),
    decreases configured.len(),
{
    if configured.len() > 0 {
        let d = configured.drop_last();
        lemma_to_start_contains(running, d, machine, id);
        let s = to_start(running, d, machine);
        let c = configured.last();
        if d.contains(id) {
            let k = choose|k: int| 0 <= k < d.len() && d[k] == id;
            assert(configured[k] == id);
        }
        if configured.contains(id) && !d.contains(id) {
            let k = choose|k: int| 0 <= k < configured.len() && configured[k] == id;
            if k < d.len() {
                assert(d[k] == id);
            }
            assert(c == id);
        }
        if machine_of(c) == machine && !running.contains(c) && !s.contains(c) {
            assert(s.push(c)[s.len() as int] == c);
            if s.push(c).contains(id) && id != c {
                let k = choose|k: int| 0 <= k < s.push(c).len() && s.push(c)[k] == id;
                assert(s[k] == id);
            }
            if s.contains(id) {
                let k = choose|k: int| 0 <= k < s.len() && s[k] == id;
                assert(s.push(c)[k] == id);
            }
        }
    }
}

proof fn lemma_to_stop_contains(running: Seq<Id>, configured: Seq<Id>, machine: Id, id: Id)
    ensures
        to_stop(running, configured, machine).contains(id) <==> (running.contains(id) && !(
        configured.contains(id) && machine_of(id) == machine)),
    decreases running.len(),
{
    if running.len() > 0 {
        let d = running.drop_last();
        lemma_to_stop_contains(d, configured, machine, id);
        let s = to_stop(d, configured, machine);
        let r = running.last();
        if d.contains(id) {
            let k = choose|k: int| 0 <= k < d.len() && d[k] == id;
            assert(running[k] == id);
        }
        if running.contains(id) && !d.contains(id) {
            let k = choose|k: int| 0 <= k < running.len() && running[k] == id;
            if k < d.len() {
                assert(d[k] == id);
            }
            assert(r == id);
        }
        if !(configured.contains(r) && machine_of(r) == machine) {
            assert(s.push(r)[s.len() as int] == r);
            if s.push(r).contains(id) && id != r {
                let k = choose|k: int| 0 <= k < s.push(r).len() && s.push(r)[k] == id;
                assert(s[k] == id);
            }
            if s.contains(id) {
                let k = choose|k: int| 0 <= k < s.len() && s[k] == id;
                assert(s.push(r)[k] == id);
            }
        }
    }
}

/// Once the planned devices are stopped and started, a device runs exactly
/// when it is configured for the machine; a device that was running and
/// stays configured is left running.
pub proof fn lemma_plan_reaches_configuration(running: Seq<Id>, configured: Seq<Id>, machine: Id, id: Id)
    ensures
        ((running.contains(id) && !to_stop(running, configured, machine).contains(id)) || to_start(
            running,
            configured,
            machine,
        ).contains(id)) <==> (configured.contains(id) && machine_of(id) == machine),
        running.contains(id) && configured.contains(id) && machine_of(id) == machine ==> !to_stop(
            running,
            configured,
            machine,
        ).contains(id) && !to_start(running, configured, machine).contains(id),
{
    lemma_to_start_contains(running, configured, machine, id);
    lemma_to_stop_contains(running, configured, machine, id);
}

/// Which devices to start and which to stop.
#[derive(Debug)]
pub struct DeviceUpdatePlan {
    pub start: Vec<Id>,
    pub stop: Vec<Id>,
}

fn contains_id(v: &Vec<Id>, id: Id) -> (r: bool)
    ensures
        r == v@.contains(id),
{
    let mut i: usize = 0;
    while i < v.len()
        invariant
            0 <= i <= v@.len(),
            forall|k: int| 0 <= k < i ==> v@[k] != id,
        decreases v@.len() - i,
    {
        if v[i] == id {
            return true;
        }
        i += 1;
    }
    false
}

/// Plans the change from the devices `running` (with their finished tasks
/// already removed) to the devices `configured` for `machine`.
pub fn plan_device_updates(running: &Vec<Id>, configured: &Vec<Id>, machine: Id) -> (r: DeviceUpdatePlan)
    ensures
        r.start@ == to_start(running@, configured@, machine),
        r.stop@ == to_stop(running@, configured@, machine),
{
    let mut start: Vec<Id> = Vec::new();
    let mut i: usize = 0;
    assert(configured@.subrange(0, 0) =~= Seq::<Id>::empty());
    while i < configured.len()
        invariant
            0 <= i <= configured@.len(),
            start@ == to_start(running@, configured@.subrange(0, i as int), machine),
        decreases configured@.len() - i,
    {
        let c = configured[i];
        proof {
            let s = configured@.subrange(0, i + 1);
            assert(s.drop_last() =~= configured@.subrange(0, i as int));
            assert(s.last() == c);
        }
        if c.to_machine() == machine && !contains_id(running, c) && !contains_id(&start, c) {
            start.push(c);
        }
        i += 1;
    }
    assert(configured@.subrange(0, configured@.len() as int) =~= configured@);
    let mut stop: Vec<Id> = Vec::new();
    let mut j: usize = 0;
    assert(running@.subrange(0, 0) =~= Seq::<Id>::empty());
    while j < running.len()
        invariant
            0 <= j <= running@.len(),
            stop@ == to_stop(running@.subrange(0, j as int), configured@, machine),
        decreases running@.len() - j,
    {
        let r = running[j];
        proof {
            let s = running@.subrange(0, j + 1);
            assert(s.drop_last() =~= running@.subrange(0, j as int));
            assert(s.last() == r);
        }
        if !(contains_id(configured, r) && r.to_machine() == machine) {
            stop.push(r);
        }
        j += 1;
    }
    assert(running@.subrange(0, running@.len() as int) =~= running@);
    DeviceUpdatePlan { start, stop }
}

} // verus!
