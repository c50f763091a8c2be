//! A copy of everything a classroom shows its teacher.

use vstd::prelude::*;
use crate::classroom::{same_device, Classroom, Device, TapAttach, TapLogEntry};
use crate::frame::SimFrame;
use crate::kinds::{ClaimState, Mode};
use crate::topo::{copy_arp_table, copy_links, copy_mac_table, ArpEntry, LinkView, MacEntry};

verus! {

/// The teacher's view of a classroom.
#[derive(Debug)]
pub struct ClassroomSnapshot {
    pub classroom_id: String,
    pub mode: Mode,
    pub claim_state: ClaimState,
    /// How many connections are known.
    pub online: usize,
    pub devices: Vec<Device>,
    pub links: Vec<LinkView>,
    pub mac_table: Vec<MacEntry>,
    pub arp_table: Vec<ArpEntry>,
    pub tap_attach: Vec<TapAttach>,
    pub frames: Vec<SimFrame>,
    pub tap_log: Vec<TapLogEntry>,
}

impl TapAttach {
    pub fn copy(&self) -> (r: TapAttach)
        ensures
            r == *self,
    {
        TapAttach { tap_id: self.tap_id.clone(), link_id: self.link_id.clone() }
    }
}

impl TapLogEntry {
    pub fn copy(&self) -> (r: TapLogEntry)
        ensures
            r == *self,
    {
        TapLogEntry { tap_id: self.tap_id.clone(), frame: self.frame.copy(), at: self.at }
    }
}

fn copy_devices(v: &Vec<Device>) -> (r: Vec<Device>)
    ensures
        r@.len() == v@.len(),
        forall|i: int| 0 <= i < v@.len() ==> same_device(#[trigger] r@[i], v@[i]),
{
    let mut out: Vec<Device> = Vec::new();
    let mut i: usize = 0;
    while i < v.len()
        invariant
            i <= v@.len(),
            out@.len() == i,
            forall|k: int| 0 <= k < i ==> same_device(#[trigger] out@[k], v@[k]),
        decreases v@.len() - i,
    {
        out.push(v[i].copy());
        i += 1;
    }
    out
}

fn copy_taps(v: &Vec<TapAttach>) -> (r: Vec<TapAttach>)
    ensures
        r@ == v@,
{
    let mut out: Vec<TapAttach> = Vec::new();
    let mut i: usize = 0;
    while i < v.len()
        invariant
            i <= v@.len(),
            out@ == v@.take(i as int),
        decreases v@.len() - i,
    {
        out.push(v[i].copy());
        i += 1;
        assert(out@ =~= v@.take(i as int));
    }
    assert(v@.take(v@.len() as int) =~= v@);
    out
}

fn copy_frames(v: &Vec<SimFrame>) -> (r: Vec<SimFrame>)
    ensures
        r@ == v@,
{
    let mut out: Vec<SimFrame> = Vec::new();
    let mut i: usize = 0;
    while i < v.len()
        invariant
            i <= v@.len(),
            out@ == v@.take(i as int),
        decreases v@.len() - i,
    {
        out.push(v[i].copy());
        i += 1;
        assert(out@ =~= v@.take(i as int));
    }
    assert(v@.take(v@.len() as int) =~= v@);
    out
}

fn copy_tap_log(v: &Vec<TapLogEntry>) -> (r: Vec<TapLogEntry>)
    ensures
        r@ == v@,
{
    let mut out: Vec<TapLogEntry> = Vec::new();
    let mut i: usize = 0;
    while i < v.len()
        invariant
            i <= v@.len(),
            out@ == v@.take(i as int),
        decreases v@.len() - i,
    {
        out.push(v[i].copy());
        i += 1;
        assert(out@ =~= v@.take(i as int));
    }
    assert(v@.take(v@.len() as int) =~= v@);
    out
}

impl Classroom {
    /// Everything the teacher's screen shows of the classroom.
    pub fn snapshot(&self) -> (s: ClassroomSnapshot)
        ensures
            s.classroom_id == self.classroom_id,
            s.mode == self.mode,
            s.claim_state == self.claim_state,
            s.online == self.connections@.len(),
            s.devices@.len() == self.devices@.len(),
            forall|i: int| 0 <= i < self.devices@.len() ==> same_device(#[trigger] s.devices@[i], self.devices@[i]),
            s.links@ == self.links@,
            s.mac_table@ == self.mac_table@,
            s.arp_table@ == self.arp_table@,
            s.tap_attach@ == self.tap_attaches@,
            s.frames@ == self.frames@,
            s.tap_log@ == self.tap_log@,
    {
        ClassroomSnapshot {
            classroom_id: self.classroom_id.clone(),
            mode: self.mode,
            claim_state: self.claim_state,
            online: self.connections.len(),
            devices: copy_devices(&self.devices),
            links: copy_links(&self.links),
            mac_table: copy_mac_table(&self.mac_table),
            arp_table: copy_arp_table(&self.arp_table),
            tap_attach: copy_taps(&self.tap_attaches),
            frames: copy_frames(&self.frames),
            tap_log: copy_tap_log(&self.tap_log),
        }
    }
}

} // verus!
