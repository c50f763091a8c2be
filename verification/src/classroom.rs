//! A classroom: its devices and ports, the students' connections and
//! claims, the derived tables, the chat log and the frames in flight.

use vstd::prelude::*;
use crate::addr::MASK_C;
use crate::arp::{arp_candidates, arp_table_of, rebuild_arp_table};
use crate::frame::SimFrame;
use crate::ids::{id_text, lemma_id_text_injective};
use crate::inventory::{materialize_inventory, materializes, Inventory, MaterializedDevice, MaterializedPort};
use crate::kinds::{ClaimState, ClientKind, DeviceKind, Mode};
use crate::text::str_eq;
use crate::sorting::sorted_by_key;
use crate::topo::{
    clone_opt, links_of, mac_candidates, mac_views, opt_str, rebuild_links, rebuild_mac_table, ArpEntry, LinkView,
    MacEntry, PortRef,
};
use vstd::string::StringExecFns;

verus! {

/// The most frames that may be in flight at once.
pub const MAX_INFLIGHT_FRAMES: usize = 256;

/// How many chat messages the classroom keeps.
pub const CHAT_LOG_CAP: usize = 1000;

/// How many copies each tap keeps of the frames it saw.
pub const TAP_LOG_CAP: usize = 500;

#[derive(Debug, Clone)]
pub struct Port {
    pub id: String,
    pub ip: Option<String>,
    pub mask: String,
    pub gateway: Option<String>,
    pub peer_port_id: Option<String>,
    pub mac: Option<String>,
}

#[derive(Debug, Clone)]
pub struct Device {
    pub id: String,
    pub kind: DeviceKind,
    pub mac: Option<String>,
    pub claimed_connection_id: Option<String>,
    pub ports: Vec<Port>,
}

#[derive(Debug, Clone)]
pub struct Conn {
    pub connection_id: String,
    pub client_kind: ClientKind,
    pub device_id: Option<String>,
    pub nic_mac: Option<String>,
    pub last_seen: i64,
}

/// A tap placed on a link.
#[derive(Debug, Clone)]
pub struct TapAttach {
    pub tap_id: String,
    pub link_id: String,
}

#[derive(Debug)]
pub struct ChatMsg {
    pub from_ip: String,
    pub to_ip: String,
    pub text: String,
    pub delivered: bool,
}

/// A copy of a frame a tap saw, and when.
#[derive(Debug, Clone)]
pub struct TapLogEntry {
    pub tap_id: String,
    pub frame: SimFrame,
    pub at: i64,
}

#[derive(Debug)]
pub struct Classroom {
    pub classroom_id: String,
    pub title: String,
    pub claim_state: ClaimState,
    pub mode: Mode,
    pub created_at: i64,
    pub inventory: Inventory,
    pub devices: Vec<Device>,
    pub connections: Vec<Conn>,
    pub links: Vec<LinkView>,
    pub mac_table: Vec<MacEntry>,
    pub arp_table: Vec<ArpEntry>,
    pub tap_attaches: Vec<TapAttach>,
    pub chat_log: Vec<ChatMsg>,
    pub frames: Vec<SimFrame>,
    pub tap_log: Vec<TapLogEntry>,
    /// The counter behind connection and frame ids.
    pub id_seq: u64,
    /// The counter behind generated MAC addresses.
    pub mac_seq: u64,
}

impl Port {
    pub fn copy(&self) -> (r: Port)
        ensures
            r == *self,
    {
        Port {
            id: self.id.clone(),
            ip: clone_opt(&self.ip),
            mask: self.mask.clone(),
            gateway: clone_opt(&self.gateway),
            peer_port_id: clone_opt(&self.peer_port_id),
            mac: clone_opt(&self.mac),
        }
    }
}

/// Two devices agree in every field and every port.
pub open spec fn same_device(a: Device, b: Device) -> bool {
    a.id == b.id && a.kind == b.kind && a.mac == b.mac && a.claimed_connection_id == b.claimed_connection_id
        && a.ports@ == b.ports@
}

impl Device {
    pub fn copy(&self) -> (r: Device)
        ensures
            same_device(r, *self),
    {
        let mut ports: Vec<Port> = Vec::new();
        let mut i: usize = 0;
        while i < self.ports.len()
            invariant
                i <= self.ports@.len(),
                ports@ == self.ports@.take(i as int),
            decreases self.ports@.len() - i,
        {
            ports.push(self.ports[i].copy());
            i += 1;
            assert(ports@ =~= self.ports@.take(i as int));
        }
        assert(ports@ =~= self.ports@);
        Device {
            id: self.id.clone(),
            kind: self.kind,
            mac: clone_opt(&self.mac),
            claimed_connection_id: clone_opt(&self.claimed_connection_id),
            ports,
        }
    }
}

/// A port made from a materialized one keeps everything; an empty mask
/// becomes the class C mask.
pub open spec fn port_from(p: Port, m: MaterializedPort) -> bool {
    &&& p.id == m.id
    &&& p.ip == m.ip
    &&& p.mask@ == if m.mask@.len() == 0 {
        MASK_C@
    } else {
        m.mask@
    }
    &&& p.gateway == m.gateway
    &&& p.peer_port_id == m.peer_port_id
    &&& p.mac == m.mac
}

/// A device made from a materialized one: unclaimed, ports kept.
pub open spec fn device_from(d: Device, m: MaterializedDevice) -> bool {
    &&& d.id == m.id
    &&& d.kind == m.kind
    &&& d.mac == m.mac
    &&& d.claimed_connection_id is None
    &&& d.ports@.len() == m.ports@.len()
    &&& forall|k: int| 0 <= k < d.ports@.len() ==> port_from(#[trigger] d.ports@[k], m.ports@[k])
}

impl Device {
    pub fn from_materialized(m: MaterializedDevice) -> (d: Device)
        ensures
            device_from(d, m),
    {
        let mut ports: Vec<Port> = Vec::new();
        let mut i: usize = 0;
        while i < m.ports.len()
            invariant
                i <= m.ports@.len(),
                ports@.len() == i,
                forall|k: int| 0 <= k < i ==> port_from(#[trigger] ports@[k], m.ports@[k]),
            decreases m.ports@.len() - i,
        {
            let mp = &m.ports[i];
            let mask = if mp.mask.unicode_len() == 0 {
                String::from_str(MASK_C)
            } else {
                mp.mask.clone()
            };
            ports.push(
                Port {
                    id: mp.id.clone(),
                    ip: clone_opt(&mp.ip),
                    mask,
                    gateway: clone_opt(&mp.gateway),
                    peer_port_id: clone_opt(&mp.peer_port_id),
                    mac: clone_opt(&mp.mac),
                },
            );
            i += 1;
        }
        Device { id: m.id, kind: m.kind, mac: m.mac, claimed_connection_id: None, ports }
    }
}

/// Materialized device `j` is the last with its id.
pub open spec fn last_of_id(ms: Seq<MaterializedDevice>, j: int) -> bool {
    forall|j2: int| j < j2 < ms.len() ==> #[trigger] ms[j2].id@ != ms[j].id@
}

/// A device is made from the last materialized device with its id.
pub open spec fn made_from(d: Device, ms: Seq<MaterializedDevice>) -> bool {
    exists|j: int| 0 <= j < ms.len() && #[trigger] device_from(d, ms[j]) && last_of_id(ms, j)
}

/// Index of the device named `id`, or -1.
pub open spec fn dev_index(devs: Seq<Device>, id: Seq<char>) -> int {
    if exists|i: int| 0 <= i < devs.len() && #[trigger] devs[i].id@ == id {
        choose|i: int| 0 <= i < devs.len() && #[trigger] devs[i].id@ == id
    } else {
        -1
    }
}

/// Index of the connection named `id`, or -1.
pub open spec fn conn_index(conns: Seq<Conn>, id: Seq<char>) -> int {
    if exists|i: int| 0 <= i < conns.len() && #[trigger] conns[i].connection_id@ == id {
        choose|i: int| 0 <= i < conns.len() && #[trigger] conns[i].connection_id@ == id
    } else {
        -1
    }
}

/// Index of the frame named `id`, or -1.
pub open spec fn frame_index(frames: Seq<SimFrame>, id: Seq<char>) -> int {
    if exists|i: int| 0 <= i < frames.len() && #[trigger] frames[i].frame_id@ == id {
        choose|i: int| 0 <= i < frames.len() && #[trigger] frames[i].frame_id@ == id
    } else {
        -1
    }
}

pub open spec fn distinct_devices(devs: Seq<Device>) -> bool {
    forall|i: int, j: int| 0 <= i < j < devs.len() ==> #[trigger] devs[i].id@ != #[trigger] devs[j].id@
}

pub open spec fn distinct_conns(conns: Seq<Conn>) -> bool {
    forall|i: int, j: int|
        0 <= i < j < conns.len() ==> #[trigger] conns[i].connection_id@ != #[trigger] conns[j].connection_id@
}

pub open spec fn distinct_frames(frames: Seq<SimFrame>) -> bool {
    forall|i: int, j: int| 0 <= i < j < frames.len() ==> #[trigger] frames[i].frame_id@ != #[trigger] frames[j].frame_id@
}

pub open spec fn distinct_taps(taps: Seq<TapAttach>) -> bool {
    forall|i: int, j: int| 0 <= i < j < taps.len() ==> #[trigger] taps[i].tap_id@ != #[trigger] taps[j].tap_id@
}

/// Connection `cid` holds device `did`.
pub open spec fn holds(conns: Seq<Conn>, cid: Seq<char>, did: Seq<char>) -> bool {
    exists|c: int|
        0 <= c < conns.len() && #[trigger] conns[c].connection_id@ == cid && opt_str(conns[c].device_id)
            == Some(did)
}

/// Device `did` is claimed by connection `cid`.
pub open spec fn claimed_by(devs: Seq<Device>, did: Seq<char>, cid: Seq<char>) -> bool {
    exists|d: int|
        0 <= d < devs.len() && #[trigger] devs[d].id@ == did && opt_str(devs[d].claimed_connection_id)
            == Some(cid)
}

/// Every connection holding a device is the one that device names, and
/// every claimed device names a connection that holds it.
pub open spec fn claims_agree(devs: Seq<Device>, conns: Seq<Conn>) -> bool {
    &&& forall|c: int|
        0 <= c < conns.len() && (#[trigger] conns[c]).device_id is Some ==> claimed_by(
            devs,
            conns[c].device_id.unwrap()@,
            conns[c].connection_id@,
        )
    &&& forall|d: int|
        0 <= d < devs.len() && (#[trigger] devs[d]).claimed_connection_id is Some ==> holds(
            conns,
            devs[d].claimed_connection_id.unwrap()@,
            devs[d].id@,
        )
}

/// Ids this classroom generated carry a counter value below the current one.
pub open spec fn ids_below(conns: Seq<Conn>, frames: Seq<SimFrame>, seq: u64) -> bool {
    &&& forall|c: int, t: nat, s: nat|
        0 <= c < conns.len() && #[trigger] conns[c].connection_id@ == #[trigger] id_text("n-"@, t, s) ==> s < seq
    &&& forall|f: int, t: nat, s: nat|
        0 <= f < frames.len() && #[trigger] frames[f].frame_id@ == #[trigger] id_text("f-"@, t, s) ==> s < seq
}

/// How many of `frames` are still on their way.
pub open spec fn inflight_in(frames: Seq<SimFrame>) -> nat
    decreases frames.len(),
{
    if frames.len() == 0 {
        0
    } else {
        inflight_in(frames.drop_last()) + if frames.last().status@ == "inflight"@ {
            1nat
        } else {
            0nat
        }
    }
}

/// Replacing a frame changes the count by what the two frames count.
pub proof fn lemma_inflight_update(frames: Seq<SimFrame>, i: int, f: SimFrame)
    requires
        0 <= i < frames.len(),
    ensures
        inflight_in(frames.update(i, f)) + (if frames[i].status@ == "inflight"@ {
            1nat
        } else {
            0nat
        }) == inflight_in(frames) + (if f.status@ == "inflight"@ {
            1nat
        } else {
            0nat
        }),
    decreases frames.len(),
{
    if i == frames.len() - 1 {
        assert(frames.update(i, f).drop_last() =~= frames.drop_last());
    } else {
        lemma_inflight_update(frames.drop_last(), i, f);
        assert(frames.update(i, f).drop_last() =~= frames.drop_last().update(i, f));
    }
}

/// How many entries of `log` tap `tap` made.
pub open spec fn tap_count(log: Seq<TapLogEntry>, tap: Seq<char>) -> nat
    decreases log.len(),
{
    if log.len() == 0 {
        0
    } else {
        tap_count(log.drop_last(), tap) + if log.last().tap_id@ == tap {
            1nat
        } else {
            0nat
        }
    }
}

/// No tap keeps more than its share of copies.
pub open spec fn tap_log_bounded(log: Seq<TapLogEntry>) -> bool {
    forall|t: Seq<char>| #[trigger] tap_count(log, t) <= TAP_LOG_CAP
}

/// Taking an entry out of the log takes one from its tap's count.
pub proof fn lemma_tap_count_remove(log: Seq<TapLogEntry>, i: int, t: Seq<char>)
    requires
        0 <= i < log.len(),
    ensures
        tap_count(log.remove(i), t) + (if log[i].tap_id@ == t {
            1nat
        } else {
            0nat
        }) == tap_count(log, t),
    decreases log.len(),
{
    if i == log.len() - 1 {
        assert(log.remove(i) =~= log.drop_last());
    } else {
        lemma_tap_count_remove(log.drop_last(), i, t);
        assert(log.remove(i).drop_last() =~= log.drop_last().remove(i));
        assert(log.remove(i).last() == log.last());
    }
}

impl Classroom {
    /// The classroom's invariant.
    pub open spec fn wf(&self) -> bool {
        &&& distinct_devices(self.devices@)
        &&& distinct_conns(self.connections@)
        &&& distinct_frames(self.frames@)
        &&& distinct_taps(self.tap_attaches@)
        &&& claims_agree(self.devices@, self.connections@)
        &&& ids_below(self.connections@, self.frames@, self.id_seq)
        &&& tap_log_bounded(self.tap_log@)
        &&& self.chat_log@.len() <= CHAT_LOG_CAP
        &&& inflight_in(self.frames@) <= MAX_INFLIGHT_FRAMES
    }
}

pub proof fn lemma_dev_index(devs: Seq<Device>, id: Seq<char>, i: int)
    requires
        distinct_devices(devs),
        0 <= i < devs.len(),
        devs[i].id@ == id,
    ensures
        dev_index(devs, id) == i,
{
    let j = dev_index(devs, id);
    if j != i {
        if j < i {
            assert(devs[j].id@ != devs[i].id@);
        } else {
            assert(devs[i].id@ != devs[j].id@);
        }
    }
}

pub proof fn lemma_conn_index(conns: Seq<Conn>, id: Seq<char>, i: int)
    requires
        distinct_conns(conns),
        0 <= i < conns.len(),
        conns[i].connection_id@ == id,
    ensures
        conn_index(conns, id) == i,
{
    let j = conn_index(conns, id);
    if j != i {
        if j < i {
            assert(conns[j].connection_id@ != conns[i].connection_id@);
        } else {
            assert(conns[i].connection_id@ != conns[j].connection_id@);
        }
    }
}

pub proof fn lemma_frame_index(frames: Seq<SimFrame>, id: Seq<char>, i: int)
    requires
        distinct_frames(frames),
        0 <= i < frames.len(),
        frames[i].frame_id@ == id,
    ensures
        frame_index(frames, id) == i,
{
    let j = frame_index(frames, id);
    if j != i {
        if j < i {
            assert(frames[j].frame_id@ != frames[i].frame_id@);
        } else {
            assert(frames[i].frame_id@ != frames[j].frame_id@);
        }
    }
}

pub fn find_device(devs: &Vec<Device>, id: &str) -> (r: Option<usize>)
    ensures
        match r {
            Some(i) => i < devs@.len() && devs@[i as int].id@ == id@,
            None => dev_index(devs@, id@) == -1,
        },
        distinct_devices(devs@) ==> match r {
            Some(i) => dev_index(devs@, id@) == i,
            None => true,
        },
{
    let mut i: usize = 0;
    while i < devs.len()
        invariant
            i <= devs@.len(),
            forall|k: int| 0 <= k < i ==> #[trigger] devs@[k].id@ != id@,
        decreases devs@.len() - i,
    {
        if str_eq(devs[i].id.as_str(), id) {
            proof {
                if distinct_devices(devs@) {
                    lemma_dev_index(devs@, id@, i as int);
                }
            }
            return Some(i);
        }
        i += 1;
    }
    None
}

pub fn find_conn(conns: &Vec<Conn>, id: &str) -> (r: Option<usize>)
    ensures
        match r {
            Some(i) => i < conns@.len() && conns@[i as int].connection_id@ == id@,
            None => conn_index(conns@, id@) == -1,
        },
        distinct_conns(conns@) ==> match r {
            Some(i) => conn_index(conns@, id@) == i,
            None => true,
        },
{
    let mut i: usize = 0;
    while i < conns.len()
        invariant
            i <= conns@.len(),
            forall|k: int| 0 <= k < i ==> #[trigger] conns@[k].connection_id@ != id@,
        decreases conns@.len() - i,
    {
        if str_eq(conns[i].connection_id.as_str(), id) {
            proof {
                if distinct_conns(conns@) {
                    lemma_conn_index(conns@, id@, i as int);
                }
            }
            return Some(i);
        }
        i += 1;
    }
    None
}

pub fn find_frame(frames: &Vec<SimFrame>, id: &str) -> (r: Option<usize>)
    ensures
        match r {
            Some(i) => i < frames@.len() && frames@[i as int].frame_id@ == id@,
            None => frame_index(frames@, id@) == -1,
        },
        distinct_frames(frames@) ==> match r {
            Some(i) => frame_index(frames@, id@) == i,
            None => true,
        },
{
    let mut i: usize = 0;
    while i < frames.len()
        invariant
            i <= frames@.len(),
            forall|k: int| 0 <= k < i ==> #[trigger] frames@[k].frame_id@ != id@,
        decreases frames@.len() - i,
    {
        if str_eq(frames[i].frame_id.as_str(), id) {
            proof {
                if distinct_frames(frames@) {
                    lemma_frame_index(frames@, id@, i as int);
                }
            }
            return Some(i);
        }
        i += 1;
    }
    None
}

/// The table entry a port contributes.
pub open spec fn port_ref_of(d: Device, p: Port) -> PortRef {
    PortRef {
        device_id: d.id,
        kind: d.kind,
        device_mac: d.mac,
        port_id: p.id,
        ip: p.ip,
        gateway: p.gateway,
        peer_port_id: p.peer_port_id,
        port_mac: p.mac,
    }
}

/// Every port of every device, device by device.
pub open spec fn refs_of(devs: Seq<Device>) -> Seq<PortRef>
    decreases devs.len(),
{
    if devs.len() == 0 {
        Seq::empty()
    } else {
        refs_of(devs.drop_last()) + devs.last().ports@.map_values(|p: Port| port_ref_of(devs.last(), p))
    }
}

/// The entry for one port, as the tables see it.
pub fn make_ref(d: &Device, p: &Port) -> (r: PortRef)
    ensures
        r == port_ref_of(*d, *p),
{
    PortRef {
        device_id: d.id.clone(),
        kind: d.kind,
        device_mac: clone_opt(&d.mac),
        port_id: p.id.clone(),
        ip: clone_opt(&p.ip),
        gateway: clone_opt(&p.gateway),
        peer_port_id: clone_opt(&p.peer_port_id),
        port_mac: clone_opt(&p.mac),
    }
}

pub fn port_refs(devs: &Vec<Device>) -> (r: Vec<PortRef>)
    ensures
        r@ == refs_of(devs@),
{
    let mut out: Vec<PortRef> = Vec::new();
    let mut i: usize = 0;
    assert(devs@.take(0) =~= Seq::<Device>::empty());
    while i < devs.len()
        invariant
            i <= devs@.len(),
            out@ == refs_of(devs@.take(i as int)),
        decreases devs@.len() - i,
    {
        let d = &devs[i];
        let ghost base = out@;
        let mut k: usize = 0;
        while k < d.ports.len()
            invariant
                k <= d.ports@.len(),
                out@ == base + d.ports@.take(k as int).map_values(|p: Port| port_ref_of(*d, p)),
            decreases d.ports@.len() - k,
        {
            out.push(make_ref(d, &d.ports[k]));
            k += 1;
            assert(out@ =~= base + d.ports@.take(k as int).map_values(|p: Port| port_ref_of(*d, p)));
        }
        assert(d.ports@.take(d.ports@.len() as int) =~= d.ports@);
        assert(devs@.take(i + 1).drop_last() =~= devs@.take(i as int));
        assert(devs@.take(i + 1).last() == *d);
        i += 1;
    }
    assert(devs@.take(devs@.len() as int) =~= devs@);
    out
}

/// The link list and the MAC and ARP tables are the ones the ports give.
pub open spec fn tables_fresh(c: Classroom) -> bool {
    let refs = refs_of(c.devices@);
    &&& links_of(refs, c.links@)
    &&& mac_views(c.mac_table@).to_multiset() == mac_candidates(refs, refs.len() as int).to_multiset()
    &&& sorted_by_key(c.mac_table@)
    &&& arp_table_of(arp_candidates(refs, c.links@, refs.len() as int), c.arp_table@)
}

/// Everything but the derived tables is as it was.
pub open spec fn same_but_tables(a: Classroom, b: Classroom) -> bool {
    &&& b.classroom_id == a.classroom_id
    &&& b.title == a.title
    &&& b.claim_state == a.claim_state
    &&& b.mode == a.mode
    &&& b.created_at == a.created_at
    &&& b.inventory == a.inventory
    &&& b.devices == a.devices
    &&& b.connections == a.connections
    &&& b.tap_attaches == a.tap_attaches
    &&& b.chat_log == a.chat_log
    &&& b.frames == a.frames
    &&& b.tap_log == a.tap_log
    &&& b.id_seq == a.id_seq
    &&& b.mac_seq == a.mac_seq
}

impl Classroom {
    /// A new classroom in draft, normal mode, with the inventory's devices
    /// (a later device with the same id replaces an earlier one), nobody
    /// connected and empty tables.
    pub fn new(classroom_id: String, title: String, inventory: Inventory, created_at: i64) -> (c: Self)
        ensures
            c.wf(),
            c.classroom_id == classroom_id,
            c.title == title,
            c.created_at == created_at,
            c.claim_state == ClaimState::Draft,
            c.mode == Mode::Normal,
            c.connections@.len() == 0,
            c.links@.len() == 0,
            c.mac_table@.len() == 0,
            c.arp_table@.len() == 0,
            c.tap_attaches@.len() == 0,
            c.chat_log@.len() == 0,
            c.frames@.len() == 0,
            c.tap_log@.len() == 0,
            exists|ms: Seq<MaterializedDevice>|
                #[trigger] materializes(inventory, 1, ms) && (forall|i: int|
                    0 <= i < c.devices@.len() ==> made_from(#[trigger] c.devices@[i], ms)) && (forall|j: int|
                    0 <= j < ms.len() ==> #[trigger] dev_index(c.devices@, ms[j].id@) >= 0),
    {
        Classroom::new_with_counters(classroom_id, title, inventory, created_at, 1, 1)
    }

    /// A new classroom as `new` makes it, its ids counted on from `id_seq`
    /// and its generated addresses from `mac_seq`, so that classrooms can
    /// share one pair of counters.
    pub fn new_with_counters(
        classroom_id: String,
        title: String,
        inventory: Inventory,
        created_at: i64,
        id_seq: u64,
        mac_seq: u64,
    ) -> (c: Self)
        ensures
            c.wf(),
            c.classroom_id == classroom_id,
            c.title == title,
            c.created_at == created_at,
            c.claim_state == ClaimState::Draft,
            c.mode == Mode::Normal,
            c.id_seq == id_seq,
            c.mac_seq == crate::inventory::seq_plus(
                mac_seq,
                crate::inventory::macs_before(inventory.routers@, inventory.routers@.len() as int),
            ),
            c.connections@.len() == 0,
            c.links@.len() == 0,
            c.mac_table@.len() == 0,
            c.arp_table@.len() == 0,
            c.tap_attaches@.len() == 0,
            c.chat_log@.len() == 0,
            c.frames@.len() == 0,
            c.tap_log@.len() == 0,
            exists|ms: Seq<MaterializedDevice>|
                #[trigger] materializes(inventory, mac_seq, ms) && (forall|i: int|
                    0 <= i < c.devices@.len() ==> made_from(#[trigger] c.devices@[i], ms)) && (forall|j: int|
                    0 <= j < ms.len() ==> #[trigger] dev_index(c.devices@, ms[j].id@) >= 0),
    {
        let ghost start = mac_seq;
        let mut mac_seq: u64 = mac_seq;
        let mats = materialize_inventory(&inventory, &mut mac_seq);
        let ghost ms = mats@;
        assert(materializes(inventory, start, ms));
        let mut devices: Vec<Device> = Vec::new();
        let mut j: usize = 0;
        let n = mats.len();
        let mut rest = mats;
        let mut taken: Vec<MaterializedDevice> = Vec::new();
        while rest.len() > 0
            invariant
                rest@.len() + j == n,
                n == ms.len(),
                materializes(inventory, start, ms),
                rest@ == ms.skip(j as int),
                distinct_devices(devices@),
                forall|i: int| 0 <= i < devices@.len() ==> made_from(#[trigger] devices@[i], ms.take(j as int)),
                forall|jj: int| 0 <= jj < j ==> #[trigger] dev_index(devices@, ms[jj].id@) >= 0,
                forall|i: int| 0 <= i < devices@.len() ==> #[trigger] devices@[i].claimed_connection_id is None,
            decreases rest@.len(),
        {
            let m = rest.remove(0);
            assert(m == ms[j as int]);
            let ghost mid = m.id@;
            let d = Device::from_materialized(m);
            let ghost old_devs = devices@;
            match find_device(&devices, d.id.as_str()) {
                Some(k) => {
                    devices.set(k, d);
                    proof {
                        assert forall|i: int, i2: int| 0 <= i < i2 < devices@.len() implies #[trigger] devices@[i].id@
                            != #[trigger] devices@[i2].id@ by {
                            assert(old_devs[i].id@ != old_devs[i2].id@);
                        }
                        assert forall|i: int| 0 <= i < devices@.len() implies made_from(#[trigger] devices@[i], ms.take(j + 1)) by {
                            if i == k {
                                assert(device_from(devices@[i], ms.take(j + 1)[j as int]));
                            } else {
                                let jj = choose|jj: int|
                                    0 <= jj < j && #[trigger] device_from(old_devs[i], ms.take(j as int)[jj]) && last_of_id(ms.take(j as int), jj);
                                assert(ms.take(j as int)[jj] == ms.take(j + 1)[jj]);
                                assert(ms[jj].id@ == old_devs[i].id@);
                                assert(old_devs[i].id@ != old_devs[k as int].id@);
                                assert(devices@[i] == old_devs[i]);
                            }
                        }
                        assert forall|jj: int| 0 <= jj < j + 1 implies #[trigger] dev_index(devices@, ms[jj].id@) >= 0 by {
                            if jj == j {
                                assert(devices@[k as int].id@ == ms[jj].id@);
                            } else {
                                let i = dev_index(old_devs, ms[jj].id@);
                                assert(devices@[i].id@ == ms[jj].id@);
                            }
                        }
                    }
                },
                None => {
                    devices.push(d);
                    proof {
                        assert forall|i: int, i2: int| 0 <= i < i2 < devices@.len() implies #[trigger] devices@[i].id@
                            != #[trigger] devices@[i2].id@ by {
                            if i2 == old_devs.len() {
                                assert(old_devs[i].id@ != mid);
                            } else {
                                assert(old_devs[i].id@ != old_devs[i2].id@);
                            }
                        }
                        assert forall|i: int| 0 <= i < devices@.len() implies made_from(#[trigger] devices@[i], ms.take(j + 1)) by {
                            if i == old_devs.len() {
                                assert(device_from(devices@[i], ms.take(j + 1)[j as int]));
                            } else {
                                let jj = choose|jj: int|
                                    0 <= jj < j && #[trigger] device_from(old_devs[i], ms.take(j as int)[jj]) && last_of_id(ms.take(j as int), jj);
                                assert(ms.take(j as int)[jj] == ms.take(j + 1)[jj]);
                                assert(devices@[i] == old_devs[i]);
                                assert(ms[jj].id@ == old_devs[i].id@);
                                assert(old_devs[i].id@ != mid);
                            }
                        }
                        assert forall|jj: int| 0 <= jj < j + 1 implies #[trigger] dev_index(devices@, ms[jj].id@) >= 0 by {
                            if jj == j {
                                assert(devices@[old_devs.len() as int].id@ == ms[jj].id@);
                            } else {
                                let i = dev_index(old_devs, ms[jj].id@);
                                assert(devices@[i].id@ == ms[jj].id@);
                            }
                        }
                    }
                },
            }
            assert(rest@ =~= ms.skip(j + 1));
            j += 1;
        }
        assert(materializes(inventory, start, ms));
        assert(j == ms.len());
        assert(ms.take(j as int) =~= ms);
        let ghost inv0 = inventory;
        let c = Classroom {
            classroom_id,
            title,
            claim_state: ClaimState::Draft,
            mode: Mode::Normal,
            created_at,
            inventory,
            devices,
            connections: Vec::new(),
            links: Vec::new(),
            mac_table: Vec::new(),
            arp_table: Vec::new(),
            tap_attaches: Vec::new(),
            chat_log: Vec::new(),
            frames: Vec::new(),
            tap_log: Vec::new(),
            id_seq,
            mac_seq,
        };
        assert(c.inventory == inv0);
        assert(forall|j: int| 0 <= j < ms.len() ==> #[trigger] dev_index(c.devices@, ms[j].id@) >= 0);
        c
    }

    /// Takes up counters shared with other classrooms before a call that
    /// draws from them: the id counter moves up to `id_seq` if that is
    /// further on (it never moves back, so ids already given stay below
    /// it), and generated addresses continue from `mac_seq`.  Nothing else
    /// changes.
    pub fn lend_counters(&mut self, id_seq: u64, mac_seq: u64)
        requires
            old(self).wf(),
        ensures
            final(self).wf(),
            final(self).id_seq == if old(self).id_seq < id_seq {
                id_seq
            } else {
                old(self).id_seq
            },
            final(self).mac_seq == mac_seq,
            *final(self) == (Classroom { id_seq: final(self).id_seq, mac_seq: final(self).mac_seq, ..*old(self) }),
    {
        if self.id_seq < id_seq {
            self.id_seq = id_seq;
        }
        self.mac_seq = mac_seq;
    }

    /// Recomputes the link list and the MAC and ARP tables from the ports.
    pub fn rebuild_tables(&mut self)
        ensures
            final(self).wf() == old(self).wf(),
            tables_fresh(*final(self)),
            same_but_tables(*old(self), *final(self)),
    {
        let refs = port_refs(&self.devices);
        self.links = rebuild_links(refs.as_slice());
        self.mac_table = rebuild_mac_table(refs.as_slice(), self.links.as_slice());
        self.arp_table = rebuild_arp_table(refs.as_slice(), self.links.as_slice());
    }

    /// The teacher switches between normal and simulation mode; nothing
    /// else changes.
    pub fn set_mode(&mut self, mode: Mode)
        requires
            old(self).wf(),
        ensures
            final(self).wf(),
            final(self).mode == mode,
            final(self).classroom_id == old(self).classroom_id,
            final(self).title == old(self).title,
            final(self).claim_state == old(self).claim_state,
            final(self).created_at == old(self).created_at,
            final(self).inventory == old(self).inventory,
            final(self).devices == old(self).devices,
            final(self).connections == old(self).connections,
            final(self).links == old(self).links,
            final(self).mac_table == old(self).mac_table,
            final(self).arp_table == old(self).arp_table,
            final(self).tap_attaches == old(self).tap_attaches,
            final(self).chat_log == old(self).chat_log,
            final(self).frames == old(self).frames,
            final(self).tap_log == old(self).tap_log,
            final(self).id_seq == old(self).id_seq,
            final(self).mac_seq == old(self).mac_seq,
    {
        self.mode = mode;
    }
}

} // verus!
