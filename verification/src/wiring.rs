//! Cabling a classroom: students set up the ports of the device they hold,
//! the teacher places taps on links, and the ports a cable may go to.

use vstd::prelude::*;
use crate::addr::{ipv4_of, mask_is_fixed, parse_ipv4, MASK_C};
use crate::claims::rest_unchanged;
use crate::classroom::{
    claimed_by, conn_index, dev_index, distinct_conns, distinct_devices, distinct_taps, find_conn, find_device,
    holds, ids_below, lemma_conn_index, tables_fresh, Classroom, Device, Port, TapAttach,
};
use crate::kinds::DeviceKind;
use crate::sorting::{insert_sorted, lemma_insert_multiset, sorted_by_key, SortKey};
use crate::text::{str_eq, str_lt};
use crate::topo::{
    as_opt_ref, copy_arp_table, copy_links, copy_mac_table, link_id_for, link_name, opt_str, ArpEntry, LinkView,
    MacEntry,
};
use vstd::string::StringExecFns;

verus! {

/// A student's change to one port; a field left out stays as it is.
#[derive(Debug)]
pub struct PortPatch {
    pub ip: Option<String>,
    pub peer_port_id: Option<String>,
    pub gateway: Option<String>,
    pub mask: Option<String>,
}

impl Default for PortPatch {
    fn default() -> (r: PortPatch)
        ensures
            r.ip is None,
            r.peer_port_id is None,
            r.gateway is None,
            r.mask is None,
    {
        PortPatch { ip: None, peer_port_id: None, gateway: None, mask: None }
    }
}

/// Why a port change is refused.
#[derive(Debug, Clone, Copy, PartialEq, Eq, Structural)]
pub enum PortError {
    NotOwner,
    MaskFixed,
    BadIp,
    UnknownDevice,
    UnknownPort,
    UnknownPeer,
    PortBusy,
}

/// Why a tap cannot be placed.
#[derive(Debug, Clone, Copy, PartialEq, Eq, Structural)]
pub enum AttachError {
    UnknownTap,
    NotTap,
    UnknownPort,
    LinkNotUp,
}

/// Port `p` is the first of `ports` named `id`.
pub open spec fn is_first_in(ports: Seq<Port>, id: Seq<char>, p: int) -> bool {
    &&& 0 <= p < ports.len()
    &&& ports[p].id@ == id
    &&& forall|q: int| 0 <= q < p ==> #[trigger] ports[q].id@ != id
}

/// The index of the first port named `id`, or -1.
pub open spec fn port_in(ports: Seq<Port>, id: Seq<char>) -> int {
    if exists|p: int| is_first_in(ports, id, p) {
        choose|p: int| is_first_in(ports, id, p)
    } else {
        -1
    }
}

/// Some port of `dev` is named `id`.
pub open spec fn has_port(dev: Device, id: Seq<char>) -> bool {
    exists|p: int| 0 <= p < dev.ports@.len() && #[trigger] dev.ports@[p].id@ == id
}

/// Device `d` is the first with a port named `id`.
pub open spec fn is_first_owner(devs: Seq<Device>, id: Seq<char>, d: int) -> bool {
    &&& 0 <= d < devs.len()
    &&& has_port(devs[d], id)
    &&& forall|e: int| 0 <= e < d ==> !has_port(#[trigger] devs[e], id)
}

/// The index of the first device with a port named `id`, or -1.
pub open spec fn owner_of(devs: Seq<Device>, id: Seq<char>) -> int {
    if exists|d: int| is_first_owner(devs, id, d) {
        choose|d: int| is_first_owner(devs, id, d)
    } else {
        -1
    }
}

/// Some port anywhere is named `id`.
pub open spec fn port_anywhere(devs: Seq<Device>, id: Seq<char>) -> bool {
    owner_of(devs, id) >= 0
}

/// The first port named `id`, looked for device by device.
pub open spec fn port_named(devs: Seq<Device>, id: Seq<char>) -> Port {
    let d = owner_of(devs, id);
    devs[d].ports@[port_in(devs[d].ports@, id)]
}

proof fn lemma_first_in(ports: Seq<Port>, id: Seq<char>, p: int)
    requires
        is_first_in(ports, id, p),
    ensures
        port_in(ports, id) == p,
{
    let q = port_in(ports, id);
    if q != p {
        assert(is_first_in(ports, id, q));
        if q < p {
            assert(ports[q].id@ != id);
        } else {
            assert(ports[p].id@ != id);
        }
    }
}

proof fn lemma_first_owner(devs: Seq<Device>, id: Seq<char>, d: int)
    requires
        is_first_owner(devs, id, d),
    ensures
        owner_of(devs, id) == d,
{
    let e = owner_of(devs, id);
    if e != d {
        assert(is_first_owner(devs, id, e));
        if e < d {
            assert(!has_port(devs[e], id));
        } else {
            assert(!has_port(devs[d], id));
        }
    }
}

/// The first port of `ports` named `id`.
pub(crate) fn port_index(ports: &Vec<Port>, id: &str) -> (r: Option<usize>)
    ensures
        match r {
            Some(p) => p as int == port_in(ports@, id@) && is_first_in(ports@, id@, p as int),
            None => port_in(ports@, id@) == -1 && forall|p: int| 0 <= p < ports@.len() ==> #[trigger] ports@[p].id@ != id@,
        },
{
    let mut p: usize = 0;
    while p < ports.len()
        invariant
            p <= ports@.len(),
            forall|q: int| 0 <= q < p ==> #[trigger] ports@[q].id@ != id@,
        decreases ports@.len() - p,
    {
        if str_eq(ports[p].id.as_str(), id) {
            proof {
                lemma_first_in(ports@, id@, p as int);
            }
            return Some(p);
        }
        p += 1;
    }
    proof {
        if exists|q: int| is_first_in(ports@, id@, q) {
            let q = choose|q: int| is_first_in(ports@, id@, q);
            assert(ports@[q].id@ == id@);
        }
    }
    None
}

/// The first port named `id`, looked for device by device.
pub fn find_port(devs: &Vec<Device>, id: &str) -> (r: Option<(usize, usize)>)
    ensures
        match r {
            Some((d, p)) => d as int == owner_of(devs@, id@) && is_first_owner(devs@, id@, d as int) && p as int
                == port_in(devs@[d as int].ports@, id@) && is_first_in(devs@[d as int].ports@, id@, p as int),
            None => owner_of(devs@, id@) == -1 && forall|d: int| 0 <= d < devs@.len() ==> !has_port(#[trigger] devs@[d], id@),
        },
{
    let mut d: usize = 0;
    while d < devs.len()
        invariant
            d <= devs@.len(),
            forall|e: int| 0 <= e < d ==> !has_port(#[trigger] devs@[e], id@),
        decreases devs@.len() - d,
    {
        match port_index(&devs[d].ports, id) {
            Some(p) => {
                proof {
                    assert(has_port(devs@[d as int], id@));
                    lemma_first_owner(devs@, id@, d as int);
                }
                return Some((d, p));
            },
            None => {},
        }
        d += 1;
    }
    proof {
        if exists|e: int| is_first_owner(devs@, id@, e) {
            let e = choose|e: int| is_first_owner(devs@, id@, e);
            assert(!has_port(devs@[e], id@));
        }
    }
    None
}

/// The first port named `target` is already cabled elsewhere than to
/// `self_port`.
pub open spec fn peer_taken(devs: Seq<Device>, target: Seq<char>, self_port: Seq<char>) -> bool {
    let peer = port_named(devs, target).peer_port_id;
    &&& port_anywhere(devs, target)
    &&& peer is Some
    &&& peer.unwrap()@.len() > 0
    &&& peer.unwrap()@ != self_port
}

/// A port other than `self_port` names `target` as its peer.
pub open spec fn cabled_to(devs: Seq<Device>, target: Seq<char>, self_port: Seq<char>) -> bool {
    exists|d: int, p: int|
        0 <= d < devs.len() && 0 <= p < devs[d].ports@.len() && #[trigger] devs[d].ports@[p].id@ != self_port
            && opt_str(devs[d].ports@[p].peer_port_id) == Some(target)
}

/// Port `target` is taken for a cable from `self_port`.
pub open spec fn port_busy(devs: Seq<Device>, target: Seq<char>, self_port: Seq<char>) -> bool {
    peer_taken(devs, target, self_port) || cabled_to(devs, target, self_port)
}

/// Whether port `target` is taken for a cable from `self_port`.
fn port_is_busy(devs: &Vec<Device>, target: &str, self_port: &str) -> (r: bool)
    ensures
        r == port_busy(devs@, target@, self_port@),
{
    match find_port(devs, target) {
        Some((d, p)) => {
            match as_opt_ref(&devs[d].ports[p].peer_port_id) {
                Some(existing) => {
                    if existing.unicode_len() > 0 && !str_eq(existing, self_port) {
                        return true;
                    }
                },
                None => {},
            }
        },
        None => {},
    }
    let mut d: usize = 0;
    while d < devs.len()
        invariant
            d <= devs@.len(),
            !peer_taken(devs@, target@, self_port@),
            forall|e: int, q: int|
                0 <= e < d && 0 <= q < devs@[e].ports@.len() ==> !(#[trigger] devs@[e].ports@[q].id@ != self_port@
                    && opt_str(devs@[e].ports@[q].peer_port_id) == Some(target@)),
        decreases devs@.len() - d,
    {
        let ports = &devs[d].ports;
        let mut q: usize = 0;
        while q < ports.len()
            invariant
                d < devs@.len(),
                ports == devs@[d as int].ports,
                q <= ports@.len(),
                forall|e: int, q2: int|
                    0 <= e < d && 0 <= q2 < devs@[e].ports@.len() ==> !(#[trigger] devs@[e].ports@[q2].id@
                        != self_port@ && opt_str(devs@[e].ports@[q2].peer_port_id) == Some(target@)),
                forall|q2: int|
                    0 <= q2 < q ==> !(#[trigger] ports@[q2].id@ != self_port@ && opt_str(ports@[q2].peer_port_id)
                        == Some(target@)),
            decreases ports@.len() - q,
        {
            let hit = match as_opt_ref(&ports[q].peer_port_id) {
                Some(peer) => str_eq(peer, target),
                None => false,
            };
            if !str_eq(ports[q].id.as_str(), self_port) && hit {
                proof {
                    assert(devs@[d as int].ports@[q as int].id@ != self_port@);
                }
                return true;
            }
            q += 1;
        }
        d += 1;
    }
    false
}

/// A changed port and the tables as they now stand.
#[derive(Debug)]
pub struct TopologyUpdate {
    pub port: Port,
    pub links: Vec<LinkView>,
    pub mac_table: Vec<MacEntry>,
    pub arp_table: Vec<ArpEntry>,
}

/// Connection `cid` holds device `did`.
pub open spec fn owns(o: Classroom, cid: Seq<char>, did: Seq<char>) -> bool {
    let c = conn_index(o.connections@, cid);
    c >= 0 && opt_str(o.connections@[c].device_id) == Some(did)
}

/// Why changing port `pid` of device `did` for connection `cid` is refused,
/// checked in this order, if it is.
pub open spec fn port_error(
    o: Classroom,
    cid: Seq<char>,
    did: Seq<char>,
    pid: Seq<char>,
    patch: PortPatch,
) -> Option<PortError> {
    let peer = opt_str(patch.peer_port_id);
    let cables = peer is Some && peer.unwrap().len() > 0;
    let d = dev_index(o.devices@, did);
    if !owns(o, cid, did) {
        Some(PortError::NotOwner)
    } else if !(patch.mask is None || patch.mask.unwrap()@ == MASK_C@) {
        Some(PortError::MaskFixed)
    } else if patch.ip is Some && ipv4_of(patch.ip.unwrap()@) is None {
        Some(PortError::BadIp)
    } else if patch.gateway is Some && ipv4_of(patch.gateway.unwrap()@) is None {
        Some(PortError::BadIp)
    } else if cables && !port_anywhere(o.devices@, peer.unwrap()) {
        Some(PortError::UnknownPeer)
    } else if cables && port_busy(o.devices@, peer.unwrap(), pid) {
        Some(PortError::PortBusy)
    } else if d < 0 {
        Some(PortError::UnknownDevice)
    } else if port_in(o.devices@[d].ports@, pid) < 0 {
        Some(PortError::UnknownPort)
    } else {
        None
    }
}

/// Port `np` is `op` after `patch`, on a device of kind `kind`: a switch
/// port takes no address, only a PC takes a gateway, an empty peer unplugs
/// the cable, and the mask is always the class C one.
pub open spec fn patched_port(op: Port, np: Port, kind: DeviceKind, patch: PortPatch) -> bool {
    &&& np.id == op.id
    &&& np.mac == op.mac
    &&& np.mask@ == MASK_C@
    &&& np.ip == if kind != DeviceKind::Switch && patch.ip is Some {
        patch.ip
    } else {
        op.ip
    }
    &&& np.gateway == if kind == DeviceKind::Pc && patch.gateway is Some {
        patch.gateway
    } else {
        op.gateway
    }
    &&& opt_str(np.peer_port_id) == match patch.peer_port_id {
        Some(s) => if s@.len() == 0 {
            None
        } else {
            Some(s@)
        },
        None => opt_str(op.peer_port_id),
    }
}

/// What a port change does to each field, field by field: a field the
/// patch leaves out keeps its value; an address is taken except by a
/// switch port; a gateway is taken only by a PC port; an empty peer
/// unplugs the cable and any other peer is taken; the mask is always the
/// class C one; the name and MAC address never change.
pub open spec fn fields_follow_patch(op: Port, np: Port, kind: DeviceKind, patch: PortPatch) -> bool {
    &&& np.id == op.id
    &&& np.mac == op.mac
    &&& np.mask@ == MASK_C@
    &&& (patch.ip is None || kind == DeviceKind::Switch ==> np.ip == op.ip)
    &&& (patch.ip is Some && kind != DeviceKind::Switch ==> np.ip == patch.ip)
    &&& (patch.gateway is None || kind != DeviceKind::Pc ==> np.gateway == op.gateway)
    &&& (patch.gateway is Some && kind == DeviceKind::Pc ==> np.gateway == patch.gateway)
    &&& (patch.peer_port_id is None ==> opt_str(np.peer_port_id) == opt_str(op.peer_port_id))
    &&& (patch.peer_port_id is Some && patch.peer_port_id.unwrap()@.len() == 0 ==> np.peer_port_id is None)
    &&& (patch.peer_port_id is Some && patch.peer_port_id.unwrap()@.len() > 0 ==> opt_str(np.peer_port_id)
        == opt_str(patch.peer_port_id))
}

/// `n` is `o` with port `p` of device `d` changed by `patch`, and the
/// tables rebuilt.
pub open spec fn port_patched(o: Classroom, n: Classroom, d: int, p: int, patch: PortPatch) -> bool {
    let od = o.devices@[d];
    let nd = n.devices@[d];
    &&& n.devices@.len() == o.devices@.len()
    &&& forall|d2: int| 0 <= d2 < n.devices@.len() && d2 != d ==> #[trigger] n.devices@[d2] == o.devices@[d2]
    &&& nd.id == od.id
    &&& nd.kind == od.kind
    &&& nd.mac == od.mac
    &&& nd.claimed_connection_id == od.claimed_connection_id
    &&& nd.ports@.len() == od.ports@.len()
    &&& forall|q: int| 0 <= q < nd.ports@.len() && q != p ==> #[trigger] nd.ports@[q] == od.ports@[q]
    &&& patched_port(od.ports@[p], nd.ports@[p], od.kind, patch)
    &&& n.connections == o.connections
    &&& n.claim_state == o.claim_state
    &&& n.id_seq == o.id_seq
    &&& n.mac_seq == o.mac_seq
    &&& rest_unchanged(o, n)
    &&& tables_fresh(n)
}

impl Classroom {
    /// A student changes port `port_id` of the device it holds.
    pub fn configure_port(&mut self, connection_id: &str, device_id: &str, port_id: &str, patch: PortPatch) -> (r:
        Result<TopologyUpdate, PortError>)
        requires
            distinct_devices(old(self).devices@),
            distinct_conns(old(self).connections@),
        ensures
            old(self).wf() ==> final(self).wf(),
            match port_error(*old(self), connection_id@, device_id@, port_id@, patch) {
                Some(e) => r == Err::<TopologyUpdate, PortError>(e) && *final(self) == *old(self),
                None => r matches Ok(u) && {
                    let d = dev_index(old(self).devices@, device_id@);
                    let p = port_in(old(self).devices@[d].ports@, port_id@);
                    &&& port_patched(*old(self), *final(self), d, p, patch)
                    &&& fields_follow_patch(
                        old(self).devices@[d].ports@[p],
                        final(self).devices@[d].ports@[p],
                        old(self).devices@[d].kind,
                        patch,
                    )
                    &&& u.port == final(self).devices@[d].ports@[p]
                    &&& u.links@ == final(self).links@
                    &&& u.mac_table@ == final(self).mac_table@
                    &&& u.arp_table@ == final(self).arp_table@
                },
            },
    {
        let owned = match find_conn(&self.connections, connection_id) {
            Some(c) => match as_opt_ref(&self.connections[c].device_id) {
                Some(did) => str_eq(did, device_id),
                None => false,
            },
            None => false,
        };
        if !owned {
            return Err(PortError::NotOwner);
        }
        if !mask_is_fixed(as_opt_ref(&patch.mask)) {
            return Err(PortError::MaskFixed);
        }
        if let Some(ip) = as_opt_ref(&patch.ip) {
            if parse_ipv4(ip).is_none() {
                return Err(PortError::BadIp);
            }
        }
        if let Some(gw) = as_opt_ref(&patch.gateway) {
            if parse_ipv4(gw).is_none() {
                return Err(PortError::BadIp);
            }
        }
        if let Some(peer) = as_opt_ref(&patch.peer_port_id) {
            if peer.unicode_len() > 0 {
                if find_port(&self.devices, peer).is_none() {
                    return Err(PortError::UnknownPeer);
                }
                if port_is_busy(&self.devices, peer, port_id) {
                    return Err(PortError::PortBusy);
                }
            }
        }
        let d = match find_device(&self.devices, device_id) {
            Some(d) => d,
            None => {
                return Err(PortError::UnknownDevice);
            },
        };
        let p = match port_index(&self.devices[d].ports, port_id) {
            Some(p) => p,
            None => {
                return Err(PortError::UnknownPort);
            },
        };
        let ghost o = *self;
        let kind = self.devices[d].kind;
        let mut dev = self.devices[d].copy();
        let mut port = dev.ports[p].copy();
        if kind != DeviceKind::Switch {
            if let Some(ip) = patch.ip {
                port.ip = Some(ip);
            }
        }
        if kind == DeviceKind::Pc {
            if let Some(gw) = patch.gateway {
                port.gateway = Some(gw);
            }
        }
        if let Some(peer) = patch.peer_port_id {
            if peer.unicode_len() == 0 {
                port.peer_port_id = None;
            } else {
                port.peer_port_id = Some(peer);
            }
        }
        port.mask = String::from_str(MASK_C);
        dev.ports.set(p, port);
        self.devices.set(d, dev);
        proof {
            let od = o.devices@;
            let nd = self.devices@;
            if o.wf() {
            assert(distinct_devices(nd)) by {
                assert forall|a: int, b: int| 0 <= a < b < nd.len() implies #[trigger] nd[a].id@ != #[trigger] nd[b].id@ by {
                    assert(od[a].id@ != od[b].id@);
                }
            }
            assert forall|c2: int|
                0 <= c2 < self.connections@.len() && (#[trigger] self.connections@[c2]).device_id is Some
                    implies claimed_by(
                nd,
                self.connections@[c2].device_id.unwrap()@,
                self.connections@[c2].connection_id@,
            ) by {
                let w = choose|w: int|
                    0 <= w < od.len() && #[trigger] od[w].id@ == self.connections@[c2].device_id.unwrap()@ && opt_str(
                        od[w].claimed_connection_id,
                    ) == Some(self.connections@[c2].connection_id@);
                assert(nd[w].id@ == od[w].id@);
            }
            assert forall|d2: int|
                0 <= d2 < nd.len() && (#[trigger] nd[d2]).claimed_connection_id is Some implies holds(
                self.connections@,
                nd[d2].claimed_connection_id.unwrap()@,
                nd[d2].id@,
            ) by {
                assert(od[d2].claimed_connection_id == nd[d2].claimed_connection_id);
                assert(od[d2].id == nd[d2].id);
            }
            }
        }
        self.rebuild_tables();
        let out = self.devices[d].ports[p].copy();
        Ok(
            TopologyUpdate {
                port: out,
                links: copy_links(&self.links),
                mac_table: copy_mac_table(&self.mac_table),
                arp_table: copy_arp_table(&self.arp_table),
            },
        )
    }
}

/// A tap placed on the link between two ports.
#[derive(Debug)]
pub struct TapAttachment {
    pub tap_id: String,
    pub link_id: String,
    pub port_a: String,
    pub port_b: String,
}

/// The link tap `tap` sits on, if it sits on one.
pub open spec fn attached(taps: Seq<TapAttach>, tap: Seq<char>) -> Option<Seq<char>> {
    if exists|i: int| 0 <= i < taps.len() && #[trigger] taps[i].tap_id@ == tap {
        Some(taps[choose|i: int| 0 <= i < taps.len() && #[trigger] taps[i].tap_id@ == tap].link_id@)
    } else {
        None
    }
}

proof fn lemma_attached(taps: Seq<TapAttach>, tap: Seq<char>, i: int)
    requires
        distinct_taps(taps),
        0 <= i < taps.len(),
        taps[i].tap_id@ == tap,
    ensures
        attached(taps, tap) == Some(taps[i].link_id@),
{
    let j = choose|j: int| 0 <= j < taps.len() && #[trigger] taps[j].tap_id@ == tap;
    if j != i {
        if j < i {
            assert(taps[j].tap_id@ != taps[i].tap_id@);
        } else {
            assert(taps[i].tap_id@ != taps[j].tap_id@);
        }
    }
}

/// Where tap `tap` is recorded, if it is.
fn find_tap(taps: &Vec<TapAttach>, tap: &str) -> (r: Option<usize>)
    ensures
        match r {
            Some(i) => i < taps@.len() && taps@[i as int].tap_id@ == tap@,
            None => forall|j: int| 0 <= j < taps@.len() ==> #[trigger] taps@[j].tap_id@ != tap@,
        },
{
    let mut i: usize = 0;
    while i < taps.len()
        invariant
            i <= taps@.len(),
            forall|j: int| 0 <= j < i ==> #[trigger] taps@[j].tap_id@ != tap@,
        decreases taps@.len() - i,
    {
        if str_eq(taps[i].tap_id.as_str(), tap) {
            return Some(i);
        }
        i += 1;
    }
    None
}

/// Puts tap `tap` on link `link`, taking it off any link it sat on.
pub(crate) fn set_tap(taps: &mut Vec<TapAttach>, tap: &str, link: String)
    requires
        distinct_taps(old(taps)@),
    ensures
        distinct_taps(final(taps)@),
        forall|x: Seq<char>|
            #[trigger] attached(final(taps)@, x) == if x == tap@ {
                Some(link@)
            } else {
                attached(old(taps)@, x)
            },
{
    let ghost o = taps@;
    match find_tap(taps, tap) {
        Some(i) => {
            let entry = TapAttach { tap_id: taps[i].tap_id.clone(), link_id: link };
            taps.set(i, entry);
            proof {
                let n = taps@;
                assert(distinct_taps(n)) by {
                    assert forall|a: int, b: int| 0 <= a < b < n.len() implies #[trigger] n[a].tap_id@
                        != #[trigger] n[b].tap_id@ by {
                        assert(o[a].tap_id@ != o[b].tap_id@);
                    }
                }
                assert forall|x: Seq<char>|
                    #[trigger] attached(n, x) == if x == tap@ {
                        Some(link@)
                    } else {
                        attached(o, x)
                    } by {
                    assert(n[i as int].tap_id@ == tap@);
                    if x == tap@ {
                        lemma_attached(n, x, i as int);
                    } else if exists|j: int| 0 <= j < n.len() && #[trigger] n[j].tap_id@ == x {
                        let j = choose|j: int| 0 <= j < n.len() && #[trigger] n[j].tap_id@ == x;
                        assert(j != i);
                        assert(n[j] == o[j]);
                        lemma_attached(n, x, j);
                        lemma_attached(o, x, j);
                    } else {
                        assert forall|j: int| 0 <= j < o.len() implies #[trigger] o[j].tap_id@ != x by {
                            if j != i {
                                assert(n[j] == o[j]);
                            }
                        }
                    }
                }
            }
            return ;
        },
        None => {},
    }
    let entry = TapAttach { tap_id: String::from_str(tap), link_id: link };
    taps.push(entry);
    proof {
        let n = taps@;
        let last = n.len() - 1;
        assert(distinct_taps(n)) by {
            assert forall|a: int, b: int| 0 <= a < b < n.len() implies #[trigger] n[a].tap_id@ != #[trigger] n[b].tap_id@ by {
                assert(n[a] == o[a]);
                if b < last {
                    assert(n[b] == o[b]);
                }
            }
        }
        assert forall|x: Seq<char>|
            #[trigger] attached(n, x) == if x == tap@ {
                Some(link@)
            } else {
                attached(o, x)
            } by {
            if x == tap@ {
                lemma_attached(n, x, last);
            } else if exists|j: int| 0 <= j < n.len() && #[trigger] n[j].tap_id@ == x {
                let j = choose|j: int| 0 <= j < n.len() && #[trigger] n[j].tap_id@ == x;
                assert(j != last);
                assert(n[j] == o[j]);
                lemma_attached(n, x, j);
                lemma_attached(o, x, j);
            } else {
                assert forall|j: int| 0 <= j < o.len() implies #[trigger] o[j].tap_id@ != x by {
                    assert(n[j] == o[j]);
                }
            }
        }
    }
}

/// Link `k` is the first of `links` named `id`.
pub open spec fn is_first_link(links: Seq<LinkView>, id: Seq<char>, k: int) -> bool {
    &&& 0 <= k < links.len()
    &&& links[k].link_id@ == id
    &&& forall|j: int| 0 <= j < k ==> #[trigger] links[j].link_id@ != id
}

/// The index of the first link named `id`, or -1.
pub open spec fn link_index(links: Seq<LinkView>, id: Seq<char>) -> int {
    if exists|k: int| is_first_link(links, id, k) {
        choose|k: int| is_first_link(links, id, k)
    } else {
        -1
    }
}

fn find_link(links: &Vec<LinkView>, id: &str) -> (r: Option<usize>)
    ensures
        match r {
            Some(k) => k as int == link_index(links@, id@),
            None => link_index(links@, id@) == -1,
        },
{
    let mut k: usize = 0;
    while k < links.len()
        invariant
            k <= links@.len(),
            forall|j: int| 0 <= j < k ==> #[trigger] links@[j].link_id@ != id@,
        decreases links@.len() - k,
    {
        if str_eq(links[k].link_id.as_str(), id) {
            proof {
                let m = link_index(links@, id@);
                assert(is_first_link(links@, id@, k as int));
                if m != k {
                    if m < k {
                        assert(links@[m].link_id@ != id@);
                    } else {
                        assert(links@[k as int].link_id@ != id@);
                    }
                }
            }
            return Some(k);
        }
        k += 1;
    }
    proof {
        if exists|m: int| is_first_link(links@, id@, m) {
            let m = choose|m: int| is_first_link(links@, id@, m);
            assert(links@[m].link_id@ != id@);
        }
    }
    None
}

/// Everything but the taps and the tables is as it was.
pub open spec fn same_but_taps(o: Classroom, n: Classroom) -> bool {
    &&& n.classroom_id == o.classroom_id
    &&& n.title == o.title
    &&& n.claim_state == o.claim_state
    &&& n.mode == o.mode
    &&& n.created_at == o.created_at
    &&& n.inventory == o.inventory
    &&& n.devices == o.devices
    &&& n.connections == o.connections
    &&& n.chat_log == o.chat_log
    &&& n.frames == o.frames
    &&& n.tap_log == o.tap_log
    &&& n.id_seq == o.id_seq
    &&& n.mac_seq == o.mac_seq
}

impl Classroom {
    /// The teacher places tap `tap_id` on the link between `port_a` and
    /// `port_b`, taking it off any link it sat on.  The tables are rebuilt
    /// once both ports are known, whether or not the link is up.
    pub fn attach_tap(&mut self, tap_id: &str, port_a: &str, port_b: &str) -> (r: Result<TapAttachment, AttachError>)
        requires
            old(self).wf(),
        ensures
            final(self).wf(),
            ({
                let t = dev_index(old(self).devices@, tap_id@);
                let want = link_name(port_a@, port_b@);
                let k = link_index(final(self).links@, want);
                if t < 0 {
                    r == Err::<TapAttachment, AttachError>(AttachError::UnknownTap) && *final(self) == *old(self)
                } else if old(self).devices@[t].kind != DeviceKind::Tap {
                    r == Err::<TapAttachment, AttachError>(AttachError::NotTap) && *final(self) == *old(self)
                } else if !port_anywhere(old(self).devices@, port_a@) || !port_anywhere(old(self).devices@, port_b@) {
                    r == Err::<TapAttachment, AttachError>(AttachError::UnknownPort) && *final(self) == *old(self)
                } else {
                    &&& tables_fresh(*final(self))
                    &&& same_but_taps(*old(self), *final(self))
                    &&& if k < 0 || !final(self).links@[k].physically_up {
                        r == Err::<TapAttachment, AttachError>(AttachError::LinkNotUp) && final(self).tap_attaches
                            == old(self).tap_attaches
                    } else {
                        &&& r matches Ok(att) && att.tap_id@ == tap_id@ && att.link_id@ == want && att.port_a@
                            == port_a@ && att.port_b@ == port_b@
                        &&& forall|x: Seq<char>|
                            #[trigger] attached(final(self).tap_attaches@, x) == if x == tap_id@ {
                                Some(want)
                            } else {
                                attached(old(self).tap_attaches@, x)
                            }
                    }
                }
            }),
    {
        let t = match find_device(&self.devices, tap_id) {
            Some(t) => t,
            None => {
                return Err(AttachError::UnknownTap);
            },
        };
        if self.devices[t].kind != DeviceKind::Tap {
            return Err(AttachError::NotTap);
        }
        if find_port(&self.devices, port_a).is_none() || find_port(&self.devices, port_b).is_none() {
            return Err(AttachError::UnknownPort);
        }
        self.rebuild_tables();
        let want = link_id_for(port_a, port_b);
        let k = match find_link(&self.links, want.as_str()) {
            Some(k) => k,
            None => {
                return Err(AttachError::LinkNotUp);
            },
        };
        if !self.links[k].physically_up {
            return Err(AttachError::LinkNotUp);
        }
        let link_id = self.links[k].link_id.clone();
        let ghost mid = *self;
        proof {
            assert(is_first_link(self.links@, want@, k as int)) by {
                let m = link_index(self.links@, want@);
                assert(exists|m: int| is_first_link(self.links@, want@, m));
            }
        }
        set_tap(&mut self.tap_attaches, tap_id, link_id.clone());
        proof {
            assert(ids_below(self.connections@, self.frames@, self.id_seq));
        }
        Ok(
            TapAttachment {
                tap_id: String::from_str(tap_id),
                link_id,
                port_a: String::from_str(port_a),
                port_b: String::from_str(port_b),
            },
        )
    }
}

impl SortKey for String {
    open spec fn sort_key(&self) -> (Seq<char>, Seq<char>) {
        (self@, Seq::empty())
    }

    fn key_less(&self, other: &Self) -> (r: bool) {
        str_lt(self.as_str(), other.as_str())
    }
}

/// The ports a cable may go to: every port of every device but the taps,
/// device by device.
pub open spec fn cable_ends(devs: Seq<Device>) -> Seq<String>
    decreases devs.len(),
{
    if devs.len() == 0 {
        Seq::empty()
    } else {
        cable_ends(devs.drop_last()) + if devs.last().kind != DeviceKind::Tap {
            devs.last().ports@.map_values(|p: Port| p.id)
        } else {
            Seq::empty()
        }
    }
}

fn collect_cable_ends(devs: &Vec<Device>) -> (r: Vec<String>)
    ensures
        r@ == cable_ends(devs@),
{
    let mut out: Vec<String> = Vec::new();
    let mut i: usize = 0;
    assert(devs@.take(0) =~= Seq::<Device>::empty());
    while i < devs.len()
        invariant
            i <= devs@.len(),
            out@ == cable_ends(devs@.take(i as int)),
        decreases devs@.len() - i,
    {
        let d = &devs[i];
        let ghost base = out@;
        if d.kind != DeviceKind::Tap {
            let mut k: usize = 0;
            while k < d.ports.len()
                invariant
                    k <= d.ports@.len(),
                    out@ == base + d.ports@.take(k as int).map_values(|p: Port| p.id),
                decreases d.ports@.len() - k,
            {
                out.push(d.ports[k].id.clone());
                k += 1;
                assert(out@ =~= base + d.ports@.take(k as int).map_values(|p: Port| p.id));
            }
            assert(d.ports@.take(d.ports@.len() as int) =~= d.ports@);
        } else {
            assert(out@ =~= base + Seq::<String>::empty());
        }
        assert(devs@.take(i + 1).drop_last() =~= devs@.take(i as int));
        assert(devs@.take(i + 1).last() == *d);
        i += 1;
    }
    assert(devs@.take(devs@.len() as int) =~= devs@);
    out
}

impl Classroom {
    /// The ports a cable may go to, sorted by name.
    pub fn peer_candidates(&self) -> (r: Vec<String>)
        ensures
            sorted_by_key(r@),
            r@.to_multiset() == cable_ends(self.devices@).to_multiset(),
    {
        let ends = collect_cable_ends(&self.devices);
        let mut out: Vec<String> = Vec::new();
        let mut j: usize = 0;
        assert(ends@.take(0) =~= Seq::<String>::empty());
        while j < ends.len()
            invariant
                j <= ends@.len(),
                sorted_by_key(out@),
                out@.to_multiset() == ends@.take(j as int).to_multiset(),
            decreases ends@.len() - j,
        {
            let ghost before = out@;
            insert_sorted(&mut out, ends[j].clone());
            proof {
                let k = choose|k: int| 0 <= k <= before.len() && out@ == before.insert(k, ends@[j as int]);
                lemma_insert_multiset(before, k, ends@[j as int]);
                assert(ends@.take(j + 1) =~= ends@.take(j as int).push(ends@[j as int]));
                ends@.take(j as int).to_multiset_ensures();
            }
            j += 1;
        }
        assert(ends@.take(ends@.len() as int) =~= ends@);
        out
    }
}

} // verus!
