//! Frames walked hop by hop: which addresses a PC writes, where a switch
//! or router sends a frame, and what a router rewrites.

use vstd::prelude::*;
use crate::addr::{same_c_class, same_c_spec};
use crate::arp::{first_port_with_ip, is_first_with_ip};
use crate::kinds::DeviceKind;
use crate::text::str_eq;
use crate::topo::{clone_opt, comm_mac_of, opt_str, ArpEntry, MacEntry, PortRef};

verus! {

#[derive(Debug, Clone, PartialEq, Eq)]
pub struct SimFrame {
    pub frame_id: String,
    pub dst_mac: String,
    pub src_mac: String,
    pub src_ip: String,
    pub dst_ip: String,
    pub payload: String,
    pub at_device_id: String,
    pub status: String,
}

impl SimFrame {
    pub fn copy(&self) -> (r: SimFrame)
        ensures
            r == *self,
    {
        SimFrame {
            frame_id: self.frame_id.clone(),
            dst_mac: self.dst_mac.clone(),
            src_mac: self.src_mac.clone(),
            src_ip: self.src_ip.clone(),
            dst_ip: self.dst_ip.clone(),
            payload: self.payload.clone(),
            at_device_id: self.at_device_id.clone(),
            status: self.status.clone(),
        }
    }
}

/// Entry `k` is the first ARP entry of `device` for `ip`.
pub open spec fn is_first_arp(arp: Seq<ArpEntry>, device: Seq<char>, ip: Seq<char>, k: int) -> bool {
    &&& 0 <= k < arp.len()
    &&& arp[k].device_id@ == device && arp[k].ip@ == ip
    &&& forall|m: int| 0 <= m < k ==> !(#[trigger] arp[m].device_id@ == device && arp[m].ip@ == ip)
}

/// The address `device` writes for `ip`: its first ARP answer, or else the
/// address of the first port holding `ip`.
pub open spec fn mac_for_spec(device: Seq<char>, ip: Seq<char>, ports: Seq<PortRef>, arp: Seq<ArpEntry>) -> Option<Seq<char>> {
    if exists|k: int| #[trigger] is_first_arp(arp, device, ip, k) {
        let k = choose|k: int| #[trigger] is_first_arp(arp, device, ip, k);
        Some(arp[k].mac@)
    } else if exists|g: int| #[trigger] is_first_with_ip(ports, ip, g) {
        let g = choose|g: int| #[trigger] is_first_with_ip(ports, ip, g);
        comm_mac_of(ports[g])
    } else {
        None
    }
}

pub fn mac_for(device_id: &str, ip: &str, ports: &[PortRef], arp: &[ArpEntry]) -> (r: Option<String>)
    ensures
        opt_str(r) == mac_for_spec(device_id@, ip@, ports@, arp@),
{
    let mut k: usize = 0;
    while k < arp.len()
        invariant
            k <= arp@.len(),
            forall|m: int| 0 <= m < k ==> !(#[trigger] arp@[m].device_id@ == device_id@ && arp@[m].ip@ == ip@),
        decreases arp@.len() - k,
    {
        if str_eq(arp[k].device_id.as_str(), device_id) && str_eq(arp[k].ip.as_str(), ip) {
            proof {
                assert(is_first_arp(arp@, device_id@, ip@, k as int));
                let k2 = choose|k2: int| #[trigger] is_first_arp(arp@, device_id@, ip@, k2);
                if k2 < k {
                    assert(!(arp@[k2].device_id@ == device_id@ && arp@[k2].ip@ == ip@));
                } else if k < k2 {
                    assert(!(arp@[k as int].device_id@ == device_id@ && arp@[k as int].ip@ == ip@));
                }
            }
            return Some(arp[k].mac.clone());
        }
        k += 1;
    }
    assert(!exists|k2: int| #[trigger] is_first_arp(arp@, device_id@, ip@, k2));
    match first_port_with_ip(ports, ip) {
        Some(g) => {
            proof {
                let g2 = choose|g2: int| #[trigger] is_first_with_ip(ports@, ip@, g2);
                if g2 < g {
                    assert(opt_str(ports@[g2].ip) != Some(ip@));
                } else if g < g2 {
                    assert(opt_str(ports@[g as int].ip) != Some(ip@));
                }
            }
            ports[g].comm_mac()
        },
        None => {
            assert(!exists|g2: int| #[trigger] is_first_with_ip(ports@, ip@, g2));
            None
        },
    }
}

/// Port `s` is the first PC port of device `src`.
pub open spec fn is_first_pc_port(ports: Seq<PortRef>, src: Seq<char>, s: int) -> bool {
    &&& 0 <= s < ports.len()
    &&& ports[s].device_id@ == src && ports[s].kind == DeviceKind::Pc
    &&& forall|m: int| 0 <= m < s ==> !(#[trigger] ports[m].device_id@ == src && ports[m].kind == DeviceKind::Pc)
}

fn first_pc_port(ports: &[PortRef], src: &str) -> (r: Option<usize>)
    ensures
        match r {
            Some(s) => is_first_pc_port(ports@, src@, s as int),
            None => forall|m: int| 0 <= m < ports@.len() ==> !(#[trigger] ports@[m].device_id@ == src@ && ports@[m].kind == DeviceKind::Pc),
        },
{
    let mut s: usize = 0;
    while s < ports.len()
        invariant
            s <= ports@.len(),
            forall|m: int| 0 <= m < s ==> !(#[trigger] ports@[m].device_id@ == src@ && ports@[m].kind == DeviceKind::Pc),
        decreases ports@.len() - s,
    {
        if str_eq(ports[s].device_id.as_str(), src) && ports[s].kind == DeviceKind::Pc {
            return Some(s);
        }
        s += 1;
    }
    None
}

/// The `(dst_mac, src_mac)` a PC writes into a frame for `dst_ip`: its own
/// address as source; as destination, the address of `dst_ip` itself on
/// its own network, or of its gateway otherwise.
pub open spec fn frame_macs_spec(src: Seq<char>, dst_ip: Seq<char>, ports: Seq<PortRef>, arp: Seq<ArpEntry>) -> Option<(Seq<char>, Seq<char>)> {
    if exists|s: int| #[trigger] is_first_pc_port(ports, src, s) {
        let s = choose|s: int| #[trigger] is_first_pc_port(ports, src, s);
        let p = ports[s];
        if comm_mac_of(p) is None || p.ip is None {
            None
        } else {
            let target = if same_c_spec(p.ip.unwrap()@, dst_ip) {
                Some(dst_ip)
            } else {
                opt_str(p.gateway)
            };
            match target {
                None => None,
                Some(t) => match mac_for_spec(src, t, ports, arp) {
                    Some(d) => Some((d, comm_mac_of(p).unwrap())),
                    None => None,
                },
            }
        }
    } else {
        None
    }
}

pub fn frame_macs(src_device_id: &str, dst_ip: &str, ports: &[PortRef], arp: &[ArpEntry]) -> (r: Option<(String, String)>)
    ensures
        match r {
            Some((d, s)) => frame_macs_spec(src_device_id@, dst_ip@, ports@, arp@) == Some((d@, s@)),
            None => frame_macs_spec(src_device_id@, dst_ip@, ports@, arp@) is None,
        },
{
    let s = match first_pc_port(ports, src_device_id) {
        Some(s) => s,
        None => {
            assert(!exists|s2: int| #[trigger] is_first_pc_port(ports@, src_device_id@, s2));
            return None;
        },
    };
    let src = &ports[s];
    proof {
        assert(is_first_pc_port(ports@, src_device_id@, s as int));
        let s2 = choose|s2: int| #[trigger] is_first_pc_port(ports@, src_device_id@, s2);
        if s2 < s {
            assert(!(ports@[s2].device_id@ == src_device_id@ && ports@[s2].kind == DeviceKind::Pc));
        } else if s < s2 {
            assert(!(ports@[s as int].device_id@ == src_device_id@ && ports@[s as int].kind == DeviceKind::Pc));
        }
    }
    let src_mac = match src.comm_mac() {
        Some(m) => m,
        None => return None,
    };
    let src_ip = match &src.ip {
        Some(x) => x.as_str(),
        None => return None,
    };
    let dst_mac = if same_c_class(src_ip, dst_ip) {
        mac_for(src_device_id, dst_ip, ports, arp)
    } else {
        match &src.gateway {
            Some(gw) => mac_for(src_device_id, gw.as_str(), ports, arp),
            None => return None,
        }
    };
    match dst_mac {
        Some(d) => Some((d, src_mac)),
        None => None,
    }
}

/// Entry `k` is the first entry of switch `sw` for address `mac`.
pub open spec fn is_first_mac_entry(table: Seq<MacEntry>, sw: Seq<char>, mac: Seq<char>, k: int) -> bool {
    &&& 0 <= k < table.len()
    &&& table[k].switch_id@ == sw && table[k].mac@ == mac
    &&& forall|m: int| 0 <= m < k ==> !(#[trigger] table[m].switch_id@ == sw && table[m].mac@ == mac)
}

/// The port a switch must send a frame out of: the one its table learned
/// the destination address behind, if any.
pub open spec fn switch_out_spec(sw: Seq<char>, mac: Seq<char>, table: Seq<MacEntry>) -> Option<Seq<char>> {
    if exists|k: int| #[trigger] is_first_mac_entry(table, sw, mac, k) {
        let k = choose|k: int| #[trigger] is_first_mac_entry(table, sw, mac, k);
        Some(table[k].port_id@)
    } else {
        None
    }
}

pub fn switch_out_port(switch_id: &str, dst_mac: &str, table: &[MacEntry]) -> (r: Option<String>)
    ensures
        opt_str(r) == switch_out_spec(switch_id@, dst_mac@, table@),
{
    let mut k: usize = 0;
    while k < table.len()
        invariant
            k <= table@.len(),
            forall|m: int| 0 <= m < k ==> !(#[trigger] table@[m].switch_id@ == switch_id@ && table@[m].mac@ == dst_mac@),
        decreases table@.len() - k,
    {
        if str_eq(table[k].switch_id.as_str(), switch_id) && str_eq(table[k].mac.as_str(), dst_mac) {
            proof {
                assert(is_first_mac_entry(table@, switch_id@, dst_mac@, k as int));
                let k2 = choose|k2: int| #[trigger] is_first_mac_entry(table@, switch_id@, dst_mac@, k2);
                if k2 < k {
                    assert(!(table@[k2].switch_id@ == switch_id@ && table@[k2].mac@ == dst_mac@));
                } else if k < k2 {
                    assert(!(table@[k as int].switch_id@ == switch_id@ && table@[k as int].mac@ == dst_mac@));
                }
            }
            return Some(table[k].port_id.clone());
        }
        k += 1;
    }
    assert(!exists|k2: int| #[trigger] is_first_mac_entry(table@, switch_id@, dst_mac@, k2));
    None
}

/// Port `k` of router `r` is on the network of `dst`.
pub open spec fn router_port_toward(p: PortRef, r: Seq<char>, dst: Seq<char>) -> bool {
    p.device_id@ == r && p.kind == DeviceKind::Router && p.ip is Some && same_c_spec(p.ip.unwrap()@, dst)
}

pub open spec fn is_first_toward(ports: Seq<PortRef>, r: Seq<char>, dst: Seq<char>, k: int) -> bool {
    &&& 0 <= k < ports.len()
    &&& router_port_toward(ports[k], r, dst)
    &&& forall|m: int| 0 <= m < k ==> !router_port_toward(#[trigger] ports[m], r, dst)
}

/// The port a router must send a frame out of: its first port on the
/// destination's network.
pub open spec fn router_out_spec(r: Seq<char>, dst: Seq<char>, ports: Seq<PortRef>) -> Option<Seq<char>> {
    if exists|k: int| #[trigger] is_first_toward(ports, r, dst, k) {
        let k = choose|k: int| #[trigger] is_first_toward(ports, r, dst, k);
        Some(ports[k].port_id@)
    } else {
        None
    }
}

pub fn router_out_port(router_id: &str, dst_ip: &str, ports: &[PortRef]) -> (r: Option<String>)
    ensures
        opt_str(r) == router_out_spec(router_id@, dst_ip@, ports@),
{
    let mut k: usize = 0;
    while k < ports.len()
        invariant
            k <= ports@.len(),
            forall|m: int| 0 <= m < k ==> !router_port_toward(#[trigger] ports@[m], router_id@, dst_ip@),
        decreases ports@.len() - k,
    {
        let p = &ports[k];
        if str_eq(p.device_id.as_str(), router_id) && p.kind == DeviceKind::Router {
            if let Some(ip) = &p.ip {
                if same_c_class(ip.as_str(), dst_ip) {
                    proof {
                        assert(is_first_toward(ports@, router_id@, dst_ip@, k as int));
                        let k2 = choose|k2: int| #[trigger] is_first_toward(ports@, router_id@, dst_ip@, k2);
                        if k2 < k {
                            assert(!router_port_toward(ports@[k2], router_id@, dst_ip@));
                        } else if k < k2 {
                            assert(!router_port_toward(ports@[k as int], router_id@, dst_ip@));
                        }
                    }
                    return Some(p.port_id.clone());
                }
            }
        }
        k += 1;
    }
    assert(!exists|k2: int| #[trigger] is_first_toward(ports@, router_id@, dst_ip@, k2));
    None
}

/// The address of the first port holding `ip`, if it has one.
pub open spec fn host_mac_spec(ports: Seq<PortRef>, ip: Seq<char>) -> Option<Seq<char>> {
    if exists|g: int| #[trigger] is_first_with_ip(ports, ip, g) {
        let g = choose|g: int| #[trigger] is_first_with_ip(ports, ip, g);
        comm_mac_of(ports[g])
    } else {
        None
    }
}

/// After a router sends a frame out of `out_port`: the source address
/// becomes that port's own address, the destination address that of the
/// host holding the destination IP; where either is unknown it stays.
/// Addresses, payload and everything else are kept.
pub fn rewrite_router_macs(frame: &mut SimFrame, out_port: &PortRef, ports: &[PortRef])
    ensures
        final(frame).src_mac@ == match opt_str(out_port.port_mac) {
            Some(m) => m,
            None => old(frame).src_mac@,
        },
        final(frame).dst_mac@ == match host_mac_spec(ports@, old(frame).dst_ip@) {
            Some(m) => m,
            None => old(frame).dst_mac@,
        },
        final(frame).frame_id == old(frame).frame_id,
        final(frame).src_ip == old(frame).src_ip,
        final(frame).dst_ip == old(frame).dst_ip,
        final(frame).payload == old(frame).payload,
        final(frame).at_device_id == old(frame).at_device_id,
        final(frame).status == old(frame).status,
{
    if let Some(m) = clone_opt(&out_port.port_mac) {
        frame.src_mac = m;
    }
    let found = first_port_with_ip(ports, frame.dst_ip.as_str());
    let ghost dst = frame.dst_ip@;
    match found {
        Some(g) => {
            proof {
                let g2 = choose|g2: int| #[trigger] is_first_with_ip(ports@, dst, g2);
                if g2 < g {
                    assert(opt_str(ports@[g2].ip) != Some(dst));
                } else if g < g2 {
                    assert(opt_str(ports@[g as int].ip) != Some(dst));
                }
            }
            if let Some(m) = ports[g].comm_mac() {
                frame.dst_mac = m;
            }
        },
        None => {
            assert(!exists|g2: int| #[trigger] is_first_with_ip(ports@, dst, g2));
        },
    }
}

} // verus!
