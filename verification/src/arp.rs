//! The hosts' ARP tables.

use vstd::prelude::*;
use crate::addr::{same_c_class, same_c_spec};
use crate::kinds::DeviceKind;
use crate::reach::{l2_reachable, l2_spec};
use crate::sorting::{insert_sorted, sorted_by_key, SortKey};
use crate::text::{str_eq, str_lt};
use crate::topo::{comm_mac_of, opt_str, ArpEntry, LinkView, PortRef};

verus! {

pub type ArpView = (Seq<char>, Seq<char>, Seq<char>);

impl SortKey for ArpEntry {
    open spec fn sort_key(&self) -> (Seq<char>, Seq<char>) {
        (self.device_id@, self.ip@)
    }

    fn key_less(&self, other: &Self) -> (r: bool) {
        str_lt(self.device_id.as_str(), other.device_id.as_str()) || (str_eq(
            self.device_id.as_str(),
            other.device_id.as_str(),
        ) && str_lt(self.ip.as_str(), other.ip.as_str()))
    }
}

pub open spec fn arp_key(e: ArpView) -> (Seq<char>, Seq<char>) {
    (e.0, e.1)
}

/// Port `id` is an end of some up cable.
pub open spec fn port_up(links: Seq<LinkView>, id: Seq<char>) -> bool {
    exists|k: int|
        0 <= k < links.len() && #[trigger] links[k].physically_up && (links[k].port_a@ == id
            || links[k].port_b@ == id)
}

/// Port `i` learns addresses: it belongs to a PC or a router, has an
/// address and sits on an up cable.
pub open spec fn arp_eligible(ports: Seq<PortRef>, links: Seq<LinkView>, i: int) -> bool {
    &&& (ports[i].kind == DeviceKind::Pc || ports[i].kind == DeviceKind::Router)
    &&& ports[i].ip is Some
    &&& port_up(links, ports[i].port_id@)
}

/// What port `i` learns of port `o`: another port on its network that has
/// an address of its own.
pub open spec fn arp_other(ports: Seq<PortRef>, i: int, o: int) -> Option<ArpView> {
    let p = ports[i];
    let q = ports[o];
    if q.port_id@ != p.port_id@ && q.ip is Some && same_c_spec(p.ip.unwrap()@, q.ip.unwrap()@)
        && comm_mac_of(q) is Some {
        Some((p.device_id@, q.ip.unwrap()@, comm_mac_of(q).unwrap()))
    } else {
        None
    }
}

pub open spec fn arp_others(ports: Seq<PortRef>, i: int, m: int) -> Seq<ArpView>
    decreases m,
{
    if m <= 0 {
        Seq::empty()
    } else {
        let c = arp_others(ports, i, m - 1);
        match arp_other(ports, i, m - 1) {
            Some(e) => c.push(e),
            None => c,
        }
    }
}

/// Port `g` is the first port whose address is `ip`.
pub open spec fn is_first_with_ip(ports: Seq<PortRef>, ip: Seq<char>, g: int) -> bool {
    &&& 0 <= g < ports.len()
    &&& opt_str(ports[g].ip) == Some(ip)
    &&& forall|m: int| 0 <= m < g ==> #[trigger] opt_str(ports[m].ip) != Some(ip)
}

/// What a PC port learns of its gateway: the address of the first port
/// holding the gateway address, when that port is reachable at layer 2.
pub open spec fn arp_gateway(ports: Seq<PortRef>, links: Seq<LinkView>, i: int) -> Option<ArpView> {
    let p = ports[i];
    if p.kind == DeviceKind::Pc && p.gateway is Some {
        let gw = p.gateway.unwrap()@;
        if exists|g: int| #[trigger] is_first_with_ip(ports, gw, g) {
            let g = choose|g: int| #[trigger] is_first_with_ip(ports, gw, g);
            if l2_spec(ports, links, p.port_id@, ports[g].port_id@) && comm_mac_of(ports[g]) is Some {
                Some((p.device_id@, gw, comm_mac_of(ports[g]).unwrap()))
            } else {
                None
            }
        } else {
            None
        }
    } else {
        None
    }
}

pub open spec fn opt_seq(o: Option<ArpView>) -> Seq<ArpView> {
    match o {
        Some(e) => seq![e],
        None => Seq::empty(),
    }
}

/// What port `i` learns, in order: the other ports, then the gateway.
pub open spec fn arp_of_port(ports: Seq<PortRef>, links: Seq<LinkView>, i: int) -> Seq<ArpView> {
    if arp_eligible(ports, links, i) {
        arp_others(ports, i, ports.len() as int) + opt_seq(arp_gateway(ports, links, i))
    } else {
        Seq::empty()
    }
}

/// What the first `n` ports learn, in port order.
pub open spec fn arp_candidates(ports: Seq<PortRef>, links: Seq<LinkView>, n: int) -> Seq<ArpView>
    decreases n,
{
    if n <= 0 {
        Seq::empty()
    } else {
        arp_candidates(ports, links, n - 1) + arp_of_port(ports, links, n - 1)
    }
}

/// Candidate `c` is the first with its key.
pub open spec fn first_of_key(cands: Seq<ArpView>, c: int) -> bool {
    &&& 0 <= c < cands.len()
    &&& forall|c2: int| 0 <= c2 < c ==> arp_key(#[trigger] cands[c2]) != arp_key(cands[c])
}

pub open spec fn has_key(out: Seq<ArpEntry>, key: (Seq<char>, Seq<char>)) -> bool {
    exists|k: int| 0 <= k < out.len() && #[trigger] out[k].sort_key() == key
}

pub open spec fn has_first(cands: Seq<ArpView>, e: ArpView) -> bool {
    exists|c: int| #[trigger] first_of_key(cands, c) && cands[c] == e
}

/// The table keeps, for each device and address, the first answer learned,
/// once, sorted by device and address.
pub open spec fn arp_table_of(cands: Seq<ArpView>, out: Seq<ArpEntry>) -> bool {
    &&& sorted_by_key(out)
    &&& forall|k1: int, k2: int|
        0 <= k1 < k2 < out.len() ==> #[trigger] out[k1].sort_key() != #[trigger] out[k2].sort_key()
    &&& forall|k: int| 0 <= k < out.len() ==> #[trigger] has_first(cands, out[k]@)
    &&& forall|c: int| 0 <= c < cands.len() ==> #[trigger] has_key(out, arp_key(cands[c]))
}

fn find_key(out: &Vec<ArpEntry>, device_id: &str, ip: &str) -> (r: bool)
    ensures
        r == has_key(out@, (device_id@, ip@)),
{
    let mut k: usize = 0;
    while k < out.len()
        invariant
            k <= out@.len(),
            forall|m: int| 0 <= m < k ==> #[trigger] out@[m].sort_key() != (device_id@, ip@),
        decreases out@.len() - k,
    {
        if str_eq(out[k].device_id.as_str(), device_id) && str_eq(out[k].ip.as_str(), ip) {
            assert(out@[k as int].sort_key() == (device_id@, ip@));
            return true;
        }
        k += 1;
    }
    false
}

/// Learns `(device_id, ip) -> mac` unless that device already knows `ip`.
fn push_arp(out: &mut Vec<ArpEntry>, device_id: &str, ip: &str, mac: String, Ghost(done): Ghost<Seq<ArpView>>)
    requires
        arp_table_of(done, old(out)@),
    ensures
        arp_table_of(done.push((device_id@, ip@, mac@)), final(out)@),
{
    let ghost e = (device_id@, ip@, mac@);
    let ghost nd = done.push(e);
    if find_key(out, device_id, ip) {
        proof {
            assert forall|k: int| 0 <= k < out@.len() implies #[trigger] has_first(nd, out@[k]@) by {
                assert(has_first(done, out@[k]@));
                let c = choose|c: int| #[trigger] first_of_key(done, c) && done[c] == out@[k]@;
                assert(first_of_key(nd, c));
            }
            assert forall|c: int| 0 <= c < nd.len() implies #[trigger] has_key(out@, arp_key(nd[c])) by {
                if c < done.len() {
                    assert(nd[c] == done[c]);
                    assert(has_key(out@, arp_key(done[c])));
                }
            }
        }
        return;
    }
    let entry = ArpEntry { device_id: device_id.to_owned(), ip: ip.to_owned(), mac };
    let ghost before = out@;
    insert_sorted(out, entry);
    proof {
        let kk = choose|kk: int| 0 <= kk <= before.len() && out@ == before.insert(kk, entry);
        assert(entry@ == e);
        assert forall|k1: int, k2: int|
            0 <= k1 < k2 < out@.len() implies #[trigger] out@[k1].sort_key() != #[trigger] out@[k2].sort_key() by {
            let o1 = if k1 < kk { k1 } else if k1 == kk { -1 } else { k1 - 1 };
            let o2 = if k2 < kk { k2 } else if k2 == kk { -1 } else { k2 - 1 };
            if o1 >= 0 {
                assert(out@[k1] == before[o1]);
            }
            if o2 >= 0 {
                assert(out@[k2] == before[o2]);
            }
        }
        assert forall|k: int| 0 <= k < out@.len() implies #[trigger] has_first(nd, out@[k]@) by {
            if k == kk {
                assert forall|c2: int| 0 <= c2 < done.len() implies arp_key(#[trigger] nd[c2]) != arp_key(nd[done.len() as int]) by {
                    assert(nd[c2] == done[c2]);
                    assert(has_key(before, arp_key(done[c2])));
                }
                assert(first_of_key(nd, done.len() as int));
            } else {
                let o = if k < kk { k } else { k - 1 };
                assert(out@[k] == before[o]);
                assert(has_first(done, before[o]@));
                let c = choose|c: int| #[trigger] first_of_key(done, c) && done[c] == before[o]@;
                assert(first_of_key(nd, c));
            }
        }
        assert forall|c: int| 0 <= c < nd.len() implies #[trigger] has_key(out@, arp_key(nd[c])) by {
            if c < done.len() {
                assert(nd[c] == done[c]);
                assert(has_key(before, arp_key(done[c])));
                let k = choose|k: int| 0 <= k < before.len() && #[trigger] before[k].sort_key() == arp_key(done[c]);
                if k < kk {
                    assert(out@[k] == before[k]);
                } else {
                    assert(out@[k + 1] == before[k]);
                }
            } else {
                assert(out@[kk].sort_key() == arp_key(nd[c]));
            }
        }
    }
}

fn port_is_up(links: &[LinkView], id: &str) -> (r: bool)
    ensures
        r == port_up(links@, id@),
{
    let mut k: usize = 0;
    while k < links.len()
        invariant
            k <= links@.len(),
            forall|m: int|
                0 <= m < k ==> !(#[trigger] links@[m].physically_up && (links@[m].port_a@ == id@
                    || links@[m].port_b@ == id@)),
        decreases links@.len() - k,
    {
        let l = &links[k];
        if l.physically_up && (str_eq(l.port_a.as_str(), id) || str_eq(l.port_b.as_str(), id)) {
            return true;
        }
        k += 1;
    }
    false
}

pub fn first_port_with_ip(ports: &[PortRef], ip: &str) -> (r: Option<usize>)
    ensures
        match r {
            Some(g) => is_first_with_ip(ports@, ip@, g as int),
            None => forall|m: int| 0 <= m < ports@.len() ==> #[trigger] opt_str(ports@[m].ip) != Some(ip@),
        },
{
    let mut m: usize = 0;
    while m < ports.len()
        invariant
            m <= ports@.len(),
            forall|k: int| 0 <= k < m ==> #[trigger] opt_str(ports@[k].ip) != Some(ip@),
        decreases ports@.len() - m,
    {
        match &ports[m].ip {
            Some(x) => {
                if str_eq(x.as_str(), ip) {
                    return Some(m);
                }
            },
            None => {},
        }
        m += 1;
    }
    None
}

/// For every PC and router port on an up cable: the ports on its network
/// with an address, and for a PC its gateway when reachable; each device
/// keeps the first answer for each address; sorted by device and address.
pub fn rebuild_arp_table(ports: &[PortRef], links: &[LinkView]) -> (out: Vec<ArpEntry>)
    ensures
        arp_table_of(arp_candidates(ports@, links@, ports@.len() as int), out@),
        forall|k: int| 0 <= k < out@.len() ==> #[trigger] crate::laws::arp_entry_local(ports@, links@, out@[k]),
{
    let mut out: Vec<ArpEntry> = Vec::new();
    let n = ports.len();
    let mut i: usize = 0;
    assert(arp_table_of(arp_candidates(ports@, links@, 0), out@));
    while i < n
        invariant
            i <= n,
            n == ports@.len(),
            arp_table_of(arp_candidates(ports@, links@, i as int), out@),
        decreases n - i,
    {
        let p = &ports[i];
        let ghost base = arp_candidates(ports@, links@, i as int);
        if (p.kind == DeviceKind::Pc || p.kind == DeviceKind::Router) && p.ip.is_some() && port_is_up(
            links,
            p.port_id.as_str(),
        ) {
            let ip = match &p.ip {
                Some(x) => x.as_str(),
                None => {
                    proof {
                        crate::laws::law_arp_entries_local(ports@, links@, out@);
                    }
                    return out;
                },
            };
            let mut o: usize = 0;
            assert(base + arp_others(ports@, i as int, 0) =~= base);
            while o < n
                invariant
                    o <= n,
                    i < n,
                    n == ports@.len(),
                    *p == ports@[i as int],
                    p.ip is Some && ip@ == p.ip.unwrap()@,
                    base == arp_candidates(ports@, links@, i as int),
                    arp_table_of(base + arp_others(ports@, i as int, o as int), out@),
                decreases n - o,
            {
                let q = &ports[o];
                let ghost prev = base + arp_others(ports@, i as int, o as int);
                if !str_eq(q.port_id.as_str(), p.port_id.as_str()) {
                    if let Some(oip) = &q.ip {
                        if same_c_class(ip, oip.as_str()) {
                            if let Some(mac) = q.comm_mac() {
                                assert(arp_other(ports@, i as int, o as int) == Some((p.device_id@, oip@, mac@)));
                                push_arp(&mut out, p.device_id.as_str(), oip.as_str(), mac, Ghost(prev));
                                assert(prev.push((p.device_id@, oip@, mac@)) =~= base + arp_others(ports@, i as int, o + 1));
                            }
                        }
                    }
                }
                o += 1;
            }
            let ghost prev = base + arp_others(ports@, i as int, n as int);
            let mut learned = false;
            if p.kind == DeviceKind::Pc {
                if let Some(gw) = &p.gateway {
                    if let Some(g) = first_port_with_ip(ports, gw.as_str()) {
                        let gp = &ports[g];
                        proof {
                            assert(is_first_with_ip(ports@, gw@, g as int));
                            let g2 = choose|g2: int| #[trigger] is_first_with_ip(ports@, gw@, g2);
                            if g2 < g {
                                assert(opt_str(ports@[g2].ip) != Some(gw@));
                            } else if g < g2 {
                                assert(opt_str(ports@[g as int].ip) != Some(gw@));
                            }
                        }
                        if l2_reachable(p.port_id.as_str(), gp.port_id.as_str(), ports, links) {
                            if let Some(mac) = gp.comm_mac() {
                                assert(arp_gateway(ports@, links@, i as int) == Some((p.device_id@, gw@, mac@)));
                                push_arp(&mut out, p.device_id.as_str(), gw.as_str(), mac, Ghost(prev));
                                assert(prev.push((p.device_id@, gw@, mac@)) =~= arp_candidates(ports@, links@, i + 1));
                                learned = true;
                            }
                        }
                    } else {
                        assert(!exists|g: int| #[trigger] is_first_with_ip(ports@, gw@, g));
                    }
                }
            }
            if !learned {
                assert(arp_gateway(ports@, links@, i as int) is None);
                assert(prev =~= arp_candidates(ports@, links@, i + 1));
            }
        } else {
            assert(arp_candidates(ports@, links@, i + 1) =~= base);
        }
        i += 1;
    }
    proof {
        crate::laws::law_arp_entries_local(ports@, links@, out@);
    }
    out
}

} // verus!
