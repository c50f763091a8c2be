//! Ports, cables and the tables a classroom derives from them: the link
//! list, the switches' MAC tables and the hosts' ARP tables.

use vstd::prelude::*;
use crate::kinds::DeviceKind;
use crate::text::{lemma_lt_asymmetric, lemma_lt_total, seq_le, seq_lt, str_eq, str_le, str_lt};
use vstd::string::StringExecFns;

verus! {

/// A cable between two ports, as the classroom sees it.
#[derive(Debug, Clone, PartialEq, Eq)]
pub struct LinkView {
    pub link_id: String,
    pub port_a: String,
    pub port_b: String,
    pub physically_up: bool,
}

/// A switch learned `mac` behind `port_id`.
#[derive(Debug, Clone, PartialEq, Eq)]
pub struct MacEntry {
    pub switch_id: String,
    pub port_id: String,
    pub mac: String,
}

/// Device `device_id` resolved `ip` to `mac`.
#[derive(Debug, Clone, PartialEq, Eq)]
pub struct ArpEntry {
    pub device_id: String,
    pub ip: String,
    pub mac: String,
}

/// One port together with what the tables need to know of its device.
#[derive(Debug, Clone)]
pub struct PortRef {
    pub device_id: String,
    pub kind: DeviceKind,
    pub device_mac: Option<String>,
    pub port_id: String,
    pub ip: Option<String>,
    pub gateway: Option<String>,
    pub peer_port_id: Option<String>,
    pub port_mac: Option<String>,
}

impl View for LinkView {
    type V = (Seq<char>, Seq<char>, Seq<char>, bool);

    open spec fn view(&self) -> Self::V {
        (self.link_id@, self.port_a@, self.port_b@, self.physically_up)
    }
}

impl View for MacEntry {
    type V = (Seq<char>, Seq<char>, Seq<char>);

    open spec fn view(&self) -> Self::V {
        (self.switch_id@, self.port_id@, self.mac@)
    }
}

impl View for ArpEntry {
    type V = (Seq<char>, Seq<char>, Seq<char>);

    open spec fn view(&self) -> Self::V {
        (self.device_id@, self.ip@, self.mac@)
    }
}

/// The text of an optional string.
pub open spec fn opt_str(o: Option<String>) -> Option<Seq<char>> {
    match o {
        Some(s) => Some(s@),
        None => None,
    }
}

/// The text of an optional string slice.
pub open spec fn opt_ref(o: Option<&str>) -> Option<Seq<char>> {
    match o {
        Some(s) => Some(s@),
        None => None,
    }
}

pub fn clone_opt(o: &Option<String>) -> (r: Option<String>)
    ensures
        r == *o,
{
    match o {
        Some(s) => Some(s.clone()),
        None => None,
    }
}

pub fn as_opt_ref(o: &Option<String>) -> (r: Option<&str>)
    ensures
        opt_ref(r) == opt_str(*o),
{
    match o {
        Some(s) => Some(s.as_str()),
        None => None,
    }
}

/// The address a port answers to on the wire: a PC's NIC address, a
/// router port's own address; switches and taps have none.
pub open spec fn comm_mac_of(p: PortRef) -> Option<Seq<char>> {
    match p.kind {
        DeviceKind::Pc => opt_str(p.device_mac),
        DeviceKind::Router => opt_str(p.port_mac),
        _ => None,
    }
}

impl PortRef {
    pub fn comm_mac(&self) -> (r: Option<String>)
        ensures
            opt_str(r) == comm_mac_of(*self),
    {
        match self.kind {
            DeviceKind::Pc => clone_opt(&self.device_mac),
            DeviceKind::Router => clone_opt(&self.port_mac),
            _ => None,
        }
    }

    pub fn copy(&self) -> (r: PortRef)
        ensures
            r == *self,
    {
        PortRef {
            device_id: self.device_id.clone(),
            kind: self.kind,
            device_mac: clone_opt(&self.device_mac),
            port_id: self.port_id.clone(),
            ip: clone_opt(&self.ip),
            gateway: clone_opt(&self.gateway),
            peer_port_id: clone_opt(&self.peer_port_id),
            port_mac: clone_opt(&self.port_mac),
        }
    }
}

impl LinkView {
    pub fn copy(&self) -> (r: LinkView)
        ensures
            r == *self,
    {
        LinkView {
            link_id: self.link_id.clone(),
            port_a: self.port_a.clone(),
            port_b: self.port_b.clone(),
            physically_up: self.physically_up,
        }
    }
}

impl MacEntry {
    pub fn copy(&self) -> (r: MacEntry)
        ensures
            r == *self,
    {
        MacEntry { switch_id: self.switch_id.clone(), port_id: self.port_id.clone(), mac: self.mac.clone() }
    }
}

impl ArpEntry {
    pub fn copy(&self) -> (r: ArpEntry)
        ensures
            r == *self,
    {
        ArpEntry { device_id: self.device_id.clone(), ip: self.ip.clone(), mac: self.mac.clone() }
    }
}

/// A copy of the link list.
pub fn copy_links(v: &Vec<LinkView>) -> (r: Vec<LinkView>)
    ensures
        r@ == v@,
{
    let mut out: Vec<LinkView> = Vec::new();
    let mut i: usize = 0;
    while i < v.len()
        invariant
            i <= v@.len(),
            out@ == v@.take(i as int),
        decreases v@.len() - i,
    {
        out.push(v[i].copy());
        i += 1;
        assert(out@ =~= v@.take(i as int));
    }
    assert(v@.take(v@.len() as int) =~= v@);
    out
}

/// A copy of a MAC table.
pub fn copy_mac_table(v: &Vec<MacEntry>) -> (r: Vec<MacEntry>)
    ensures
        r@ == v@,
{
    let mut out: Vec<MacEntry> = Vec::new();
    let mut i: usize = 0;
    while i < v.len()
        invariant
            i <= v@.len(),
            out@ == v@.take(i as int),
        decreases v@.len() - i,
    {
        out.push(v[i].copy());
        i += 1;
        assert(out@ =~= v@.take(i as int));
    }
    assert(v@.take(v@.len() as int) =~= v@);
    out
}

/// A copy of an ARP table.
pub fn copy_arp_table(v: &Vec<ArpEntry>) -> (r: Vec<ArpEntry>)
    ensures
        r@ == v@,
{
    let mut out: Vec<ArpEntry> = Vec::new();
    let mut i: usize = 0;
    while i < v.len()
        invariant
            i <= v@.len(),
            out@ == v@.take(i as int),
        decreases v@.len() - i,
    {
        out.push(v[i].copy());
        i += 1;
        assert(out@ =~= v@.take(i as int));
    }
    assert(v@.take(v@.len() as int) =~= v@);
    out
}

/// A cable is up when each end names the other as its peer.
pub open spec fn phys_up(
    a: Seq<char>,
    a_peer: Option<Seq<char>>,
    b: Seq<char>,
    b_peer: Option<Seq<char>>,
) -> bool {
    a_peer == Some(b) && b_peer == Some(a)
}

pub fn is_physically_up(a_id: &str, a_peer: Option<&str>, b_id: &str, b_peer: Option<&str>) -> (r:
    bool)
    ensures
        r == phys_up(a_id@, opt_ref(a_peer), b_id@, opt_ref(b_peer)),
{
    let a_ok = match a_peer {
        Some(p) => str_eq(p, b_id),
        None => false,
    };
    let b_ok = match b_peer {
        Some(p) => str_eq(p, a_id),
        None => false,
    };
    a_ok && b_ok
}

/// The two ends of a cable, smaller name first.
pub open spec fn ordered(a: Seq<char>, b: Seq<char>) -> (Seq<char>, Seq<char>) {
    if seq_le(a, b) {
        (a, b)
    } else {
        (b, a)
    }
}

pub fn ordered_pair<'a>(a: &'a str, b: &'a str) -> (r: (&'a str, &'a str))
    ensures
        (r.0@, r.1@) == ordered(a@, b@),
{
    if str_le(a, b) {
        (a, b)
    } else {
        (b, a)
    }
}

/// The name of the cable between two ports: `"{a}--{b}"`, smaller name first.
pub open spec fn link_name(a: Seq<char>, b: Seq<char>) -> Seq<char> {
    ordered(a, b).0 + "--"@ + ordered(a, b).1
}

pub fn link_id_for(a: &str, b: &str) -> (r: String)
    ensures
        r@ == link_name(a@, b@),
{
    let (x, y) = ordered_pair(a, b);
    let mut s = String::from_str(x);
    s.append("--");
    s.append(y);
    s
}

/// The order of the two ends does not matter to a cable's name.
pub proof fn lemma_link_name_symmetric(a: Seq<char>, b: Seq<char>)
    ensures
        link_name(a, b) == link_name(b, a),
        ordered(a, b) == ordered(b, a),
{
    lemma_lt_total(a, b);
    if seq_lt(a, b) {
        lemma_lt_asymmetric(a, b);
    } else if seq_lt(b, a) {
        lemma_lt_asymmetric(b, a);
    }
}

/// Whether some port is named `id`.
pub open spec fn port_exists(ports: Seq<PortRef>, id: Seq<char>) -> bool {
    exists|i: int| 0 <= i < ports.len() && #[trigger] ports[i].port_id@ == id
}

/// The index of the last port named `id`, or -1: what a lookup by name
/// built from the port list finds, later entries replacing earlier ones.
pub open spec fn last_port(ports: Seq<PortRef>, id: Seq<char>) -> int
    decreases ports.len(),
{
    if ports.len() == 0 {
        -1
    } else if ports.last().port_id@ == id {
        ports.len() - 1
    } else {
        last_port(ports.drop_last(), id)
    }
}

pub proof fn lemma_last_port(ports: Seq<PortRef>, id: Seq<char>)
    ensures
        -1 <= last_port(ports, id) < ports.len(),
        last_port(ports, id) >= 0 ==> ports[last_port(ports, id)].port_id@ == id,
        last_port(ports, id) >= 0 <==> port_exists(ports, id),
        forall|j: int| last_port(ports, id) < j < ports.len() ==> #[trigger] ports[j].port_id@ != id,
    decreases ports.len(),
{
    if ports.len() > 0 {
        lemma_last_port(ports.drop_last(), id);
        if ports.last().port_id@ != id {
            if port_exists(ports, id) {
                let i = choose|i: int| 0 <= i < ports.len() && #[trigger] ports[i].port_id@ == id;
                assert(ports.drop_last()[i].port_id@ == id);
            }
            assert forall|j: int| last_port(ports, id) < j < ports.len() implies #[trigger] ports[j].port_id@
                != id by {
                if j < ports.len() - 1 {
                    assert(ports.drop_last()[j] == ports[j]);
                }
            }
        } else {
            assert(ports[ports.len() - 1].port_id@ == id);
        }
    }
}

/// The peer named by the last port called `id`, if there is one.
pub open spec fn peer_named(ports: Seq<PortRef>, id: Seq<char>) -> Option<Seq<char>> {
    let i = last_port(ports, id);
    if i >= 0 {
        opt_str(ports[i].peer_port_id)
    } else {
        None
    }
}

pub fn find_last_port(ports: &[PortRef], id: &str) -> (r: Option<usize>)
    ensures
        match r {
            Some(i) => i == last_port(ports@, id@) && i < ports@.len(),
            None => last_port(ports@, id@) == -1,
        },
{
    let mut i = ports.len();
    assert(ports@.take(i as int) =~= ports@);
    while i > 0
        invariant
            i <= ports@.len(),
            last_port(ports@, id@) == last_port(ports@.take(i as int), id@),
        decreases i,
    {
        assert(ports@.take(i as int).last() == ports@[i - 1]);
        if str_eq(ports[i - 1].port_id.as_str(), id) {
            return Some(i - 1);
        }
        assert(ports@.take(i as int).drop_last() =~= ports@.take(i - 1));
        i -= 1;
    }
    None
}

/// The peer of the last port called `id`, as a lookup by port name finds it.
pub fn peer_of<'a>(ports: &'a [PortRef], id: &str) -> (r: Option<&'a str>)
    ensures
        opt_ref(r) == peer_named(ports@, id@),
{
    match find_last_port(ports, id) {
        Some(i) => as_opt_ref(&ports[i].peer_port_id),
        None => None,
    }
}

pub fn port_named(ports: &[PortRef], id: &str) -> (r: bool)
    ensures
        r == port_exists(ports@, id@),
{
    proof {
        lemma_last_port(ports@, id@);
    }
    find_last_port(ports, id).is_some()
}

/// Port `i` is cabled to a port that exists.
pub open spec fn cabled(ports: Seq<PortRef>, i: int) -> bool {
    &&& ports[i].peer_port_id is Some
    &&& port_exists(ports, ports[i].peer_port_id.unwrap()@)
}

/// The two ends of port `i`'s cable, smaller name first.
pub open spec fn cable_of(ports: Seq<PortRef>, i: int) -> (Seq<char>, Seq<char>) {
    ordered(ports[i].port_id@, ports[i].peer_port_id.unwrap()@)
}

/// What the link list says of the cable between `a` and `b`.
pub open spec fn link_for(ports: Seq<PortRef>, a: Seq<char>, b: Seq<char>) -> (
    Seq<char>,
    Seq<char>,
    Seq<char>,
    bool,
) {
    (link_name(a, b), a, b, phys_up(a, peer_named(ports, a), b, peer_named(ports, b)))
}

impl crate::sorting::SortKey for LinkView {
    open spec fn sort_key(&self) -> (Seq<char>, Seq<char>) {
        (self.link_id@, Seq::empty())
    }

    fn key_less(&self, other: &Self) -> (r: bool) {
        str_lt(self.link_id.as_str(), other.link_id.as_str())
    }
}

/// The two ends of a link.
pub open spec fn link_pair(l: LinkView) -> (Seq<char>, Seq<char>) {
    (l.port_a@, l.port_b@)
}

/// Some entry of `links` joins the two ends `p`.
pub open spec fn has_pair(links: Seq<LinkView>, p: (Seq<char>, Seq<char>)) -> bool {
    exists|k: int| 0 <= k < links.len() && #[trigger] link_pair(links[k]) == p
}

/// Some port is cabled with the two ends `p`.
pub open spec fn from_cable(ports: Seq<PortRef>, p: (Seq<char>, Seq<char>)) -> bool {
    exists|i: int| 0 <= i < ports.len() && cabled(ports, i) && #[trigger] cable_of(ports, i) == p
}

/// `links` holds exactly the cables that the ports name: one entry per pair
/// of ends, each as `link_for` describes it, sorted by name.
pub open spec fn links_of(ports: Seq<PortRef>, links: Seq<LinkView>) -> bool {
    &&& forall|k: int|
        0 <= k < links.len() ==> from_cable(ports, #[trigger] link_pair(links[k])) && links[k]@
            == link_for(ports, links[k].port_a@, links[k].port_b@)
    &&& forall|i: int| 0 <= i < ports.len() && #[trigger] cabled(ports, i) ==> has_pair(links, cable_of(ports, i))
    &&& forall|k1: int, k2: int|
        0 <= k1 < k2 < links.len() ==> #[trigger] link_pair(links[k1]) != #[trigger] link_pair(links[k2])
    &&& crate::sorting::sorted_by_key(links)
}

fn find_pair(links: &Vec<LinkView>, a: &str, b: &str) -> (r: bool)
    ensures
        r == has_pair(links@, (a@, b@)),
{
    let mut k: usize = 0;
    while k < links.len()
        invariant
            k <= links@.len(),
            forall|m: int| 0 <= m < k ==> #[trigger] link_pair(links@[m]) != (a@, b@),
        decreases links@.len() - k,
    {
        if str_eq(links[k].port_a.as_str(), a) && str_eq(links[k].port_b.as_str(), b) {
            assert(link_pair(links@[k as int]) == (a@, b@));
            return true;
        }
        k += 1;
    }
    false
}

pub proof fn lemma_ordered_le(a: Seq<char>, b: Seq<char>)
    ensures
        seq_le(ordered(a, b).0, ordered(a, b).1),
        link_name(ordered(a, b).0, ordered(a, b).1) == link_name(a, b),
{
    lemma_lt_total(a, b);
    let (x, y) = ordered(a, b);
    if seq_lt(x, y) {
        lemma_lt_asymmetric(x, y);
    }
}

/// The cables between the ports, each once, sorted by name.
pub fn rebuild_links(ports: &[PortRef]) -> (out: Vec<LinkView>)
    ensures
        links_of(ports@, out@),
{
    let mut out: Vec<LinkView> = Vec::new();
    let n = ports.len();
    let mut i: usize = 0;
    while i < n
        invariant
            i <= n,
            n == ports@.len(),
            forall|k: int| 0 <= k < out@.len() ==> from_cable(ports@, #[trigger] link_pair(out@[k])),
            forall|k: int|
                0 <= k < out@.len() ==> #[trigger] out@[k]@ == link_for(ports@, out@[k].port_a@, out@[k].port_b@),
            forall|j: int| 0 <= j < i && #[trigger] cabled(ports@, j) ==> has_pair(out@, cable_of(ports@, j)),
            forall|k1: int, k2: int|
                0 <= k1 < k2 < out@.len() ==> #[trigger] link_pair(out@[k1]) != #[trigger] link_pair(out@[k2]),
            crate::sorting::sorted_by_key(out@),
        decreases n - i,
    {
        let p = &ports[i];
        if let Some(peer) = &p.peer_port_id {
            if port_named(ports, peer.as_str()) {
                let (a, b) = ordered_pair(p.port_id.as_str(), peer.as_str());
                assert(cabled(ports@, i as int));
                assert(cable_of(ports@, i as int) == (a@, b@));
                if !find_pair(&out, a, b) {
                    let up = is_physically_up(a, peer_of(ports, a), b, peer_of(ports, b));
                    proof {
                        lemma_ordered_le(p.port_id@, peer@);
                    }
                    let link = LinkView {
                        link_id: link_id_for(a, b),
                        port_a: String::from_str(a),
                        port_b: String::from_str(b),
                        physically_up: up,
                    };
                    let ghost before = out@;
                    crate::sorting::insert_sorted(&mut out, link);
                    proof {
                        let kk = choose|kk: int| 0 <= kk <= before.len() && out@ == before.insert(kk, link);
                        assert(link_pair(out@[kk]) == (a@, b@));
                        assert forall|k: int|
                            0 <= k < out@.len() implies from_cable(ports@, #[trigger] link_pair(out@[k])) && out@[k]@
                                == link_for(ports@, out@[k].port_a@, out@[k].port_b@) by {
                            if k < kk {
                                assert(out@[k] == before[k]);
                                assert(from_cable(ports@, link_pair(before[k])));
                            } else if k == kk {
                                assert(out@[k] == link);
                                assert(cable_of(ports@, i as int) == link_pair(out@[k]));
                            } else {
                                assert(out@[k] == before[k - 1]);
                                assert(from_cable(ports@, link_pair(before[k - 1])));
                            }
                        }
                        assert forall|j: int| 0 <= j < i && #[trigger] cabled(ports@, j) implies has_pair(
                            out@,
                            cable_of(ports@, j),
                        ) by {
                            let k0 = choose|k0: int|
                                0 <= k0 < before.len() && #[trigger] link_pair(before[k0]) == cable_of(ports@, j);
                            if k0 < kk {
                                assert(out@[k0] == before[k0]);
                            } else {
                                assert(out@[k0 + 1] == before[k0]);
                            }
                        }
                        assert forall|k1: int, k2: int|
                            0 <= k1 < k2 < out@.len() implies #[trigger] link_pair(out@[k1]) != #[trigger] link_pair(
                                out@[k2],
                            ) by {
                            let o1 = if k1 < kk { k1 } else if k1 == kk { -1 } else { k1 - 1 };
                            let o2 = if k2 < kk { k2 } else if k2 == kk { -1 } else { k2 - 1 };
                            if o1 >= 0 {
                                assert(out@[k1] == before[o1]);
                            }
                            if o2 >= 0 {
                                assert(out@[k2] == before[o2]);
                            }
                        }
                    }
                }
                assert(has_pair(out@, cable_of(ports@, i as int)));
            }
        }
        i += 1;
    }
    out
}

impl crate::sorting::SortKey for MacEntry {
    open spec fn sort_key(&self) -> (Seq<char>, Seq<char>) {
        (self.switch_id@, self.port_id@)
    }

    fn key_less(&self, other: &Self) -> (r: bool) {
        str_lt(self.switch_id.as_str(), other.switch_id.as_str()) || (str_eq(
            self.switch_id.as_str(),
            other.switch_id.as_str(),
        ) && str_lt(self.port_id.as_str(), other.port_id.as_str()))
    }
}

/// What a switch port learns: the address of the port at the other end of
/// its cable, when the cable is up and that port has an address.
pub open spec fn mac_entry_of(ports: Seq<PortRef>, i: int) -> Option<(Seq<char>, Seq<char>, Seq<char>)> {
    let p = ports[i];
    if p.kind == DeviceKind::Switch && p.peer_port_id is Some {
        let pid = p.peer_port_id.unwrap()@;
        let j = last_port(ports, pid);
        if j >= 0 && phys_up(p.port_id@, opt_str(p.peer_port_id), pid, opt_str(ports[j].peer_port_id))
            && comm_mac_of(ports[j]) is Some {
            Some((p.device_id@, p.port_id@, comm_mac_of(ports[j]).unwrap()))
        } else {
            None
        }
    } else {
        None
    }
}

/// The entries the first `n` ports contribute, in port order.
pub open spec fn mac_candidates(ports: Seq<PortRef>, n: int) -> Seq<(Seq<char>, Seq<char>, Seq<char>)>
    decreases n,
{
    if n <= 0 {
        Seq::empty()
    } else {
        let c = mac_candidates(ports, n - 1);
        match mac_entry_of(ports, n - 1) {
            Some(e) => c.push(e),
            None => c,
        }
    }
}

pub open spec fn mac_views(s: Seq<MacEntry>) -> Seq<(Seq<char>, Seq<char>, Seq<char>)> {
    s.map_values(|e: MacEntry| e@)
}

/// Every switch port's learned address, sorted by switch and port.
pub fn rebuild_mac_table(ports: &[PortRef], links: &[LinkView]) -> (out: Vec<MacEntry>)
    ensures
        mac_views(out@).to_multiset() == mac_candidates(ports@, ports@.len() as int).to_multiset(),
        crate::sorting::sorted_by_key(out@),
        forall|k: int| 0 <= k < out@.len() ==> #[trigger] crate::laws::mac_entry_learned(ports@, out@[k]@),
{
    broadcast use vstd::seq_lib::group_to_multiset_ensures;
    let mut out: Vec<MacEntry> = Vec::new();
    let n = ports.len();
    let mut i: usize = 0;
    assert(mac_views(out@) =~= Seq::empty());
    while i < n
        invariant
            i <= n,
            n == ports@.len(),
            mac_views(out@).to_multiset() == mac_candidates(ports@, i as int).to_multiset(),
            crate::sorting::sorted_by_key(out@),
        decreases n - i,
    {
        let p = &ports[i];
        if p.kind == DeviceKind::Switch {
            if let Some(peer_id) = &p.peer_port_id {
                if let Some(j) = find_last_port(ports, peer_id.as_str()) {
                    let peer = &ports[j];
                    if is_physically_up(
                        p.port_id.as_str(),
                        as_opt_ref(&p.peer_port_id),
                        peer_id.as_str(),
                        as_opt_ref(&peer.peer_port_id),
                    ) {
                        if let Some(mac) = peer.comm_mac() {
                            let e = MacEntry {
                                switch_id: p.device_id.clone(),
                                port_id: p.port_id.clone(),
                                mac,
                            };
                            assert(mac_entry_of(ports@, i as int) == Some(e@));
                            let ghost before = out@;
                            let ghost ev = e@;
                            crate::sorting::insert_sorted(&mut out, e);
                            proof {
                                let kk = choose|kk: int| 0 <= kk <= before.len() && out@ == before.insert(kk, e);
                                assert(mac_views(out@) =~= mac_views(before).insert(kk, ev));
                                crate::sorting::lemma_insert_multiset(mac_views(before), kk, ev);
                                assert(mac_candidates(ports@, i + 1) == mac_candidates(ports@, i as int).push(ev));
                                mac_candidates(ports@, i as int).to_multiset_ensures();
                                assert(mac_candidates(ports@, i + 1).to_multiset() == mac_candidates(
                                    ports@,
                                    i as int,
                                ).to_multiset().insert(ev));
                            }
                        }
                    }
                }
            }
        }
        i += 1;
    }
    proof {
        crate::laws::law_mac_entries_learned(ports@, out@);
    }
    out
}

} // verus!
