//! The teacher's inventory and its expansion into devices and ports.

use vstd::prelude::*;
use crate::addr::MASK_C;
use crate::ids::{mac_text, new_unicast_mac, next_seq, port_id, port_name};
use crate::kinds::DeviceKind;
use crate::text::{lemma_dec_pad2_injective, str_eq};
use crate::topo::{clone_opt, opt_str};
use vstd::string::StringExecFns;

verus! {

#[derive(Debug, Clone)]
pub struct Inventory {
    pub routers: Vec<RouterSpec>,
    pub switches: Vec<SwitchSpec>,
    pub pcs: Vec<PcSpec>,
    pub taps: Vec<TapSpec>,
}

#[derive(Debug, Clone)]
pub struct RouterSpec {
    pub id: String,
    pub port_count: u32,
    pub ports: Vec<PortSpec>,
}

#[derive(Debug, Clone)]
pub struct SwitchSpec {
    pub id: String,
    pub port_count: u32,
}

#[derive(Debug, Clone)]
pub struct PcSpec {
    pub id: String,
}

#[derive(Debug, Clone)]
pub struct TapSpec {
    pub id: String,
}

/// A router port whose address the teacher fixes in advance.
#[derive(Debug, Clone)]
pub struct PortSpec {
    pub id: String,
    pub ip: Option<String>,
}

#[derive(Debug, Clone)]
pub struct MaterializedPort {
    pub id: String,
    pub ip: Option<String>,
    pub mask: String,
    pub gateway: Option<String>,
    pub peer_port_id: Option<String>,
    pub mac: Option<String>,
}

#[derive(Debug, Clone)]
pub struct MaterializedDevice {
    pub id: String,
    pub kind: DeviceKind,
    pub mac: Option<String>,
    pub ports: Vec<MaterializedPort>,
}

impl Default for Inventory {
    fn default() -> (r: Self)
        ensures
            r.routers@.len() == 0,
            r.switches@.len() == 0,
            r.pcs@.len() == 0,
            r.taps@.len() == 0,
    {
        Inventory { routers: Vec::new(), switches: Vec::new(), pcs: Vec::new(), taps: Vec::new() }
    }
}

impl MaterializedPort {
    pub fn copy(&self) -> (r: Self)
        ensures
            r == *self,
    {
        MaterializedPort {
            id: self.id.clone(),
            ip: clone_opt(&self.ip),
            mask: self.mask.clone(),
            gateway: clone_opt(&self.gateway),
            peer_port_id: clone_opt(&self.peer_port_id),
            mac: clone_opt(&self.mac),
        }
    }
}

/// The counter `k` steps after `n`, wrapping around at the top.
pub open spec fn seq_plus(n: u64, k: nat) -> u64 {
    ((n + k) % 0x1_0000_0000_0000_0000) as u64
}

pub proof fn lemma_seq_plus_next(n: u64, k: nat)
    ensures
        next_seq(seq_plus(n, k)) == seq_plus(n, k + 1),
        seq_plus(n, 0) == n,
{
}

pub proof fn lemma_seq_plus_add(n: u64, a: nat, b: nat)
    ensures
        seq_plus(seq_plus(n, a), b) == seq_plus(n, a + b),
{
    let m: int = 0x1_0000_0000_0000_0000;
    vstd::arithmetic::div_mod::lemma_add_mod_noop_right(b as int, (n + a) as int, m);
    assert(((n + a) % m + b) % m == (n + a + b) % m);
}

/// Port `k` (from 0) of device `device_id`, freshly made: named
/// `device_id/{k+1:02}`, the class C mask, no gateway, no cable.
pub open spec fn port_shape(
    p: MaterializedPort,
    device_id: Seq<char>,
    k: nat,
    ip: Option<Seq<char>>,
    mac: Option<Seq<char>>,
) -> bool {
    &&& p.id@ == port_name(device_id, k + 1)
    &&& opt_str(p.ip) == ip
    &&& p.mask@ == MASK_C@
    &&& p.gateway is None
    &&& p.peer_port_id is None
    &&& opt_str(p.mac) == mac
}

/// Port names of one device differ from each other.
pub proof fn lemma_port_name_injective(device_id: Seq<char>, a: nat, b: nat)
    requires
        port_name(device_id, a) == port_name(device_id, b),
    ensures
        a == b,
{
    reveal_strlit("/");
    let l = device_id.len() + 1;
    let x = port_name(device_id, a);
    assert(x.subrange(l as int, x.len() as int) =~= crate::text::dec_pad2(a));
    let y = port_name(device_id, b);
    assert(y.subrange(l as int, y.len() as int) =~= crate::text::dec_pad2(b));
    lemma_dec_pad2_injective(a, b);
}

/// `count` ports named `device_id/01`, `device_id/02`, ...; with `with_mac`
/// each takes the next generated address.
pub fn numbered_ports(device_id: &str, count: u32, with_mac: bool, mac_seq: &mut u64) -> (out: Vec<
    MaterializedPort,
>)
    ensures
        out@.len() == count,
        forall|k: int|
            0 <= k < count ==> port_shape(
                #[trigger] out@[k],
                device_id@,
                k as nat,
                None,
                if with_mac {
                    Some(mac_text(seq_plus(*old(mac_seq), k as nat) as nat))
                } else {
                    None
                },
            ),
        *final(mac_seq) == if with_mac {
            seq_plus(*old(mac_seq), count as nat)
        } else {
            *old(mac_seq)
        },
{
    let mut out: Vec<MaterializedPort> = Vec::new();
    let mut i: u32 = 0;
    let ghost start = *mac_seq;
    while i < count
        invariant
            i <= count,
            out@.len() == i,
            start == *old(mac_seq),
            *mac_seq == if with_mac {
                seq_plus(start, i as nat)
            } else {
                start
            },
            forall|k: int|
                0 <= k < i ==> port_shape(
                    #[trigger] out@[k],
                    device_id@,
                    k as nat,
                    None,
                    if with_mac {
                        Some(mac_text(seq_plus(start, k as nat) as nat))
                    } else {
                        None
                    },
                ),
        decreases count - i,
    {
        let mac = if with_mac {
            proof {
                lemma_seq_plus_next(start, i as nat);
            }
            Some(new_unicast_mac(mac_seq))
        } else {
            None
        };
        out.push(
            MaterializedPort {
                id: port_id(device_id, i + 1),
                ip: None,
                mask: String::from_str(MASK_C),
                gateway: None,
                peer_port_id: None,
                mac,
            },
        );
        i += 1;
    }
    out
}

/// The address the inventory fixes for port `id`: that of the last preset
/// naming it, if any.
pub open spec fn preset_ip(presets: Seq<PortSpec>, id: Seq<char>) -> Option<Seq<char>>
    decreases presets.len(),
{
    if presets.len() == 0 {
        None
    } else if presets.last().id@ == id {
        opt_str(presets.last().ip)
    } else {
        preset_ip(presets.drop_last(), id)
    }
}

/// A router has as many ports as it declares, or as it has presets if that
/// is more (counted as `u32`, as the code counts).
pub open spec fn router_port_count(r: RouterSpec) -> nat {
    let n = r.ports@.len() as u32;
    if r.port_count >= n {
        r.port_count as nat
    } else {
        n as nat
    }
}

/// The generated addresses used by the routers before router `k`.
pub open spec fn macs_before(routers: Seq<RouterSpec>, k: int) -> nat
    decreases k,
{
    if k <= 0 {
        0
    } else {
        macs_before(routers, k - 1) + router_port_count(routers[k - 1])
    }
}

/// The device made for router `r`, whose addresses start at counter `start`.
pub open spec fn router_device(d: MaterializedDevice, r: RouterSpec, start: u64) -> bool {
    &&& d.id@ == r.id@
    &&& d.kind == DeviceKind::Router
    &&& d.mac is None
    &&& d.ports@.len() == router_port_count(r)
    &&& forall|k: int|
        0 <= k < d.ports@.len() ==> port_shape(
            #[trigger] d.ports@[k],
            r.id@,
            k as nat,
            preset_ip(r.ports@, port_name(r.id@, (k + 1) as nat)),
            Some(mac_text(seq_plus(start, k as nat) as nat)),
        )
}

/// A device of kind `kind` named `id` with `count` plain ports.
pub open spec fn plain_device(d: MaterializedDevice, id: Seq<char>, kind: DeviceKind, count: nat) -> bool {
    &&& d.id@ == id
    &&& d.kind == kind
    &&& d.mac is None
    &&& d.ports@.len() == count
    &&& forall|k: int| 0 <= k < count ==> port_shape(#[trigger] d.ports@[k], id, k as nat, None, None)
}

fn router_ports(r: &RouterSpec, mac_seq: &mut u64) -> (out: Vec<MaterializedPort>)
    ensures
        out@.len() == router_port_count(*r),
        forall|k: int|
            0 <= k < out@.len() ==> port_shape(
                #[trigger] out@[k],
                r.id@,
                k as nat,
                preset_ip(r.ports@, port_name(r.id@, (k + 1) as nat)),
                Some(mac_text(seq_plus(*old(mac_seq), k as nat) as nat)),
            ),
        *final(mac_seq) == seq_plus(*old(mac_seq), router_port_count(*r)),
{
    let n = r.ports.len() as u32;
    let count = if r.port_count >= n {
        r.port_count
    } else {
        n
    };
    let ghost start = *mac_seq;
    let mut ports = numbered_ports(r.id.as_str(), count, true, mac_seq);
    let mut j: usize = 0;
    assert(r.ports@.take(0) =~= Seq::<PortSpec>::empty());
    while j < r.ports.len()
        invariant
            j <= r.ports@.len(),
            ports@.len() == count,
            count == router_port_count(*r),
            forall|k: int|
                0 <= k < count ==> port_shape(
                    #[trigger] ports@[k],
                    r.id@,
                    k as nat,
                    preset_ip(r.ports@.take(j as int), port_name(r.id@, (k + 1) as nat)),
                    Some(mac_text(seq_plus(start, k as nat) as nat)),
                ),
        decreases r.ports@.len() - j,
    {
        let preset = &r.ports[j];
        let ghost pre = r.ports@.take(j + 1);
        assert(pre.drop_last() =~= r.ports@.take(j as int));
        assert(pre.last() == *preset);
        let mut idx: usize = 0;
        while idx < ports.len() && !str_eq(ports[idx].id.as_str(), preset.id.as_str())
            invariant
                idx <= ports@.len(),
                forall|m: int| 0 <= m < idx ==> #[trigger] ports@[m].id@ != preset.id@,
            decreases ports@.len() - idx,
        {
            idx += 1;
        }
        if idx < ports.len() {
            let mut port = ports[idx].copy();
            port.ip = clone_opt(&preset.ip);
            let ghost before = ports@;
            ports.set(idx, port);
            proof {
                assert forall|k: int| 0 <= k < count implies port_shape(
                    #[trigger] ports@[k],
                    r.id@,
                    k as nat,
                    preset_ip(pre, port_name(r.id@, (k + 1) as nat)),
                    Some(mac_text(seq_plus(start, k as nat) as nat)),
                ) by {
                    if k != idx {
                        assert(ports@[k] == before[k]);
                        if port_name(r.id@, (k + 1) as nat) == preset.id@ {
                            lemma_port_name_injective(r.id@, (k + 1) as nat, (idx + 1) as nat);
                        }
                    }
                }
            }
        } else {
            assert forall|k: int| 0 <= k < count implies port_shape(
                #[trigger] ports@[k],
                r.id@,
                k as nat,
                preset_ip(pre, port_name(r.id@, (k + 1) as nat)),
                Some(mac_text(seq_plus(start, k as nat) as nat)),
            ) by {
                assert(ports@[k].id@ != preset.id@);
            }
        }
        j += 1;
    }
    assert(r.ports@.take(r.ports@.len() as int) =~= r.ports@);
    ports
}

/// The devices made from the inventory, their generated addresses starting
/// at counter `start`, as `materialize_inventory` makes them.
pub open spec fn materializes(inv: Inventory, start: u64, out: Seq<MaterializedDevice>) -> bool {
    &&& out.len() == inv.routers@.len() + inv.switches@.len() + inv.pcs@.len() + inv.taps@.len()
    &&& forall|i: int|
        0 <= i < inv.routers@.len() ==> router_device(
            #[trigger] out[i],
            inv.routers@[i],
            seq_plus(start, macs_before(inv.routers@, i)),
        )
    &&& forall|i: int|
        0 <= i < inv.switches@.len() ==> plain_device(
            #[trigger] out[inv.routers@.len() + i],
            inv.switches@[i].id@,
            DeviceKind::Switch,
            inv.switches@[i].port_count as nat,
        )
    &&& forall|i: int|
        0 <= i < inv.pcs@.len() ==> plain_device(
            #[trigger] out[inv.routers@.len() + inv.switches@.len() + i],
            inv.pcs@[i].id@,
            DeviceKind::Pc,
            1,
        )
    &&& forall|i: int|
        0 <= i < inv.taps@.len() ==> plain_device(
            #[trigger] out[inv.routers@.len() + inv.switches@.len() + inv.pcs@.len() + i],
            inv.taps@[i].id@,
            DeviceKind::Tap,
            2,
        )
}

/// Expands the inventory into devices, routers first, then switches, PCs
/// and taps, each in the order listed.  Router ports take generated
/// addresses from the counter, in order, and the addresses the inventory
/// fixes; a PC has one port and a tap two.
pub fn materialize_inventory(inv: &Inventory, mac_seq: &mut u64) -> (out: Vec<MaterializedDevice>)
    ensures
        materializes(*inv, *old(mac_seq), out@),
        *final(mac_seq) == seq_plus(*old(mac_seq), macs_before(inv.routers@, inv.routers@.len() as int)),
{
    let mut out: Vec<MaterializedDevice> = Vec::new();
    let ghost start = *mac_seq;
    let mut i: usize = 0;
    while i < inv.routers.len()
        invariant
            i <= inv.routers@.len(),
            out@.len() == i,
            start == *old(mac_seq),
            *mac_seq == seq_plus(start, macs_before(inv.routers@, i as int)),
            forall|m: int|
                0 <= m < i ==> router_device(
                    #[trigger] out@[m],
                    inv.routers@[m],
                    seq_plus(start, macs_before(inv.routers@, m)),
                ),
        decreases inv.routers@.len() - i,
    {
        let r = &inv.routers[i];
        let ghost s0 = *mac_seq;
        let ports = router_ports(r, mac_seq);
        proof {
            lemma_seq_plus_add(start, macs_before(inv.routers@, i as int), router_port_count(*r));
        }
        out.push(MaterializedDevice { id: r.id.clone(), kind: DeviceKind::Router, mac: None, ports });
        i += 1;
    }
    let mut i: usize = 0;
    while i < inv.switches.len()
        invariant
            i <= inv.switches@.len(),
            start == *old(mac_seq),
            *mac_seq == seq_plus(start, macs_before(inv.routers@, inv.routers@.len() as int)),
            out@.len() == inv.routers@.len() + i,
            forall|m: int|
                0 <= m < inv.routers@.len() ==> router_device(
                    #[trigger] out@[m],
                    inv.routers@[m],
                    seq_plus(start, macs_before(inv.routers@, m)),
                ),
            forall|m: int|
                0 <= m < i ==> plain_device(
                    #[trigger] out@[inv.routers@.len() + m],
                    inv.switches@[m].id@,
                    DeviceKind::Switch,
                    inv.switches@[m].port_count as nat,
                ),
        decreases inv.switches@.len() - i,
    {
        let s = &inv.switches[i];
        let ports = numbered_ports(s.id.as_str(), s.port_count, false, mac_seq);
        out.push(MaterializedDevice { id: s.id.clone(), kind: DeviceKind::Switch, mac: None, ports });
        i += 1;
    }
    let mut i: usize = 0;
    while i < inv.pcs.len()
        invariant
            i <= inv.pcs@.len(),
            start == *old(mac_seq),
            *mac_seq == seq_plus(start, macs_before(inv.routers@, inv.routers@.len() as int)),
            out@.len() == inv.routers@.len() + inv.switches@.len() + i,
            forall|m: int|
                0 <= m < inv.routers@.len() ==> router_device(
                    #[trigger] out@[m],
                    inv.routers@[m],
                    seq_plus(start, macs_before(inv.routers@, m)),
                ),
            forall|m: int|
                0 <= m < inv.switches@.len() ==> plain_device(
                    #[trigger] out@[inv.routers@.len() + m],
                    inv.switches@[m].id@,
                    DeviceKind::Switch,
                    inv.switches@[m].port_count as nat,
                ),
            forall|m: int|
                0 <= m < i ==> plain_device(
                    #[trigger] out@[inv.routers@.len() + inv.switches@.len() + m],
                    inv.pcs@[m].id@,
                    DeviceKind::Pc,
                    1,
                ),
        decreases inv.pcs@.len() - i,
    {
        let s = &inv.pcs[i];
        let ports = numbered_ports(s.id.as_str(), 1, false, mac_seq);
        out.push(MaterializedDevice { id: s.id.clone(), kind: DeviceKind::Pc, mac: None, ports });
        i += 1;
    }
    let mut i: usize = 0;
    while i < inv.taps.len()
        invariant
            i <= inv.taps@.len(),
            start == *old(mac_seq),
            *mac_seq == seq_plus(start, macs_before(inv.routers@, inv.routers@.len() as int)),
            out@.len() == inv.routers@.len() + inv.switches@.len() + inv.pcs@.len() + i,
            forall|m: int|
                0 <= m < inv.routers@.len() ==> router_device(
                    #[trigger] out@[m],
                    inv.routers@[m],
                    seq_plus(start, macs_before(inv.routers@, m)),
                ),
            forall|m: int|
                0 <= m < inv.switches@.len() ==> plain_device(
                    #[trigger] out@[inv.routers@.len() + m],
                    inv.switches@[m].id@,
                    DeviceKind::Switch,
                    inv.switches@[m].port_count as nat,
                ),
            forall|m: int|
                0 <= m < inv.pcs@.len() ==> plain_device(
                    #[trigger] out@[inv.routers@.len() + inv.switches@.len() + m],
                    inv.pcs@[m].id@,
                    DeviceKind::Pc,
                    1,
                ),
            forall|m: int|
                0 <= m < i ==> plain_device(
                    #[trigger] out@[inv.routers@.len() + inv.switches@.len() + inv.pcs@.len() + m],
                    inv.taps@[m].id@,
                    DeviceKind::Tap,
                    2,
                ),
        decreases inv.taps@.len() - i,
    {
        let s = &inv.taps[i];
        let ports = numbered_ports(s.id.as_str(), 2, false, mac_seq);
        out.push(MaterializedDevice { id: s.id.clone(), kind: DeviceKind::Tap, mac: None, ports });
        i += 1;
    }
    out
}

} // verus!
