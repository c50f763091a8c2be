//! Students joining, claiming devices, and the teacher opening claims and
//! releasing devices.

use vstd::prelude::*;
use crate::addr::{is_unicast_mac, unicast_spec};
use crate::classroom::{
    claimed_by, claims_agree, conn_index, lemma_conn_index, dev_index, distinct_conns, distinct_devices, find_conn, find_device, holds,
    ids_below,
    same_device, tables_fresh, Classroom, Conn, Device, Port,
};
use crate::ids::{id_text, lemma_id_text_injective, mac_text, new_connection_id, next_seq};
use crate::kinds::{ClaimState, ClientKind, DeviceKind};
use crate::random::{random_index, shuffle_ids};
use crate::clock::now_millis;
use crate::topo::{as_opt_ref, clone_opt, opt_str};
use vstd::string::StringExecFns;

verus! {

/// Told to a student who waits for the teacher to open claiming.
pub const MSG_WAITING_OPEN: &'static str = "请等待教师确定本课设备";

/// Told to a student when every device is taken.
pub const MSG_CLASSROOM_FULL: &'static str = "本课设备已领完，请看教师屏";

/// What a student's join comes to.
#[derive(Debug)]
pub enum JoinOutcome {
    /// The teacher has not opened claiming yet.
    WaitingOpen { connection_id: String },
    /// The connection holds `device`.
    Claimed { connection_id: String, device: Device },
    /// No device is left.
    Full,
}

/// What opening claims tells each waiting student.
#[derive(Debug)]
pub enum OpenClaimEvent {
    Granted { connection_id: String, device: Device },
    Full { connection_id: String },
}

#[derive(Debug)]
pub enum UnbindError {
    UnknownDevice,
    NotClaimed,
}

impl Conn {
    pub fn copy(&self) -> (r: Conn)
        ensures
            r == *self,
    {
        Conn {
            connection_id: self.connection_id.clone(),
            client_kind: self.client_kind,
            device_id: clone_opt(&self.device_id),
            nic_mac: clone_opt(&self.nic_mac),
            last_seen: self.last_seen,
        }
    }
}

/// Every device is claimed.
pub open spec fn all_claimed(devs: Seq<Device>) -> bool {
    forall|d: int| 0 <= d < devs.len() ==> (#[trigger] devs[d]).claimed_connection_id is Some
}

/// The address a PC takes when claimed: a standalone student's own NIC
/// address if it gave one, otherwise the next generated address.
pub open spec fn claim_mac(conn: Conn, mac_seq: u64) -> Seq<char> {
    if conn.client_kind == ClientKind::StudentStandalone && conn.nic_mac is Some {
        conn.nic_mac.unwrap()@
    } else {
        mac_text(mac_seq as nat)
    }
}

/// The counter after a claim: a PC given a generated address uses one.
pub open spec fn mac_seq_after(kind: DeviceKind, conn: Conn, mac_seq: u64) -> u64 {
    if kind == DeviceKind::Pc && !(conn.client_kind == ClientKind::StudentStandalone && conn.nic_mac is Some) {
        next_seq(mac_seq)
    } else {
        mac_seq
    }
}

/// `np` is `op` with address `mac`.
pub open spec fn port_with_mac(np: Port, op: Port, mac: Seq<char>) -> bool {
    np.id == op.id && np.ip == op.ip && np.mask == op.mask && np.gateway == op.gateway && np.peer_port_id
        == op.peer_port_id && opt_str(np.mac) == Some(mac)
}

/// `nd` is `od` claimed by `cid`; a PC also takes `mac`, on itself and on
/// its first port.
pub open spec fn claimed_version(od: Device, nd: Device, cid: Seq<char>, mac: Seq<char>) -> bool {
    &&& nd.id == od.id
    &&& nd.kind == od.kind
    &&& opt_str(nd.claimed_connection_id) == Some(cid)
    &&& nd.ports@.len() == od.ports@.len()
    &&& if od.kind == DeviceKind::Pc {
        &&& opt_str(nd.mac) == Some(mac)
        &&& forall|k: int| 1 <= k < nd.ports@.len() ==> #[trigger] nd.ports@[k] == od.ports@[k]
        &&& nd.ports@.len() > 0 ==> port_with_mac(nd.ports@[0], od.ports@[0], mac)
    } else {
        nd.mac == od.mac && nd.ports@ == od.ports@
    }
}

/// `nc` is `oc` now holding device `did`.
pub open spec fn holding_version(oc: Conn, nc: Conn, did: Seq<char>) -> bool {
    nc.connection_id == oc.connection_id && nc.client_kind == oc.client_kind && nc.nic_mac == oc.nic_mac
        && nc.last_seen == oc.last_seen && opt_str(nc.device_id) == Some(did)
}

/// Everything but the devices, connections, claim state, counters and
/// tables is as it was.
pub open spec fn rest_unchanged(a: Classroom, b: Classroom) -> bool {
    &&& b.classroom_id == a.classroom_id
    &&& b.title == a.title
    &&& b.mode == a.mode
    &&& b.created_at == a.created_at
    &&& b.inventory == a.inventory
    &&& b.frames == a.frames
    &&& b.tap_attaches == a.tap_attaches
    &&& b.chat_log == a.chat_log
    &&& b.tap_log == a.tap_log
}

/// `n` is `o` after device `d` went to connection `c` and the tables were
/// rebuilt; the classroom is full once no device is left.
pub open spec fn bound(o: Classroom, n: Classroom, c: int, d: int) -> bool {
    &&& n.devices@.len() == o.devices@.len()
    &&& forall|d2: int| 0 <= d2 < n.devices@.len() && d2 != d ==> #[trigger] n.devices@[d2] == o.devices@[d2]
    &&& claimed_version(
        o.devices@[d],
        n.devices@[d],
        o.connections@[c].connection_id@,
        claim_mac(o.connections@[c], o.mac_seq),
    )
    &&& n.mac_seq == mac_seq_after(o.devices@[d].kind, o.connections@[c], o.mac_seq)
    &&& n.connections@.len() == o.connections@.len()
    &&& forall|c2: int|
        0 <= c2 < n.connections@.len() && c2 != c ==> #[trigger] n.connections@[c2] == o.connections@[c2]
    &&& holding_version(o.connections@[c], n.connections@[c], o.devices@[d].id@)
    &&& n.claim_state == if all_claimed(n.devices@) {
        ClaimState::Full
    } else {
        o.claim_state
    }
    &&& n.id_seq == o.id_seq
    &&& rest_unchanged(o, n)
    &&& tables_fresh(n)
}

/// `n` is `o` with connection `c` sent away because no device is left.
pub open spec fn turned_away(o: Classroom, n: Classroom, c: int) -> bool {
    &&& n.connections@ == o.connections@.remove(c)
    &&& n.claim_state == ClaimState::Full
    &&& n.devices == o.devices
    &&& n.links == o.links
    &&& n.mac_table == o.mac_table
    &&& n.arp_table == o.arp_table
    &&& n.mac_seq == o.mac_seq
    &&& n.id_seq == o.id_seq
    &&& rest_unchanged(o, n)
}

/// Connection `c`, holding nothing, asked for a device: it got a free one,
/// or none was free and it was sent away.
pub open spec fn claim_attempt(o: Classroom, n: Classroom, c: int, r: JoinOutcome) -> bool {
    match r {
        JoinOutcome::Claimed { connection_id, device } => exists|d: int|
            0 <= d < o.devices@.len() && (#[trigger] o.devices@[d]).claimed_connection_id is None && bound(
                o,
                n,
                c,
                d,
            ) && same_device(device, n.devices@[d]) && connection_id@ == o.connections@[c].connection_id@,
        JoinOutcome::Full => all_claimed(o.devices@) && turned_away(o, n, c),
        JoinOutcome::WaitingOpen { .. } => false,
    }
}

/// What connection `c` is told: the device it already holds; to wait while
/// claiming is not open; otherwise the outcome of asking for a device.
pub open spec fn settled(mid: Classroom, n: Classroom, c: int, r: JoinOutcome) -> bool {
    let conn = mid.connections@[c];
    if conn.device_id is Some {
        &&& n == mid
        &&& r matches JoinOutcome::Claimed { connection_id, device } && connection_id@ == conn.connection_id@
            && same_device(device, mid.devices@[dev_index(mid.devices@, conn.device_id.unwrap()@)])
    } else if mid.claim_state == ClaimState::Draft {
        &&& n == mid
        &&& r matches JoinOutcome::WaitingOpen { connection_id } && connection_id@ == conn.connection_id@
    } else {
        claim_attempt(mid, n, c, r)
    }
}

/// The index of the connection a student reconnects as, or -1.
pub open spec fn existing_index(o: Classroom, given: Option<Seq<char>>) -> int {
    match given {
        Some(g) => conn_index(o.connections@, g),
        None => -1,
    }
}

/// Why a join is refused, if it is.
pub open spec fn join_error(
    o: Classroom,
    kind: ClientKind,
    given: Option<Seq<char>>,
    nic: Option<Seq<char>>,
) -> Option<Seq<char>> {
    if !(kind is StudentStandalone || kind is StudentHosted) {
        Some("client_kind must be a student"@)
    } else if nic is Some && !unicast_spec(nic.unwrap()) {
        Some("nic_mac must be a unicast MAC"@)
    } else if existing_index(o, given) < 0 && o.id_seq == u64::MAX {
        Some("connection ids exhausted"@)
    } else {
        None
    }
}

/// `mid` is `o` with the joining student's connection at index `c`: the
/// connection it reconnects as, refreshed, or a new one with a fresh id.
pub open spec fn admitted(
    o: Classroom,
    mid: Classroom,
    c: int,
    kind: ClientKind,
    given: Option<Seq<char>>,
    nic: Option<Seq<char>>,
) -> bool {
    let e = existing_index(o, given);
    &&& mid.devices == o.devices
    &&& mid.claim_state == o.claim_state
    &&& mid.links == o.links
    &&& mid.mac_table == o.mac_table
    &&& mid.arp_table == o.arp_table
    &&& mid.mac_seq == o.mac_seq
    &&& rest_unchanged(o, mid)
    &&& 0 <= c < mid.connections@.len()
    &&& mid.connections@[c].client_kind == kind
    &&& if e >= 0 {
        &&& c == e
        &&& mid.id_seq == o.id_seq
        &&& mid.connections@.len() == o.connections@.len()
        &&& forall|c2: int|
            0 <= c2 < mid.connections@.len() && c2 != c ==> #[trigger] mid.connections@[c2] == o.connections@[c2]
        &&& mid.connections@[c].connection_id == o.connections@[c].connection_id
        &&& mid.connections@[c].device_id == o.connections@[c].device_id
        &&& opt_str(mid.connections@[c].nic_mac) == if nic is Some {
            nic
        } else {
            opt_str(o.connections@[c].nic_mac)
        }
    } else {
        &&& c == o.connections@.len()
        &&& mid.connections@.drop_last() == o.connections@
        &&& mid.id_seq == next_seq(o.id_seq)
        &&& exists|t: nat| mid.connections@[c].connection_id@ == #[trigger] id_text("n-"@, t, o.id_seq as nat)
        &&& mid.connections@[c].device_id is None
        &&& opt_str(mid.connections@[c].nic_mac) == nic
    }
}

/// Some connection named `id` holds no device.
pub open spec fn waits(conns: Seq<Conn>, id: Seq<char>) -> bool {
    exists|c: int| 0 <= c < conns.len() && (#[trigger] conns[c]).device_id is None && conns[c].connection_id@ == id
}

/// `id` is among `w`.
pub open spec fn listed(w: Seq<String>, id: Seq<char>) -> bool {
    exists|k: int| 0 <= k < w.len() && #[trigger] w[k]@ == id
}

/// No text occurs twice in `w`.
pub open spec fn distinct_texts(w: Seq<String>) -> bool {
    forall|i: int, j: int| 0 <= i < j < w.len() ==> #[trigger] w[i]@ != #[trigger] w[j]@
}

/// The connection an event of opening claims goes to.
pub open spec fn event_conn(e: OpenClaimEvent) -> Seq<char> {
    match e {
        OpenClaimEvent::Granted { connection_id, .. } => connection_id@,
        OpenClaimEvent::Full { connection_id } => connection_id@,
    }
}

/// Two devices have the same id and kind.
pub open spec fn same_identity(x: Device, y: Device) -> bool {
    x.id == y.id && x.kind == y.kind
}

/// From `o` to `n` devices were only claimed, never released or changed
/// once claimed; connections holding a device stayed; no connection came.
pub open spec fn claims_grew(o: Classroom, n: Classroom) -> bool {
    &&& n.devices@.len() == o.devices@.len()
    &&& forall|d: int| 0 <= d < o.devices@.len() ==> same_identity(#[trigger] n.devices@[d], o.devices@[d])
    &&& forall|d: int|
        0 <= d < o.devices@.len() && (#[trigger] o.devices@[d]).claimed_connection_id is Some ==> n.devices@[d]
            == o.devices@[d]
    &&& forall|d: int|
        0 <= d < n.devices@.len() && (#[trigger] n.devices@[d]).claimed_connection_id is None ==> n.devices@[d]
            == o.devices@[d]
    &&& forall|c: int|
        0 <= c < o.connections@.len() && (#[trigger] o.connections@[c]).device_id is Some
            ==> n.connections@.contains(o.connections@[c])
    &&& forall|c: int|
        0 <= c < n.connections@.len() ==> conn_index(o.connections@, (#[trigger] n.connections@[c]).connection_id@)
            >= 0
    &&& n.id_seq == o.id_seq
    &&& rest_unchanged(o, n)
}

/// What event `e` says holds in `n`: the connection holds the device, which
/// was free in `o`; or the connection is gone and every device is taken.
pub open spec fn event_holds(o: Classroom, n: Classroom, e: OpenClaimEvent) -> bool {
    match e {
        OpenClaimEvent::Granted { connection_id, device } => exists|d: int|
            0 <= d < n.devices@.len() && (#[trigger] o.devices@[d]).claimed_connection_id is None && same_device(
                device,
                n.devices@[d],
            ) && opt_str(n.devices@[d].claimed_connection_id) == Some(connection_id@),
        OpenClaimEvent::Full { connection_id } => conn_index(n.connections@, connection_id@) == -1 && all_claimed(
            n.devices@,
        ),
    }
}

/// A connection that held nothing asking for a device only claims devices.
proof fn lemma_attempt_grows(n1: Classroom, n2: Classroom, c: int, r: JoinOutcome)
    requires
        n1.wf(),
        0 <= c < n1.connections@.len(),
        n1.connections@[c].device_id is None,
        claim_attempt(n1, n2, c, r),
    ensures
        claims_grew(n1, n2),
{
    let o = n1.connections@;
    let nc = n2.connections@;
    match r {
        JoinOutcome::Claimed { connection_id, device } => {
            let d = choose|d: int|
                0 <= d < n1.devices@.len() && (#[trigger] n1.devices@[d]).claimed_connection_id is None && bound(
                    n1,
                    n2,
                    c,
                    d,
                ) && same_device(device, n2.devices@[d]) && connection_id@ == o[c].connection_id@;
            assert forall|c2: int| 0 <= c2 < o.len() && (#[trigger] o[c2]).device_id is Some implies nc.contains(
                o[c2],
            ) by {
                assert(c2 != c);
                assert(nc[c2] == o[c2]);
            }
            assert forall|c2: int| 0 <= c2 < nc.len() implies conn_index(o, (#[trigger] nc[c2]).connection_id@)
                >= 0 by {
                assert(nc[c2].connection_id@ == o[c2].connection_id@);
                assert(exists|k: int| 0 <= k < o.len() && #[trigger] o[k].connection_id@ == nc[c2].connection_id@);
            }
        },
        JoinOutcome::Full => {
            assert forall|c2: int| 0 <= c2 < o.len() && (#[trigger] o[c2]).device_id is Some implies nc.contains(
                o[c2],
            ) by {
                assert(c2 != c);
                let k = if c2 < c { c2 } else { c2 - 1 };
                assert(nc[k] == o[c2]);
            }
            assert forall|c2: int| 0 <= c2 < nc.len() implies conn_index(o, (#[trigger] nc[c2]).connection_id@)
                >= 0 by {
                let k = if c2 < c { c2 } else { c2 + 1 };
                assert(nc[c2] == o[k]);
                assert(exists|j: int| 0 <= j < o.len() && #[trigger] o[j].connection_id@ == nc[c2].connection_id@);
            }
        },
        JoinOutcome::WaitingOpen { .. } => {},
    }
}

proof fn lemma_grew_trans(a: Classroom, b: Classroom, c: Classroom)
    requires
        claims_grew(a, b),
        claims_grew(b, c),
    ensures
        claims_grew(a, c),
{
    assert forall|d: int|
        0 <= d < a.devices@.len() && (#[trigger] a.devices@[d]).claimed_connection_id is Some implies c.devices@[d]
        == a.devices@[d] by {
        assert(b.devices@[d] == a.devices@[d]);
    }
    assert forall|d: int|
        0 <= d < c.devices@.len() && (#[trigger] c.devices@[d]).claimed_connection_id is None implies c.devices@[d]
        == a.devices@[d] by {
        assert(c.devices@[d] == b.devices@[d]);
    }
    assert forall|d: int| 0 <= d < a.devices@.len() implies same_identity(#[trigger] c.devices@[d], a.devices@[d]) by {
        assert(same_identity(b.devices@[d], a.devices@[d]));
    }
    assert forall|x: int|
        0 <= x < a.connections@.len() && (#[trigger] a.connections@[x]).device_id is Some
            implies c.connections@.contains(a.connections@[x]) by {
        assert(b.connections@.contains(a.connections@[x]));
        let y = choose|y: int| 0 <= y < b.connections@.len() && b.connections@[y] == a.connections@[x];
        assert(b.connections@[y].device_id is Some);
    }
    assert forall|k: int| 0 <= k < c.connections@.len() implies conn_index(
        a.connections@,
        (#[trigger] c.connections@[k]).connection_id@,
    ) >= 0 by {
        let id = c.connections@[k].connection_id@;
        let j = conn_index(b.connections@, id);
        assert(b.connections@[j].connection_id@ == id);
    }
}

/// An event already given stays true while other waiting connections ask
/// for devices.
proof fn lemma_event_kept(o: Classroom, n1: Classroom, n2: Classroom, c: int, r: JoinOutcome, e: OpenClaimEvent)
    requires
        n1.wf(),
        0 <= c < n1.connections@.len(),
        n1.connections@[c].device_id is None,
        claim_attempt(n1, n2, c, r),
        claims_grew(o, n1),
        event_holds(o, n1, e),
    ensures
        event_holds(o, n2, e),
{
    lemma_attempt_grows(n1, n2, c, r);
    match e {
        OpenClaimEvent::Granted { connection_id, device } => {
            let d = choose|d: int|
                0 <= d < n1.devices@.len() && (#[trigger] o.devices@[d]).claimed_connection_id is None && same_device(
                    device,
                    n1.devices@[d],
                ) && opt_str(n1.devices@[d].claimed_connection_id) == Some(connection_id@);
            assert(n2.devices@[d] == n1.devices@[d]);
        },
        OpenClaimEvent::Full { connection_id } => {
            match r {
                JoinOutcome::Claimed { .. } => {
                    let d = choose|d: int|
                        0 <= d < n1.devices@.len() && (#[trigger] n1.devices@[d]).claimed_connection_id is None
                            && bound(n1, n2, c, d);
                    assert(n1.devices@[d].claimed_connection_id is Some);
                },
                _ => {
                    let nc = n2.connections@;
                    if conn_index(nc, connection_id@) != -1 {
                        let k = conn_index(nc, connection_id@);
                        let j = if k < c { k } else { k + 1 };
                        assert(nc[k] == n1.connections@[j]);
                        assert(exists|x: int|
                            0 <= x < n1.connections@.len() && #[trigger] n1.connections@[x].connection_id@
                                == connection_id@);
                    }
                },
            }
        },
    }
}

/// `n` is `o` with device `d` released by connection `k`: neither names the
/// other any more, and a full classroom is open again.
pub open spec fn released(o: Classroom, n: Classroom, d: int, k: int) -> bool {
    &&& n.devices@.len() == o.devices@.len()
    &&& forall|d2: int| 0 <= d2 < n.devices@.len() && d2 != d ==> #[trigger] n.devices@[d2] == o.devices@[d2]
    &&& n.devices@[d].claimed_connection_id is None
    &&& same_identity(n.devices@[d], o.devices@[d])
    &&& n.devices@[d].mac == o.devices@[d].mac
    &&& n.devices@[d].ports@ == o.devices@[d].ports@
    &&& n.connections@.len() == o.connections@.len()
    &&& forall|c2: int|
        0 <= c2 < n.connections@.len() && c2 != k ==> #[trigger] n.connections@[c2] == o.connections@[c2]
    &&& n.connections@[k].device_id is None
    &&& n.connections@[k].connection_id == o.connections@[k].connection_id
    &&& n.connections@[k].client_kind == o.connections@[k].client_kind
    &&& n.connections@[k].nic_mac == o.connections@[k].nic_mac
    &&& n.connections@[k].last_seen == o.connections@[k].last_seen
    &&& n.claim_state == if o.claim_state == ClaimState::Full {
        ClaimState::Open
    } else {
        o.claim_state
    }
    &&& n.links == o.links
    &&& n.mac_table == o.mac_table
    &&& n.arp_table == o.arp_table
    &&& n.mac_seq == o.mac_seq
    &&& n.id_seq == o.id_seq
    &&& rest_unchanged(o, n)
}

/// `n` is `o` with connection `k`, if there is one, seen again: only its
/// last-seen time changed.
pub open spec fn touched(o: Classroom, n: Classroom, k: int) -> bool {
    &&& n.devices == o.devices
    &&& n.claim_state == o.claim_state
    &&& n.links == o.links
    &&& n.mac_table == o.mac_table
    &&& n.arp_table == o.arp_table
    &&& n.mac_seq == o.mac_seq
    &&& n.id_seq == o.id_seq
    &&& rest_unchanged(o, n)
    &&& n.connections@.len() == o.connections@.len()
    &&& forall|c2: int|
        0 <= c2 < n.connections@.len() && c2 != k ==> #[trigger] n.connections@[c2] == o.connections@[c2]
    &&& 0 <= k < n.connections@.len() ==> {
        &&& n.connections@[k].connection_id == o.connections@[k].connection_id
        &&& n.connections@[k].client_kind == o.connections@[k].client_kind
        &&& n.connections@[k].device_id == o.connections@[k].device_id
        &&& n.connections@[k].nic_mac == o.connections@[k].nic_mac
    }
}

impl Classroom {
    /// A copy of device `device_id`, if there is one.
    pub fn device_snapshot(&self, device_id: &str) -> (r: Option<Device>)
        requires
            self.wf(),
        ensures
            match r {
                Some(d) => exists|i: int|
                    0 <= i < self.devices@.len() && self.devices@[i].id@ == device_id@ && same_device(
                        d,
                        #[trigger] self.devices@[i],
                    ),
                None => forall|i: int| 0 <= i < self.devices@.len() ==> #[trigger] self.devices@[i].id@ != device_id@,
            },
    {
        match find_device(&self.devices, device_id) {
            Some(i) => Some(self.devices[i].copy()),
            None => {
                assert forall|i: int| 0 <= i < self.devices@.len() implies #[trigger] self.devices@[i].id@
                    != device_id@ by {
                    if self.devices@[i].id@ == device_id@ {
                        assert(exists|j: int| 0 <= j < self.devices@.len() && #[trigger] self.devices@[j].id@ == device_id@);
                    }
                }
                None
            },
        }
    }

    fn all_devices_claimed(&self) -> (r: bool)
        ensures
            r == all_claimed(self.devices@),
    {
        let mut i: usize = 0;
        while i < self.devices.len()
            invariant
                i <= self.devices@.len(),
                forall|d: int| 0 <= d < i ==> (#[trigger] self.devices@[d]).claimed_connection_id is Some,
            decreases self.devices@.len() - i,
        {
            if self.devices[i].claimed_connection_id.is_none() {
                return false;
            }
            i += 1;
        }
        true
    }

    /// Some unclaimed device, chosen at random; `None` when all are claimed.
    fn pick_unclaimed(&self) -> (r: Option<usize>)
        ensures
            match r {
                Some(d) => d < self.devices@.len() && self.devices@[d as int].claimed_connection_id is None,
                None => all_claimed(self.devices@),
            },
    {
        let mut free: Vec<usize> = Vec::new();
        let mut i: usize = 0;
        while i < self.devices.len()
            invariant
                i <= self.devices@.len(),
                forall|k: int|
                    0 <= k < free@.len() ==> #[trigger] free@[k] < self.devices@.len()
                        && self.devices@[free@[k] as int].claimed_connection_id is None,
                forall|d: int|
                    0 <= d < i ==> (#[trigger] self.devices@[d]).claimed_connection_id is Some || free@.contains(
                        d as usize,
                    ),
            decreases self.devices@.len() - i,
        {
            if self.devices[i].claimed_connection_id.is_none() {
                let ghost before = free@;
                free.push(i);
                assert(free@[free@.len() - 1] == i);
                assert forall|x: usize| before.contains(x) implies free@.contains(x) by {
                    let k = choose|k: int| 0 <= k < before.len() && before[k] == x;
                    assert(free@[k] == x);
                }
            }
            i += 1;
        }
        if free.len() == 0 {
            return None;
        }
        let k = random_index(free.len());
        Some(free[k])
    }

    /// Gives device `d` to connection `c`, then rebuilds the tables.
    fn bind_claim(&mut self, c: usize, d: usize)
        requires
            old(self).wf(),
            c < old(self).connections@.len(),
            d < old(self).devices@.len(),
            old(self).connections@[c as int].device_id is None,
            old(self).devices@[d as int].claimed_connection_id is None,
        ensures
            final(self).wf(),
            bound(*old(self), *final(self), c as int, d as int),
    {
        let cid = self.connections[c].connection_id.clone();
        let kind = self.connections[c].client_kind;
        let nic = clone_opt(&self.connections[c].nic_mac);
        let ghost od = self.devices@[d as int];
        let ghost oc = self.connections@[c as int];
        let mut dev = self.devices[d].copy();
        dev.claimed_connection_id = Some(cid);
        if dev.kind == DeviceKind::Pc {
            let mac = match (kind, nic) {
                (ClientKind::StudentStandalone, Some(m)) => m,
                _ => crate::ids::new_unicast_mac(&mut self.mac_seq),
            };
            dev.mac = Some(mac.clone());
            if dev.ports.len() > 0 {
                let mut p0 = dev.ports[0].copy();
                p0.mac = Some(mac);
                dev.ports.set(0, p0);
            }
        }
        let did = dev.id.clone();
        let ghost nd = dev;
        self.devices.set(d, dev);
        let mut conn = self.connections[c].copy();
        conn.device_id = Some(did);
        self.connections.set(c, conn);
        proof {
            let devs = self.devices@;
            let conns = self.connections@;
            let odevs = old(self).devices@;
            let oconns = old(self).connections@;
            assert(distinct_devices(devs)) by {
                assert forall|i: int, j: int| 0 <= i < j < devs.len() implies #[trigger] devs[i].id@
                    != #[trigger] devs[j].id@ by {
                    assert(odevs[i].id@ != odevs[j].id@);
                }
            }
            assert(distinct_conns(conns)) by {
                assert forall|i: int, j: int| 0 <= i < j < conns.len() implies #[trigger] conns[i].connection_id@
                    != #[trigger] conns[j].connection_id@ by {
                    assert(oconns[i].connection_id@ != oconns[j].connection_id@);
                }
            }
            assert forall|c2: int|
                0 <= c2 < conns.len() && (#[trigger] conns[c2]).device_id is Some implies claimed_by(
                devs,
                conns[c2].device_id.unwrap()@,
                conns[c2].connection_id@,
            ) by {
                if c2 == c {
                    assert(devs[d as int].id@ == od.id@);
                } else {
                    assert(conns[c2] == oconns[c2]);
                    assert(claimed_by(odevs, oconns[c2].device_id.unwrap()@, oconns[c2].connection_id@));
                    let w = choose|w: int|
                        0 <= w < odevs.len() && #[trigger] odevs[w].id@ == oconns[c2].device_id.unwrap()@
                            && opt_str(odevs[w].claimed_connection_id) == Some(oconns[c2].connection_id@);
                    assert(w != d);
                    assert(devs[w] == odevs[w]);
                }
            }
            assert forall|d2: int|
                0 <= d2 < devs.len() && (#[trigger] devs[d2]).claimed_connection_id is Some implies holds(
                conns,
                devs[d2].claimed_connection_id.unwrap()@,
                devs[d2].id@,
            ) by {
                if d2 == d {
                    assert(conns[c as int].connection_id@ == oc.connection_id@);
                } else {
                    assert(devs[d2] == odevs[d2]);
                    assert(holds(oconns, odevs[d2].claimed_connection_id.unwrap()@, odevs[d2].id@));
                    let w = choose|w: int|
                        0 <= w < oconns.len() && #[trigger] oconns[w].connection_id@
                            == odevs[d2].claimed_connection_id.unwrap()@ && opt_str(oconns[w].device_id) == Some(
                            odevs[d2].id@,
                        );
                    assert(w != c);
                    assert(conns[w] == oconns[w]);
                }
            }
            assert(ids_below(conns, self.frames@, self.id_seq)) by {
                assert forall|c2: int, t: nat, s: nat|
                    0 <= c2 < conns.len() && #[trigger] conns[c2].connection_id@ == #[trigger] id_text("n-"@, t, s)
                        implies s < self.id_seq by {
                    assert(conns[c2].connection_id@ == oconns[c2].connection_id@);
                }
            }
        }
        if self.all_devices_claimed() {
            self.claim_state = ClaimState::Full;
        }
        self.rebuild_tables();
    }
}

impl Classroom {
    /// Connection `c`, which holds nothing, asks for a device: it gets a
    /// free one at random, or, when none is left, it is dropped and the
    /// classroom is full.
    fn try_claim(&mut self, c: usize) -> (r: JoinOutcome)
        requires
            old(self).wf(),
            c < old(self).connections@.len(),
            old(self).connections@[c as int].device_id is None,
        ensures
            final(self).wf(),
            claim_attempt(*old(self), *final(self), c as int, r),
    {
        match self.pick_unclaimed() {
            Some(d) => {
                let cid = self.connections[c].connection_id.clone();
                self.bind_claim(c, d);
                let device = self.devices[d].copy();
                JoinOutcome::Claimed { connection_id: cid, device }
            },
            None => {
                let ghost o = *self;
                self.connections.remove(c);
                self.claim_state = ClaimState::Full;
                proof {
                    let oc = o.connections@;
                    let nc = self.connections@;
                    let devs = self.devices@;
                    assert(distinct_conns(nc)) by {
                        assert forall|i: int, j: int| 0 <= i < j < nc.len() implies #[trigger] nc[i].connection_id@
                            != #[trigger] nc[j].connection_id@ by {
                            let oi = if i < c { i } else { i + 1 };
                            let oj = if j < c { j } else { j + 1 };
                            assert(nc[i] == oc[oi]);
                            assert(nc[j] == oc[oj]);
                            assert(oc[oi].connection_id@ != oc[oj].connection_id@);
                        }
                    }
                    assert forall|c2: int|
                        0 <= c2 < nc.len() && (#[trigger] nc[c2]).device_id is Some implies claimed_by(
                        devs,
                        nc[c2].device_id.unwrap()@,
                        nc[c2].connection_id@,
                    ) by {
                        let oi = if c2 < c { c2 } else { c2 + 1 };
                        assert(nc[c2] == oc[oi]);
                    }
                    assert forall|d2: int|
                        0 <= d2 < devs.len() && (#[trigger] devs[d2]).claimed_connection_id is Some implies holds(
                        nc,
                        devs[d2].claimed_connection_id.unwrap()@,
                        devs[d2].id@,
                    ) by {
                        let w = choose|w: int|
                            0 <= w < oc.len() && #[trigger] oc[w].connection_id@
                                == devs[d2].claimed_connection_id.unwrap()@ && opt_str(oc[w].device_id) == Some(
                                devs[d2].id@,
                            );
                        assert(w != c);
                        let nw = if w < c { w } else { w - 1 };
                        assert(nc[nw] == oc[w]);
                    }
                    assert forall|c2: int, t: nat, q: nat|
                        0 <= c2 < nc.len() && #[trigger] nc[c2].connection_id@ == #[trigger] id_text("n-"@, t, q)
                            implies q < self.id_seq by {
                        let oi = if c2 < c { c2 } else { c2 + 1 };
                        assert(nc[c2] == oc[oi]);
                    }
                }
                JoinOutcome::Full
            },
        }
    }

    /// What connection `c` is told: the device it holds, to wait for the
    /// teacher, or the outcome of asking for a device.
    fn settle(&mut self, c: usize) -> (r: JoinOutcome)
        requires
            old(self).wf(),
            c < old(self).connections@.len(),
        ensures
            final(self).wf(),
            settled(*old(self), *final(self), c as int, r),
    {
        let cid = self.connections[c].connection_id.clone();
        match as_opt_ref(&self.connections[c].device_id) {
            Some(did) => {
                match find_device(&self.devices, did) {
                    Some(i) => JoinOutcome::Claimed { connection_id: cid, device: self.devices[i].copy() },
                    None => {
                        proof {
                            let conn = self.connections@[c as int];
                            assert(claimed_by(self.devices@, conn.device_id.unwrap()@, conn.connection_id@));
                            let w = choose|w: int|
                                0 <= w < self.devices@.len() && #[trigger] self.devices@[w].id@
                                    == conn.device_id.unwrap()@ && opt_str(self.devices@[w].claimed_connection_id)
                                    == Some(conn.connection_id@);
                            assert(self.devices@[w].id@ == did@);
                        }
                        JoinOutcome::Full
                    },
                }
            },
            None => {
                if self.claim_state == ClaimState::Draft {
                    JoinOutcome::WaitingOpen { connection_id: cid }
                } else {
                    self.try_claim(c)
                }
            },
        }
    }

    /// Records the joining student's connection: the one it reconnects as
    /// (`found`), refreshed, or a new one under a fresh id.
    fn record_connection(
        &mut self,
        kind: ClientKind,
        connection_id: Option<String>,
        nic: Option<String>,
        found: Option<usize>,
    ) -> (c: usize)
        requires
            old(self).wf(),
            join_error(*old(self), kind, opt_str(connection_id), opt_str(nic)) is None,
            match found {
                Some(i) => i == existing_index(*old(self), opt_str(connection_id)),
                None => existing_index(*old(self), opt_str(connection_id)) < 0,
            },
        ensures
            final(self).wf(),
            admitted(*old(self), *final(self), c as int, kind, opt_str(connection_id), opt_str(nic)),
    {
        match found {
            Some(i) => {
                let mut conn = self.connections[i].copy();
                if let Some(m) = nic {
                    conn.nic_mac = Some(m);
                }
                conn.client_kind = kind;
                conn.last_seen = now_millis();
                let ghost oc = self.connections@;
                self.connections.set(i, conn);
                proof {
                    let nc = self.connections@;
                    assert(oc[i as int].connection_id@ == opt_str(connection_id).unwrap()) by {
                        let g = opt_str(connection_id).unwrap();
                        assert(exists|k: int| 0 <= k < oc.len() && #[trigger] oc[k].connection_id@ == g);
                    }
                    assert(distinct_conns(nc)) by {
                        assert forall|a: int, b: int| 0 <= a < b < nc.len() implies #[trigger] nc[a].connection_id@
                            != #[trigger] nc[b].connection_id@ by {
                            assert(oc[a].connection_id@ != oc[b].connection_id@);
                        }
                    }
                    assert forall|c2: int|
                        0 <= c2 < nc.len() && (#[trigger] nc[c2]).device_id is Some implies claimed_by(
                        self.devices@,
                        nc[c2].device_id.unwrap()@,
                        nc[c2].connection_id@,
                    ) by {
                        assert(oc[c2].device_id == nc[c2].device_id);
                    }
                    assert forall|d2: int|
                        0 <= d2 < self.devices@.len() && (#[trigger] self.devices@[d2]).claimed_connection_id is Some
                            implies holds(
                        nc,
                        self.devices@[d2].claimed_connection_id.unwrap()@,
                        self.devices@[d2].id@,
                    ) by {
                        let w = choose|w: int|
                            0 <= w < oc.len() && #[trigger] oc[w].connection_id@
                                == self.devices@[d2].claimed_connection_id.unwrap()@ && opt_str(oc[w].device_id)
                                == Some(self.devices@[d2].id@);
                        assert(nc[w].connection_id@ == oc[w].connection_id@);
                    }
                    assert forall|c2: int, t: nat, q: nat|
                        0 <= c2 < nc.len() && #[trigger] nc[c2].connection_id@ == #[trigger] id_text("n-"@, t, q)
                            implies q < self.id_seq by {
                        assert(nc[c2].connection_id@ == oc[c2].connection_id@);
                    }
                }
                i
            },
            None => {
                let ghost o = *self;
                let id = new_connection_id(&mut self.id_seq);
                let conn = Conn { connection_id: id, client_kind: kind, device_id: None, nic_mac: nic, last_seen: now_millis() };
                self.connections.push(conn);
                let c = self.connections.len() - 1;
                proof {
                    let oc = o.connections@;
                    let nc = self.connections@;
                    let t0 = choose|t: nat| nc[c as int].connection_id@ == id_text("n-"@, t, o.id_seq as nat);
                    assert(nc[c as int].connection_id@ == id_text("n-"@, t0, o.id_seq as nat));
                    assert(nc.drop_last() =~= oc);
                    assert forall|k: int| 0 <= k < oc.len() implies #[trigger] oc[k].connection_id@
                        != nc[c as int].connection_id@ by {
                        if oc[k].connection_id@ == nc[c as int].connection_id@ {
                            assert(oc[k].connection_id@ == id_text("n-"@, t0, o.id_seq as nat));
                        }
                    }
                    assert(distinct_conns(nc)) by {
                        assert forall|a: int, b: int| 0 <= a < b < nc.len() implies #[trigger] nc[a].connection_id@
                            != #[trigger] nc[b].connection_id@ by {
                            assert(nc[a] == oc[a]);
                            if b < oc.len() {
                                assert(nc[b] == oc[b]);
                            }
                        }
                    }
                    assert forall|c2: int|
                        0 <= c2 < nc.len() && (#[trigger] nc[c2]).device_id is Some implies claimed_by(
                        self.devices@,
                        nc[c2].device_id.unwrap()@,
                        nc[c2].connection_id@,
                    ) by {
                        assert(nc[c2] == oc[c2]);
                    }
                    assert forall|d2: int|
                        0 <= d2 < self.devices@.len() && (#[trigger] self.devices@[d2]).claimed_connection_id is Some
                            implies holds(
                        nc,
                        self.devices@[d2].claimed_connection_id.unwrap()@,
                        self.devices@[d2].id@,
                    ) by {
                        let w = choose|w: int|
                            0 <= w < oc.len() && #[trigger] oc[w].connection_id@
                                == self.devices@[d2].claimed_connection_id.unwrap()@ && opt_str(oc[w].device_id)
                                == Some(self.devices@[d2].id@);
                        assert(nc[w] == oc[w]);
                    }
                    assert forall|c2: int, t: nat, q: nat|
                        0 <= c2 < nc.len() && #[trigger] nc[c2].connection_id@ == #[trigger] id_text("n-"@, t, q)
                            implies q < self.id_seq by {
                        if c2 == c {
                            lemma_id_text_injective("n-"@, t, q, t0, o.id_seq as nat);
                        } else {
                            assert(nc[c2] == oc[c2]);
                        }
                    }
                    assert forall|f: int, t: nat, q: nat|
                        0 <= f < self.frames@.len() && #[trigger] self.frames@[f].frame_id@ == #[trigger] id_text("f-"@, t, q)
                            implies q < self.id_seq by {
                        assert(q < o.id_seq);
                    }
                }
                c
            },
        }
    }

    /// A student joins, or reconnects under a connection id it was given.
    /// A reconnecting student who holds a device is given it again; a new
    /// or waiting one waits while claiming is not open, else gets a free
    /// device at random, or is sent away when none is left.
    pub fn join(
        &mut self,
        client_kind: ClientKind,
        connection_id: Option<String>,
        nic_mac: Option<String>,
    ) -> (r: Result<JoinOutcome, String>)
        requires
            old(self).wf(),
        ensures
            final(self).wf(),
            match join_error(*old(self), client_kind, opt_str(connection_id), opt_str(nic_mac)) {
                Some(msg) => r matches Err(e) && e@ == msg && *final(self) == *old(self),
                None => r matches Ok(out) && exists|mid: Classroom, c: int|
                    #[trigger] admitted(*old(self), mid, c, client_kind, opt_str(connection_id), opt_str(nic_mac))
                        && settled(mid, *final(self), c, out),
            },
    {
        if !client_kind.is_student() {
            return Err(String::from_str("client_kind must be a student"));
        }
        if let Some(m) = as_opt_ref(&nic_mac) {
            if !is_unicast_mac(m) {
                return Err(String::from_str("nic_mac must be a unicast MAC"));
            }
        }
        let found = match as_opt_ref(&connection_id) {
            Some(id) => find_conn(&self.connections, id),
            None => None,
        };
        proof {
            match found {
                Some(i) => {
                    lemma_conn_index(self.connections@, opt_str(connection_id).unwrap(), i as int);
                },
                None => {},
            }
        }
        if found.is_none() && self.id_seq == u64::MAX {
            return Err(String::from_str("connection ids exhausted"));
        }
        let c = self.record_connection(client_kind, connection_id, nic_mac, found);
        let ghost mid = *self;
        let out = self.settle(c);
        proof {
            assert(admitted(*old(self), mid, c as int, client_kind, opt_str(connection_id), opt_str(nic_mac)));
        }
        Ok(out)
    }
}

/// A reordering of texts that differ keeps them different, and holds no
/// text that was not there.
proof fn lemma_reordered_distinct(a: Seq<String>, b: Seq<String>)
    requires
        a.to_multiset() == b.to_multiset(),
        distinct_texts(a),
    ensures
        distinct_texts(b),
        forall|k: int| 0 <= k < b.len() ==> a.contains(#[trigger] b[k]),
        forall|k: int| 0 <= k < a.len() ==> b.contains(#[trigger] a[k]),
{
    assert(a.no_duplicates()) by {
        assert forall|i: int, j: int| 0 <= i < a.len() && 0 <= j < a.len() && i != j implies a[i] != a[j] by {
            if i < j {
                assert(a[i]@ != a[j]@);
            } else {
                assert(a[j]@ != a[i]@);
            }
        }
    }
    a.lemma_multiset_has_no_duplicates();
    a.to_multiset_ensures();
    b.to_multiset_ensures();
    b.lemma_multiset_has_no_duplicates_conv();
    assert forall|k: int| 0 <= k < b.len() implies a.contains(#[trigger] b[k]) by {
        assert(b.contains(b[k]));
        assert(b.to_multiset().count(b[k]) > 0);
        assert(a.to_multiset().count(b[k]) > 0);
    }
    assert forall|k: int| 0 <= k < a.len() implies b.contains(#[trigger] a[k]) by {
        assert(a.contains(a[k]));
        assert(a.to_multiset().count(a[k]) > 0);
        assert(b.to_multiset().count(a[k]) > 0);
    }
    assert forall|i: int, j: int| 0 <= i < j < b.len() implies #[trigger] b[i]@ != #[trigger] b[j]@ by {
        if b[i]@ == b[j]@ {
            assert(b[i] != b[j]);
            assert(a.contains(b[i]));
            assert(a.contains(b[j]));
            let p = choose|p: int| 0 <= p < a.len() && a[p] == b[i];
            let q = choose|q: int| 0 <= q < a.len() && a[q] == b[j];
            assert(p != q);
            if p < q {
                assert(a[p]@ != a[q]@);
            } else {
                assert(a[q]@ != a[p]@);
            }
        }
    }
}

impl Classroom {
    /// The ids of the connections that hold no device, in order.
    fn waiting_ids(&self) -> (w: Vec<String>)
        requires
            self.wf(),
        ensures
            distinct_texts(w@),
            forall|k: int| 0 <= k < w@.len() ==> waits(self.connections@, #[trigger] w@[k]@),
            forall|c: int|
                0 <= c < self.connections@.len() && (#[trigger] self.connections@[c]).device_id is None ==> listed(
                    w@,
                    self.connections@[c].connection_id@,
                ),
    {
        let conns = &self.connections;
        let mut w: Vec<String> = Vec::new();
        let ghost mut pos: Seq<int> = Seq::empty();
        let mut k: usize = 0;
        while k < conns.len()
            invariant
                k <= conns@.len(),
                distinct_conns(conns@),
                w@.len() == pos.len(),
                forall|m: int|
                    0 <= m < pos.len() ==> 0 <= #[trigger] pos[m] < k && conns@[pos[m]].device_id is None
                        && conns@[pos[m]].connection_id@ == w@[m]@,
                forall|m1: int, m2: int| 0 <= m1 < m2 < pos.len() ==> #[trigger] pos[m1] < #[trigger] pos[m2],
                forall|c: int|
                    0 <= c < k && (#[trigger] conns@[c]).device_id is None ==> listed(w@, conns@[c].connection_id@),
            decreases conns@.len() - k,
        {
            if conns[k].device_id.is_none() {
                let ghost before = w@;
                w.push(conns[k].connection_id.clone());
                proof {
                    pos = pos.push(k as int);
                    assert(w@[w@.len() - 1]@ == conns@[k as int].connection_id@);
                    assert forall|c: int|
                        0 <= c < k + 1 && (#[trigger] conns@[c]).device_id is None implies listed(
                        w@,
                        conns@[c].connection_id@,
                    ) by {
                        if c < k {
                            let m = choose|m: int| 0 <= m < before.len() && #[trigger] before[m]@ == conns@[c].connection_id@;
                            assert(w@[m] == before[m]);
                        } else {
                            assert(w@[w@.len() - 1]@ == conns@[c].connection_id@);
                        }
                    }
                }
            }
            k += 1;
        }
        proof {
            assert forall|i: int, j: int| 0 <= i < j < w@.len() implies #[trigger] w@[i]@ != #[trigger] w@[j]@ by {
                assert(pos[i] < pos[j]);
                assert(conns@[pos[i]].connection_id@ != conns@[pos[j]].connection_id@);
            }
            assert forall|m: int| 0 <= m < w@.len() implies waits(conns@, #[trigger] w@[m]@) by {
                assert(conns@[pos[m]].device_id is None);
            }
        }
        w
    }
}

/// Event `ev` reports outcome `r`.
pub open spec fn event_for(r: JoinOutcome, ev: OpenClaimEvent) -> bool {
    match r {
        JoinOutcome::Claimed { device, .. } => ev matches OpenClaimEvent::Granted { device: d, .. } && d == device,
        _ => ev is Full,
    }
}

/// The events given so far, and the one for this waiting connection, hold
/// after it is served.
proof fn lemma_open_events(
    o: Classroom,
    n1: Classroom,
    n2: Classroom,
    c: int,
    r: JoinOutcome,
    w: Seq<String>,
    i: int,
    ev1: Seq<OpenClaimEvent>,
    ev2: Seq<OpenClaimEvent>,
)
    requires
        n1.wf(),
        0 <= c < n1.connections@.len(),
        n1.connections@[c].device_id is None,
        n1.connections@[c].connection_id@ == w[i]@,
        claim_attempt(n1, n2, c, r),
        0 <= i < w.len(),
        claims_grew(o, n1),
        ev1.len() == i,
        forall|e: int| 0 <= e < i ==> event_holds(o, n1, #[trigger] ev1[e]),
        ev2.len() == i + 1,
        forall|e: int| 0 <= e < i ==> #[trigger] ev2[e] == ev1[e],
        event_conn(ev2[i]) == w[i]@,
        event_for(r, ev2[i]),
    ensures
        forall|e: int| 0 <= e < i + 1 ==> event_holds(o, n2, #[trigger] ev2[e]),
{
    let c1 = n1.connections@;
    let c2s = n2.connections@;
    // earlier events still hold
    assert forall|e: int| 0 <= e < i + 1 implies event_holds(o, n2, #[trigger] ev2[e]) by {
        if e < i {
            assert(event_holds(o, n1, ev1[e]));
            lemma_event_kept(o, n1, n2, c, r, ev1[e]);
        } else {
            match r {
                JoinOutcome::Claimed { connection_id, device } => {
                    let d = choose|d: int|
                        0 <= d < n1.devices@.len() && (#[trigger] n1.devices@[d]).claimed_connection_id is None
                            && bound(n1, n2, c, d) && same_device(device, n2.devices@[d])
                            && connection_id@ == c1[c].connection_id@;
                    if o.devices@[d].claimed_connection_id is Some {
                        assert(n1.devices@[d] == o.devices@[d]);
                    }
                    assert(o.devices@[d].claimed_connection_id is None);
                },
                _ => {
                    let cid = event_conn(ev2[i]);
                    if conn_index(c2s, cid) != -1 {
                        let k = conn_index(c2s, cid);
                        let j = if k < c { k } else { k + 1 };
                        assert(c2s[k] == c1[j]);
                        if j < c {
                            assert(c1[j].connection_id@ != c1[c].connection_id@);
                        } else {
                            assert(c1[c].connection_id@ != c1[j].connection_id@);
                        }
                    }
                },
            }
        }
    }
}

/// One waiting connection of the list is served; what held of the list
/// and of the events before still holds after.
/// The ids of the connections that hold no device, in order.
pub open spec fn waiting_names(conns: Seq<Conn>) -> Seq<Seq<char>>
    decreases conns.len(),
{
    if conns.len() == 0 {
        Seq::empty()
    } else {
        let w = waiting_names(conns.drop_last());
        if conns.last().device_id is None {
            w.push(conns.last().connection_id@)
        } else {
            w
        }
    }
}

proof fn lemma_waiting_names(conns: Seq<Conn>)
    requires
        distinct_conns(conns),
    ensures
        forall|x: Seq<char>| waiting_names(conns).contains(x) <==> waits(conns, x),
        waiting_names(conns).no_duplicates(),
    decreases conns.len(),
{
    if conns.len() > 0 {
        let rest = conns.drop_last();
        assert(distinct_conns(rest)) by {
            assert forall|a: int, b: int| 0 <= a < b < rest.len() implies #[trigger] rest[a].connection_id@
                != #[trigger] rest[b].connection_id@ by {
                assert(conns[a].connection_id@ != conns[b].connection_id@);
            }
        }
        lemma_waiting_names(rest);
        let w = waiting_names(rest);
        let last = conns.last();
        assert forall|x: Seq<char>| waits(rest, x) ==> waits(conns, x) by {
            if waits(rest, x) {
                let c = choose|c: int| 0 <= c < rest.len() && (#[trigger] rest[c]).device_id is None
                    && rest[c].connection_id@ == x;
                assert(conns[c] == rest[c]);
            }
        }
        assert forall|x: Seq<char>| waits(conns, x) ==> waits(rest, x) || (last.device_id is None
            && last.connection_id@ == x) by {
            if waits(conns, x) {
                let c = choose|c: int| 0 <= c < conns.len() && (#[trigger] conns[c]).device_id is None
                    && conns[c].connection_id@ == x;
                if c < conns.len() - 1 {
                    assert(rest[c] == conns[c]);
                }
            }
        }
        if last.device_id is None {
            assert(waits(conns, last.connection_id@)) by {
                assert(conns[conns.len() - 1] == last);
            }
            assert forall|x: Seq<char>| w.push(last.connection_id@).contains(x) <==> (w.contains(x) || x
                == last.connection_id@) by {
                if w.push(last.connection_id@).contains(x) {
                    let k = choose|k: int| 0 <= k < w.len() + 1 && w.push(last.connection_id@)[k] == x;
                    if k < w.len() {
                        assert(w[k] == x);
                    }
                }
                if w.contains(x) {
                    let k = choose|k: int| 0 <= k < w.len() && w[k] == x;
                    assert(w.push(last.connection_id@)[k] == x);
                }
                if x == last.connection_id@ {
                    assert(w.push(last.connection_id@)[w.len() as int] == x);
                }
            }
            assert(!w.contains(last.connection_id@)) by {
                if w.contains(last.connection_id@) {
                    assert(waits(rest, last.connection_id@));
                    let c = choose|c: int| 0 <= c < rest.len() && (#[trigger] rest[c]).device_id is None
                        && rest[c].connection_id@ == last.connection_id@;
                    assert(conns[c].connection_id@ != conns[conns.len() - 1].connection_id@);
                }
            }
            let w2 = w.push(last.connection_id@);
            assert forall|i: int, j: int| 0 <= i < w2.len() && 0 <= j < w2.len() && i != j implies w2[i] != w2[j] by {
                if i < w.len() && j < w.len() {
                } else if i == w.len() {
                    assert(w.contains(w2[j]));
                } else {
                    assert(w.contains(w2[i]));
                }
            }
        }
    }
}

/// A list of distinct ids that are exactly the waiting connections has one
/// entry per waiting connection.
proof fn lemma_order_len(conns: Seq<Conn>, order: Seq<String>)
    requires
        distinct_conns(conns),
        distinct_texts(order),
        forall|k: int| 0 <= k < order.len() ==> waits(conns, #[trigger] order[k]@),
        forall|c: int| 0 <= c < conns.len() && (#[trigger] conns[c]).device_id is None ==> listed(
            order,
            conns[c].connection_id@,
        ),
    ensures
        order.len() == waiting_names(conns).len(),
{
    lemma_waiting_names(conns);
    let ov = order.map_values(|x: String| x@);
    let wn = waiting_names(conns);
    assert(ov.no_duplicates()) by {
        assert forall|i: int, j: int| 0 <= i < ov.len() && 0 <= j < ov.len() && i != j implies ov[i] != ov[j] by {
            if i < j {
                assert(order[i]@ != order[j]@);
            } else {
                assert(order[j]@ != order[i]@);
            }
        }
    }
    assert forall|x: Seq<char>| ov.to_set().contains(x) <==> wn.to_set().contains(x) by {
        if ov.contains(x) {
            let k = choose|k: int| 0 <= k < ov.len() && ov[k] == x;
            assert(waits(conns, order[k]@));
        }
        if wn.contains(x) {
            assert(waits(conns, x));
            let c = choose|c: int| 0 <= c < conns.len() && (#[trigger] conns[c]).device_id is None
                && conns[c].connection_id@ == x;
            let k = choose|k: int| 0 <= k < order.len() && #[trigger] order[k]@ == conns[c].connection_id@;
            assert(ov[k] == x);
        }
    }
    assert(ov.to_set() =~= wn.to_set());
    ov.unique_seq_to_set();
    wn.unique_seq_to_set();
}

/// The smaller of two counts.
pub open spec fn min_nat(a: nat, b: nat) -> nat {
    if a <= b {
        a
    } else {
        b
    }
}

/// How many of `devs` nobody holds.
pub open spec fn free_count(devs: Seq<Device>) -> nat
    decreases devs.len(),
{
    if devs.len() == 0 {
        0
    } else {
        free_count(devs.drop_last()) + if devs.last().claimed_connection_id is None {
            1nat
        } else {
            0nat
        }
    }
}

/// Where every device is held, none is free.
pub proof fn lemma_free_count_zero(devs: Seq<Device>)
    requires
        all_claimed(devs),
    ensures
        free_count(devs) == 0,
    decreases devs.len(),
{
    if devs.len() > 0 {
        lemma_free_count_zero(devs.drop_last());
    }
}

/// Claiming a free device leaves one free device fewer.
pub proof fn lemma_free_count_claim(devs: Seq<Device>, d: int, x: Device)
    requires
        0 <= d < devs.len(),
        devs[d].claimed_connection_id is None,
        x.claimed_connection_id is Some,
    ensures
        free_count(devs.update(d, x)) + 1 == free_count(devs),
    decreases devs.len(),
{
    let u = devs.update(d, x);
    if d == devs.len() - 1 {
        assert(u.drop_last() =~= devs.drop_last());
    } else {
        lemma_free_count_claim(devs.drop_last(), d, x);
        assert(u.drop_last() =~= devs.drop_last().update(d, x));
    }
}

/// One attempt at claiming for a waiting connection: a granted device was
/// free and is now held, so one free device fewer; a turned-away one
/// leaves the devices as they were, all held.
proof fn lemma_open_count(n1: Classroom, n2: Classroom, c: int, r: JoinOutcome)
    requires
        claim_attempt(n1, n2, c, r),
    ensures
        r is Claimed ==> free_count(n2.devices@) + 1 == free_count(n1.devices@),
        r is Full ==> free_count(n2.devices@) == free_count(n1.devices@) && all_claimed(n2.devices@),
        r is Claimed || r is Full,
{
    match r {
        JoinOutcome::Claimed { connection_id, device } => {
            let d = choose|d: int|
                0 <= d < n1.devices@.len() && (#[trigger] n1.devices@[d]).claimed_connection_id is None && bound(
                    n1,
                    n2,
                    c,
                    d,
                ) && same_device(device, n2.devices@[d]) && connection_id@ == n1.connections@[c].connection_id@;
            assert(n2.devices@ =~= n1.devices@.update(d, n2.devices@[d]));
            lemma_free_count_claim(n1.devices@, d, n2.devices@[d]);
        },
        _ => {},
    }
}

/// No device can be granted where every device is held.
proof fn lemma_claimed_none_free(n1: Classroom, n2: Classroom, c: int, r: JoinOutcome)
    requires
        claim_attempt(n1, n2, c, r),
        all_claimed(n1.devices@),
    ensures
        r is Full,
{
    match r {
        JoinOutcome::Claimed { connection_id, device } => {
            let d = choose|d: int|
                0 <= d < n1.devices@.len() && (#[trigger] n1.devices@[d]).claimed_connection_id is None && bound(
                    n1,
                    n2,
                    c,
                    d,
                ) && same_device(device, n2.devices@[d]) && connection_id@ == n1.connections@[c].connection_id@;
            assert(n1.devices@[d].claimed_connection_id is Some);
        },
        _ => {},
    }
}

#[verifier::spinoff_prover]
#[verifier::rlimit(60)]
proof fn lemma_open_step(
    o: Classroom,
    n1: Classroom,
    n2: Classroom,
    c: int,
    r: JoinOutcome,
    w: Seq<String>,
    i: int,
    ev1: Seq<OpenClaimEvent>,
    ev2: Seq<OpenClaimEvent>,
)
    requires
        n1.wf(),
        0 <= c < n1.connections@.len(),
        n1.connections@[c].device_id is None,
        n1.connections@[c].connection_id@ == w[i]@,
        claim_attempt(n1, n2, c, r),
        distinct_texts(w),
        0 <= i < w.len(),
        forall|k: int| i <= k < w.len() ==> waits(n1.connections@, #[trigger] w[k]@),
        forall|c2: int|
            0 <= c2 < n1.connections@.len() && (#[trigger] n1.connections@[c2]).device_id is None ==> listed(
                w.skip(i),
                n1.connections@[c2].connection_id@,
            ),
        claims_grew(o, n1),
        ev1.len() == i,
        forall|e: int| 0 <= e < i ==> event_conn(#[trigger] ev1[e]) == w[e]@,
        forall|e: int| 0 <= e < i ==> event_holds(o, n1, #[trigger] ev1[e]),
        !all_claimed(n1.devices@) ==> n1.claim_state == ClaimState::Open,
        ev2.len() == i + 1,
        forall|e: int| 0 <= e < i ==> #[trigger] ev2[e] == ev1[e],
        event_conn(ev2[i]) == w[i]@,
        event_for(r, ev2[i]),
    ensures
        forall|k: int| i + 1 <= k < w.len() ==> waits(n2.connections@, #[trigger] w[k]@),
        forall|c2: int|
            0 <= c2 < n2.connections@.len() && (#[trigger] n2.connections@[c2]).device_id is None ==> listed(
                w.skip(i + 1),
                n2.connections@[c2].connection_id@,
            ),
        claims_grew(o, n2),
        forall|e: int| 0 <= e < i + 1 ==> event_conn(#[trigger] ev2[e]) == w[e]@,
        forall|e: int| 0 <= e < i + 1 ==> event_holds(o, n2, #[trigger] ev2[e]),
        !all_claimed(n2.devices@) ==> n2.claim_state == ClaimState::Open,
        r is Claimed ==> tables_fresh(n2),
        !(r is Claimed) ==> (n2.links == n1.links && n2.mac_table == n1.mac_table && n2.arp_table == n1.arp_table
            && (tables_fresh(n1) ==> tables_fresh(n2))),
{
    let c1 = n1.connections@;
    let c2s = n2.connections@;
    lemma_attempt_grows(n1, n2, c, r);
    lemma_grew_trans(o, n1, n2);
    // later waiters still wait
    assert forall|k: int| i + 1 <= k < w.len() implies waits(c2s, #[trigger] w[k]@) by {
        assert(waits(c1, w[k]@));
        let x = choose|x: int| 0 <= x < c1.len() && (#[trigger] c1[x]).device_id is None && c1[x].connection_id@ == w[k]@;
        assert(w[i]@ != w[k]@);
        assert(x != c);
        match r {
            JoinOutcome::Claimed { .. } => {
                assert(c2s[x] == c1[x]);
            },
            _ => {
                let y = if x < c { x } else { x - 1 };
                assert(c2s[y] == c1[x]);
            },
        }
    }
    // waiting connections are among the later waiters
    assert forall|x: int|
        0 <= x < c2s.len() && (#[trigger] c2s[x]).device_id is None implies listed(
        w.skip(i + 1),
        c2s[x].connection_id@,
    ) by {
        let y = match r {
            JoinOutcome::Claimed { .. } => x,
            _ => if x < c { x } else { x + 1 },
        };
        assert(c2s[x] == c1[y]) by {
            match r {
                JoinOutcome::Claimed { .. } => {
                    let d = choose|d: int|
                        0 <= d < n1.devices@.len() && (#[trigger] n1.devices@[d]).claimed_connection_id is None
                            && bound(n1, n2, c, d);
                    assert(x != c);
                },
                _ => {},
            }
        }
        assert(y != c);
        assert(c1[y].connection_id@ != c1[c].connection_id@) by {
            if y < c {
                assert(c1[y].connection_id@ != c1[c].connection_id@);
            } else {
                assert(c1[c].connection_id@ != c1[y].connection_id@);
            }
        }
        let k = choose|k: int| 0 <= k < w.skip(i).len() && #[trigger] w.skip(i)[k]@ == c1[y].connection_id@;
        assert(k != 0);
        assert(w.skip(i + 1)[k - 1] == w.skip(i)[k]);
    }
    lemma_open_events(o, n1, n2, c, r, w, i, ev1, ev2);
    assert forall|e: int| 0 <= e < i + 1 implies event_conn(#[trigger] ev2[e]) == w[e]@ by {
        if e < i {
            assert(ev2[e] == ev1[e]);
        }
    }
    match r {
        JoinOutcome::Claimed { .. } => {
            let d = choose|d: int|
                0 <= d < n1.devices@.len() && (#[trigger] n1.devices@[d]).claimed_connection_id is None && bound(
                    n1,
                    n2,
                    c,
                    d,
                );
            assert(!all_claimed(n1.devices@));
        },
        _ => {},
    }
}

impl Classroom {
    /// The teacher opens claiming: every waiting student, in random order,
    /// gets a free device at random or, once none is left, is sent away.
    /// Each waiting student hears exactly one event.
    pub fn open_claim(&mut self) -> (events: Vec<OpenClaimEvent>)
        requires
            old(self).wf(),
        ensures
            final(self).wf(),
            claims_grew(*old(self), *final(self)),
            events@.len() == waiting_names(old(self).connections@).len(),
            forall|e: int|
                0 <= e < events@.len() ==> ((#[trigger] events@[e]) is Granted <==> e < min_nat(
                    waiting_names(old(self).connections@).len(),
                    free_count(old(self).devices@),
                )),
            forall|c: int|
                0 <= c < final(self).connections@.len() ==> (#[trigger] final(self).connections@[c]).device_id is Some,
            forall|e: int| 0 <= e < events@.len() ==> waits(old(self).connections@, event_conn(#[trigger] events@[e])),
            forall|c: int|
                0 <= c < old(self).connections@.len() && (#[trigger] old(self).connections@[c]).device_id is None
                    ==> exists|e: int|
                    0 <= e < events@.len() && event_conn(#[trigger] events@[e]) == old(self).connections@[c].connection_id@,
            forall|i: int, j: int|
                0 <= i < j < events@.len() ==> event_conn(#[trigger] events@[i]) != event_conn(#[trigger] events@[j]),
            forall|e: int| 0 <= e < events@.len() ==> event_holds(*old(self), *final(self), #[trigger] events@[e]),
            final(self).claim_state == if all_claimed(final(self).devices@) {
                ClaimState::Full
            } else {
                ClaimState::Open
            },
            (exists|e: int| 0 <= e < events@.len() && (#[trigger] events@[e]) is Granted) ==> tables_fresh(
                *final(self),
            ),
            (forall|e: int| 0 <= e < events@.len() ==> (#[trigger] events@[e]) is Full) ==> (final(self).links
                == old(self).links && final(self).mac_table == old(self).mac_table && final(self).arp_table == old(
                self,
            ).arp_table),
    {
        let ghost o = *old(self);
        let mut waiters = self.waiting_ids();
        let ghost before = waiters@;
        shuffle_ids(&mut waiters);
        proof {
            lemma_reordered_distinct(before, waiters@);
            assert forall|k: int| 0 <= k < waiters@.len() implies waits(o.connections@, #[trigger] waiters@[k]@) by {
                let p = choose|p: int| 0 <= p < before.len() && before[p] == waiters@[k];
                assert(waits(o.connections@, before[p]@));
            }
            assert forall|c: int|
                0 <= c < o.connections@.len() && (#[trigger] o.connections@[c]).device_id is None implies listed(
                waiters@,
                o.connections@[c].connection_id@,
            ) by {
                let p = choose|p: int| 0 <= p < before.len() && #[trigger] before[p]@ == o.connections@[c].connection_id@;
                assert(waiters@.contains(before[p]));
                let q = choose|q: int| 0 <= q < waiters@.len() && waiters@[q] == before[p];
                assert(waiters@[q]@ == o.connections@[c].connection_id@);
            }
        }
        proof {
            lemma_order_len(o.connections@, waiters@);
        }
        self.open_claim_in_order(waiters)
    }

    /// The teacher opens claiming, serving the waiting students in the order
    /// given: each gets a free device at random or, once none is left, is
    /// sent away, so the first of them, as many as there are free devices,
    /// are granted one and the rest hear that the classroom is full.
    pub fn open_claim_in_order(&mut self, order: Vec<String>) -> (events: Vec<OpenClaimEvent>)
        requires
            old(self).wf(),
            distinct_texts(order@),
            forall|k: int| 0 <= k < order@.len() ==> waits(old(self).connections@, #[trigger] order@[k]@),
            forall|c: int|
                0 <= c < old(self).connections@.len() && (#[trigger] old(self).connections@[c]).device_id is None
                    ==> listed(order@, old(self).connections@[c].connection_id@),
        ensures
            final(self).wf(),
            claims_grew(*old(self), *final(self)),
            events@.len() == order@.len(),
            forall|e: int| 0 <= e < events@.len() ==> event_conn(#[trigger] events@[e]) == order@[e]@,
            forall|e: int|
                0 <= e < events@.len() ==> ((#[trigger] events@[e]) is Granted <==> e < min_nat(
                    order@.len(),
                    free_count(old(self).devices@),
                )),
            forall|c: int|
                0 <= c < final(self).connections@.len() ==> (#[trigger] final(self).connections@[c]).device_id is Some,
            forall|e: int| 0 <= e < events@.len() ==> waits(old(self).connections@, event_conn(#[trigger] events@[e])),
            forall|c: int|
                0 <= c < old(self).connections@.len() && (#[trigger] old(self).connections@[c]).device_id is None
                    ==> exists|e: int|
                    0 <= e < events@.len() && event_conn(#[trigger] events@[e]) == old(self).connections@[c].connection_id@,
            forall|i: int, j: int|
                0 <= i < j < events@.len() ==> event_conn(#[trigger] events@[i]) != event_conn(#[trigger] events@[j]),
            forall|e: int| 0 <= e < events@.len() ==> event_holds(*old(self), *final(self), #[trigger] events@[e]),
            final(self).claim_state == if all_claimed(final(self).devices@) {
                ClaimState::Full
            } else {
                ClaimState::Open
            },
            (exists|e: int| 0 <= e < events@.len() && (#[trigger] events@[e]) is Granted) ==> tables_fresh(
                *final(self),
            ),
            (forall|e: int| 0 <= e < events@.len() ==> (#[trigger] events@[e]) is Full) ==> (final(self).links
                == old(self).links && final(self).mac_table == old(self).mac_table && final(self).arp_table == old(
                self,
            ).arp_table),
    {
        let ghost o = *old(self);
        self.claim_state = ClaimState::Open;
        let waiters = order;
        proof {
            assert(waiters@.skip(0) =~= waiters@);
            assert(self.connections@ == o.connections@);
        }
        let n = waiters.len();
        let mut events: Vec<OpenClaimEvent> = Vec::new();
        let ghost mut granted = false;
        let ghost mut g: nat = 0;
        let mut i: usize = 0;
        while i < n
            invariant
                self.wf(),
                n == waiters@.len(),
                i <= n,
                distinct_texts(waiters@),
                forall|k: int| 0 <= k < n ==> waits(o.connections@, #[trigger] waiters@[k]@),
                forall|c: int|
                    0 <= c < o.connections@.len() && (#[trigger] o.connections@[c]).device_id is None ==> listed(
                        waiters@,
                        o.connections@[c].connection_id@,
                    ),
                forall|k: int| i <= k < n ==> waits(self.connections@, #[trigger] waiters@[k]@),
                forall|c: int|
                    0 <= c < self.connections@.len() && (#[trigger] self.connections@[c]).device_id is None
                        ==> listed(waiters@.skip(i as int), self.connections@[c].connection_id@),
                claims_grew(o, *self),
                events@.len() == i,
                forall|e: int| 0 <= e < i ==> event_conn(#[trigger] events@[e]) == waiters@[e]@,
                forall|e: int| 0 <= e < i ==> event_holds(o, *self, #[trigger] events@[e]),
                !all_claimed(self.devices@) ==> self.claim_state == ClaimState::Open,
                granted ==> tables_fresh(*self),
                granted ==> exists|e: int| 0 <= e < i && (#[trigger] events@[e]) is Granted,
                !granted ==> forall|e: int| 0 <= e < i ==> (#[trigger] events@[e]) is Full,
                !granted ==> (self.links == o.links && self.mac_table == o.mac_table && self.arp_table
                    == o.arp_table),
                g <= i,
                forall|e: int| 0 <= e < i ==> ((#[trigger] events@[e]) is Granted <==> e < g),
                free_count(self.devices@) + g == free_count(o.devices@),
                g < i ==> all_claimed(self.devices@),
            decreases n - i,
        {
            let ghost n1 = *self;
            let ghost ev1 = events@;
            let found = find_conn(&self.connections, waiters[i].as_str());
            let c = match found {
                Some(c) => c,
                None => {
                    proof {
                        let w = choose|w: int|
                            0 <= w < n1.connections@.len() && (#[trigger] n1.connections@[w]).device_id is None
                                && n1.connections@[w].connection_id@ == waiters@[i as int]@;
                        assert(n1.connections@[w].connection_id@ == waiters@[i as int]@);
                    }
                    0
                },
            };
            proof {
                let w = choose|w: int|
                    0 <= w < n1.connections@.len() && (#[trigger] n1.connections@[w]).device_id is None
                        && n1.connections@[w].connection_id@ == waiters@[i as int]@;
                lemma_conn_index(n1.connections@, waiters@[i as int]@, w);
            }
            let r = self.try_claim(c);
            let ghost n2 = *self;
            match r {
                JoinOutcome::Claimed { connection_id: _, device } => {
                    events.push(OpenClaimEvent::Granted { connection_id: waiters[i].clone(), device });
                    proof {
                        granted = true;
                    }
                },
                _ => {
                    events.push(OpenClaimEvent::Full { connection_id: waiters[i].clone() });
                },
            }
            proof {
                lemma_open_count(n1, n2, c as int, r);
                if r is Claimed {
                    if g < i {
                        lemma_claimed_none_free(n1, n2, c as int, r);
                    }
                    g = g + 1;
                }
                assert forall|e: int| 0 <= e < i + 1 implies ((#[trigger] events@[e]) is Granted <==> e < g) by {
                    if e < i {
                        assert(events@[e] == ev1[e]);
                    }
                }
                lemma_open_step(o, n1, n2, c as int, r, waiters@, i as int, ev1, events@);
                if r is Claimed {
                    assert(events@[i as int] is Granted);
                } else if granted {
                    let e = choose|e: int| 0 <= e < i && (#[trigger] ev1[e]) is Granted;
                    assert(events@[e] == ev1[e]);
                }
            }
            i += 1;
        }
        if self.all_devices_claimed() {
            self.claim_state = ClaimState::Full;
        }
        proof {
            if g < n {
                lemma_free_count_zero(self.devices@);
            }
            assert forall|c: int|
                0 <= c < o.connections@.len() && (#[trigger] o.connections@[c]).device_id is None implies exists|e: int|
                0 <= e < events@.len() && event_conn(#[trigger] events@[e]) == o.connections@[c].connection_id@ by {
                let k = choose|k: int| 0 <= k < waiters@.len() && #[trigger] waiters@[k]@ == o.connections@[c].connection_id@;
                assert(event_conn(events@[k]) == waiters@[k]@);
            }
            assert forall|c: int|
                0 <= c < self.connections@.len() implies (#[trigger] self.connections@[c]).device_id is Some by {
                if self.connections@[c].device_id is None {
                    let k = choose|k: int|
                        0 <= k < waiters@.skip(n as int).len() && #[trigger] waiters@.skip(n as int)[k]@
                            == self.connections@[c].connection_id@;
                }
            }
        }
        events
    }
}

impl Classroom {
    /// The teacher takes device `device_id` back from the student holding
    /// it; that connection waits again, and a full classroom is open again.
    pub fn unbind_device(&mut self, device_id: &str) -> (r: Result<Option<String>, UnbindError>)
        requires
            old(self).wf(),
        ensures
            final(self).wf(),
            dev_index(old(self).devices@, device_id@) == -1 ==> (r matches Err(UnbindError::UnknownDevice)
                && *final(self) == *old(self)),
            dev_index(old(self).devices@, device_id@) >= 0 ==> {
                let d = dev_index(old(self).devices@, device_id@);
                let held = old(self).devices@[d].claimed_connection_id;
                if held is None {
                    (r matches Err(UnbindError::NotClaimed) && *final(self) == *old(self))
                } else {
                    &&& r matches Ok(Some(cid)) && Some(cid) == held
                    &&& released(*old(self), *final(self), d, conn_index(old(self).connections@, held.unwrap()@))
                }
            },
    {
        let d = match find_device(&self.devices, device_id) {
            Some(d) => d,
            None => {
                return Err(UnbindError::UnknownDevice);
            },
        };
        let held = clone_opt(&self.devices[d].claimed_connection_id);
        let cid = match held {
            Some(cid) => cid,
            None => {
                return Err(UnbindError::NotClaimed);
            },
        };
        let ghost o = *self;
        let ghost did = o.devices@[d as int].id@;
        proof {
            assert(holds(o.connections@, cid@, did));
        }
        let k = match find_conn(&self.connections, cid.as_str()) {
            Some(k) => k,
            None => {
                proof {
                    let w = choose|w: int|
                        0 <= w < o.connections@.len() && #[trigger] o.connections@[w].connection_id@ == cid@
                            && opt_str(o.connections@[w].device_id) == Some(did);
                    assert(o.connections@[w].connection_id@ == cid@);
                }
                0
            },
        };
        proof {
            let w = choose|w: int|
                0 <= w < o.connections@.len() && #[trigger] o.connections@[w].connection_id@ == cid@ && opt_str(
                    o.connections@[w].device_id,
                ) == Some(did);
            lemma_conn_index(o.connections@, cid@, w);
        }
        let mut dev = self.devices[d].copy();
        dev.claimed_connection_id = None;
        self.devices.set(d, dev);
        let mut conn = self.connections[k].copy();
        conn.device_id = None;
        self.connections.set(k, conn);
        if !self.all_devices_claimed() && self.claim_state == ClaimState::Full {
            self.claim_state = ClaimState::Open;
        }
        proof {
            let od = o.devices@;
            let oc = o.connections@;
            let nd = self.devices@;
            let nc = self.connections@;
            assert(!all_claimed(nd)) by {
                assert(nd[d as int].claimed_connection_id is None);
            }
            assert(distinct_devices(nd)) by {
                assert forall|a: int, b: int| 0 <= a < b < nd.len() implies #[trigger] nd[a].id@ != #[trigger] nd[b].id@ by {
                    assert(od[a].id@ != od[b].id@);
                }
            }
            assert(distinct_conns(nc)) by {
                assert forall|a: int, b: int| 0 <= a < b < nc.len() implies #[trigger] nc[a].connection_id@
                    != #[trigger] nc[b].connection_id@ by {
                    assert(oc[a].connection_id@ != oc[b].connection_id@);
                }
            }
            assert forall|c2: int|
                0 <= c2 < nc.len() && (#[trigger] nc[c2]).device_id is Some implies claimed_by(
                nd,
                nc[c2].device_id.unwrap()@,
                nc[c2].connection_id@,
            ) by {
                assert(c2 != k);
                assert(nc[c2] == oc[c2]);
                let w = choose|w: int|
                    0 <= w < od.len() && #[trigger] od[w].id@ == oc[c2].device_id.unwrap()@ && opt_str(
                        od[w].claimed_connection_id,
                    ) == Some(oc[c2].connection_id@);
                if w == d {
                    if c2 < k {
                        assert(oc[c2].connection_id@ != oc[k as int].connection_id@);
                    } else {
                        assert(oc[k as int].connection_id@ != oc[c2].connection_id@);
                    }
                }
                assert(nd[w] == od[w]);
            }
            assert forall|d2: int|
                0 <= d2 < nd.len() && (#[trigger] nd[d2]).claimed_connection_id is Some implies holds(
                nc,
                nd[d2].claimed_connection_id.unwrap()@,
                nd[d2].id@,
            ) by {
                assert(d2 != d);
                assert(nd[d2] == od[d2]);
                let w = choose|w: int|
                    0 <= w < oc.len() && #[trigger] oc[w].connection_id@ == od[d2].claimed_connection_id.unwrap()@
                        && opt_str(oc[w].device_id) == Some(od[d2].id@);
                if w == k {
                    if d2 < d {
                        assert(od[d2].id@ != od[d as int].id@);
                    } else {
                        assert(od[d as int].id@ != od[d2].id@);
                    }
                }
                assert(nc[w] == oc[w]);
            }
            assert forall|c2: int, t: nat, q: nat|
                0 <= c2 < nc.len() && #[trigger] nc[c2].connection_id@ == #[trigger] id_text("n-"@, t, q)
                    implies q < self.id_seq by {
                assert(nc[c2].connection_id@ == oc[c2].connection_id@);
            }
        }
        Ok(Some(cid))
    }

    /// Connection `connection_id` was heard from: its last-seen time is now.
    pub fn touch(&mut self, connection_id: &str)
        requires
            old(self).wf(),
        ensures
            final(self).wf(),
            touched(*old(self), *final(self), conn_index(old(self).connections@, connection_id@)),
    {
        let at = now_millis();
        self.touch_at(connection_id, at);
    }

    /// Connection `connection_id` was heard from at time `at`: its last-seen
    /// time becomes `at`; an unknown connection changes nothing.
    pub fn touch_at(&mut self, connection_id: &str, at: i64)
        requires
            old(self).wf(),
        ensures
            final(self).wf(),
            touched(*old(self), *final(self), conn_index(old(self).connections@, connection_id@)),
            conn_index(old(self).connections@, connection_id@) >= 0 ==> final(self).connections@[conn_index(
                old(self).connections@,
                connection_id@,
            )].last_seen == at,
            conn_index(old(self).connections@, connection_id@) < 0 ==> *final(self) == *old(self),
    {
        match find_conn(&self.connections, connection_id) {
            Some(k) => {
                let ghost oc = self.connections@;
                let mut conn = self.connections[k].copy();
                conn.last_seen = at;
                self.connections.set(k, conn);
                proof {
                    let nc = self.connections@;
                    assert(distinct_conns(nc)) by {
                        assert forall|a: int, b: int| 0 <= a < b < nc.len() implies #[trigger] nc[a].connection_id@
                            != #[trigger] nc[b].connection_id@ by {
                            assert(oc[a].connection_id@ != oc[b].connection_id@);
                        }
                    }
                    assert forall|c2: int|
                        0 <= c2 < nc.len() && (#[trigger] nc[c2]).device_id is Some implies claimed_by(
                        self.devices@,
                        nc[c2].device_id.unwrap()@,
                        nc[c2].connection_id@,
                    ) by {
                        assert(oc[c2].device_id == nc[c2].device_id);
                    }
                    assert forall|d2: int|
                        0 <= d2 < self.devices@.len() && (#[trigger] self.devices@[d2]).claimed_connection_id is Some
                            implies holds(
                        nc,
                        self.devices@[d2].claimed_connection_id.unwrap()@,
                        self.devices@[d2].id@,
                    ) by {
                        let w = choose|w: int|
                            0 <= w < oc.len() && #[trigger] oc[w].connection_id@
                                == self.devices@[d2].claimed_connection_id.unwrap()@ && opt_str(oc[w].device_id)
                                == Some(self.devices@[d2].id@);
                        assert(nc[w].connection_id@ == oc[w].connection_id@);
                    }
                    assert forall|c2: int, t: nat, q: nat|
                        0 <= c2 < nc.len() && #[trigger] nc[c2].connection_id@ == #[trigger] id_text("n-"@, t, q)
                            implies q < self.id_seq by {
                        assert(nc[c2].connection_id@ == oc[c2].connection_id@);
                    }
                }
            },
            None => {},
        }
    }
}

} // verus!
