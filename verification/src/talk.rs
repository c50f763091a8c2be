//! Normal mode: students chat from PC to PC and ping addresses; the
//! classroom keeps the latest chat messages.

use vstd::prelude::*;
use crate::addr::{ipv4_of, parse_ipv4};
use crate::claims::rest_unchanged;
use crate::classroom::{
    conn_index, dev_index, find_conn, find_device, port_refs, refs_of, ChatMsg, Classroom, Device, Port, CHAT_LOG_CAP,
};
use crate::kinds::{DeviceKind, Mode};
use crate::reach::{is_reachable, reach_spec};
use crate::text::str_eq;
use crate::topo::{as_opt_ref, clone_opt, opt_str};
use vstd::string::StringExecFns;

verus! {

/// Why a chat message or a ping is refused.
#[derive(Debug, Clone, Copy, PartialEq, Eq, Structural)]
pub enum CommError {
    NeedNormal,
    NotPc,
    NotPcOrRouter,
    Unreachable,
    BadIp,
    UnknownConn,
}

/// A chat message that went through, and who is to hear of it.
#[derive(Debug)]
pub struct ChatDelivery {
    pub from_ip: String,
    pub to_ip: String,
    pub text: String,
    pub from_connection_id: String,
    pub to_connection_id: Option<String>,
}

/// A chat message as text.
pub open spec fn chat_view(m: ChatMsg) -> (Seq<char>, Seq<char>, Seq<char>, bool) {
    (m.from_ip@, m.to_ip@, m.text@, m.delivered)
}

pub open spec fn chat_views(log: Seq<ChatMsg>) -> Seq<(Seq<char>, Seq<char>, Seq<char>, bool)> {
    log.map_values(|m: ChatMsg| chat_view(m))
}

/// The last `cap` entries of `s`.
pub open spec fn keep_last<A>(s: Seq<A>, cap: nat) -> Seq<A> {
    if s.len() > cap {
        s.skip(s.len() - cap)
    } else {
        s
    }
}

/// Everything but the chat log is as it was.
pub open spec fn same_but_chat(o: Classroom, n: Classroom) -> bool {
    &&& n.classroom_id == o.classroom_id
    &&& n.title == o.title
    &&& n.claim_state == o.claim_state
    &&& n.mode == o.mode
    &&& n.created_at == o.created_at
    &&& n.inventory == o.inventory
    &&& n.devices == o.devices
    &&& n.connections == o.connections
    &&& n.links == o.links
    &&& n.mac_table == o.mac_table
    &&& n.arp_table == o.arp_table
    &&& n.tap_attaches == o.tap_attaches
    &&& n.frames == o.frames
    &&& n.tap_log == o.tap_log
    &&& n.id_seq == o.id_seq
    &&& n.mac_seq == o.mac_seq
}

/// The device connection `cid` holds, if the connection exists and holds one.
pub open spec fn held_by(o: Classroom, cid: Seq<char>) -> Option<Seq<char>> {
    let c = conn_index(o.connections@, cid);
    if c >= 0 {
        opt_str(o.connections@[c].device_id)
    } else {
        None
    }
}

/// Port `p` is the first of `ports` with an address.
pub open spec fn is_first_addressed(ports: Seq<Port>, p: int) -> bool {
    &&& 0 <= p < ports.len()
    &&& ports[p].ip is Some
    &&& forall|q: int| 0 <= q < p ==> (#[trigger] ports[q]).ip is None
}

/// The address of a device: that of its first port with one.
pub open spec fn device_ip(d: Device) -> Option<Seq<char>> {
    if exists|p: int| is_first_addressed(d.ports@, p) {
        opt_str(d.ports@[choose|p: int| is_first_addressed(d.ports@, p)].ip)
    } else {
        None
    }
}

/// Device `d` is the first PC with a port at address `ip`.
pub open spec fn is_first_pc_at(devs: Seq<Device>, ip: Seq<char>, d: int) -> bool {
    &&& 0 <= d < devs.len()
    &&& pc_at(devs[d], ip)
    &&& forall|e: int| 0 <= e < d ==> !pc_at(#[trigger] devs[e], ip)
}

/// `d` is a PC with a port at address `ip`.
pub open spec fn pc_at(d: Device, ip: Seq<char>) -> bool {
    d.kind == DeviceKind::Pc && exists|p: int| 0 <= p < d.ports@.len() && #[trigger] opt_str(d.ports@[p].ip) == Some(ip)
}

/// The index of the first PC at address `ip`, or -1.
pub open spec fn pc_index(devs: Seq<Device>, ip: Seq<char>) -> int {
    if exists|d: int| is_first_pc_at(devs, ip, d) {
        choose|d: int| is_first_pc_at(devs, ip, d)
    } else {
        -1
    }
}

/// Why connection `cid` may not send a chat message to `to_ip`, checked in
/// this order, if it may not.
pub open spec fn chat_error(o: Classroom, cid: Seq<char>, to_ip: Seq<char>) -> Option<CommError> {
    let c = conn_index(o.connections@, cid);
    let held = held_by(o, cid);
    let d = dev_index(o.devices@, held.unwrap());
    if o.mode != Mode::Normal {
        Some(CommError::NeedNormal)
    } else if ipv4_of(to_ip) is None {
        Some(CommError::BadIp)
    } else if c < 0 {
        Some(CommError::UnknownConn)
    } else if held is None {
        Some(CommError::NotPc)
    } else if d < 0 {
        Some(CommError::UnknownConn)
    } else if o.devices@[d].kind != DeviceKind::Pc {
        Some(CommError::NotPc)
    } else if device_ip(o.devices@[d]) is None {
        Some(CommError::Unreachable)
    } else if pc_index(o.devices@, to_ip) < 0 {
        Some(CommError::Unreachable)
    } else if !reach_spec(held.unwrap(), to_ip, refs_of(o.devices@), o.links@) {
        Some(CommError::Unreachable)
    } else {
        None
    }
}

/// A message from connection `cid` to `to_ip` gets as far as the log: the
/// sender is a PC with an address.
pub open spec fn chat_logged(o: Classroom, cid: Seq<char>, to_ip: Seq<char>) -> bool {
    let e = chat_error(o, cid, to_ip);
    e is None || (e == Some(CommError::Unreachable) && device_ip(
        o.devices@[dev_index(o.devices@, held_by(o, cid).unwrap())],
    ) is Some)
}

/// Why connection `cid` may not ping `to_ip`, checked in this order, if it
/// may not.
pub open spec fn ping_error(o: Classroom, cid: Seq<char>, to_ip: Seq<char>) -> Option<CommError> {
    let c = conn_index(o.connections@, cid);
    let held = held_by(o, cid);
    let d = dev_index(o.devices@, held.unwrap());
    if o.mode != Mode::Normal {
        Some(CommError::NeedNormal)
    } else if ipv4_of(to_ip) is None {
        Some(CommError::BadIp)
    } else if c < 0 {
        Some(CommError::UnknownConn)
    } else if held is None {
        Some(CommError::NotPcOrRouter)
    } else if d < 0 {
        Some(CommError::UnknownConn)
    } else if !(o.devices@[d].kind == DeviceKind::Pc || o.devices@[d].kind == DeviceKind::Router) {
        Some(CommError::NotPcOrRouter)
    } else if !reach_spec(held.unwrap(), to_ip, refs_of(o.devices@), o.links@) {
        Some(CommError::Unreachable)
    } else {
        None
    }
}

/// The reply to a ping that got through.
pub open spec fn ping_reply(to_ip: Seq<char>) -> Seq<char> {
    "来自 "@ + to_ip + " 的虚拟响应"@
}

/// The address of device `d`: that of its first port with one.
pub(crate) fn first_ip(d: &Device) -> (r: Option<String>)
    ensures
        opt_str(r) == device_ip(*d),
{
    let mut p: usize = 0;
    while p < d.ports.len()
        invariant
            p <= d.ports@.len(),
            forall|q: int| 0 <= q < p ==> (#[trigger] d.ports@[q]).ip is None,
        decreases d.ports@.len() - p,
    {
        if d.ports[p].ip.is_some() {
            proof {
                assert(is_first_addressed(d.ports@, p as int));
                let q = choose|q: int| is_first_addressed(d.ports@, q);
                if q < p {
                    assert(d.ports@[q].ip is None);
                } else if q > p {
                    assert(d.ports@[p as int].ip is None);
                }
            }
            return clone_opt(&d.ports[p].ip);
        }
        p += 1;
    }
    proof {
        if exists|q: int| is_first_addressed(d.ports@, q) {
            let q = choose|q: int| is_first_addressed(d.ports@, q);
            assert(d.ports@[q].ip is None);
        }
    }
    None
}

pub(crate) fn has_ip(d: &Device, ip: &str) -> (r: bool)
    ensures
        r == exists|p: int| 0 <= p < d.ports@.len() && #[trigger] opt_str(d.ports@[p].ip) == Some(ip@),
{
    let mut p: usize = 0;
    while p < d.ports.len()
        invariant
            p <= d.ports@.len(),
            forall|q: int| 0 <= q < p ==> #[trigger] opt_str(d.ports@[q].ip) != Some(ip@),
        decreases d.ports@.len() - p,
    {
        let hit = match as_opt_ref(&d.ports[p].ip) {
            Some(x) => str_eq(x, ip),
            None => false,
        };
        if hit {
            assert(opt_str(d.ports@[p as int].ip) == Some(ip@));
            return true;
        }
        p += 1;
    }
    false
}

/// The first PC with a port at address `ip`.
pub fn find_pc_at(devs: &Vec<Device>, ip: &str) -> (r: Option<usize>)
    ensures
        match r {
            Some(d) => d as int == pc_index(devs@, ip@) && is_first_pc_at(devs@, ip@, d as int),
            None => pc_index(devs@, ip@) == -1,
        },
{
    let mut d: usize = 0;
    while d < devs.len()
        invariant
            d <= devs@.len(),
            forall|e: int| 0 <= e < d ==> !pc_at(#[trigger] devs@[e], ip@),
        decreases devs@.len() - d,
    {
        if devs[d].kind == DeviceKind::Pc && has_ip(&devs[d], ip) {
            proof {
                assert(is_first_pc_at(devs@, ip@, d as int));
                let e = pc_index(devs@, ip@);
                if e != d {
                    assert(is_first_pc_at(devs@, ip@, e));
                    if e < d {
                        assert(!pc_at(devs@[e], ip@));
                    } else {
                        assert(!pc_at(devs@[d as int], ip@));
                    }
                }
            }
            return Some(d);
        }
        d += 1;
    }
    proof {
        if exists|e: int| is_first_pc_at(devs@, ip@, e) {
            let e = choose|e: int| is_first_pc_at(devs@, ip@, e);
            assert(!pc_at(devs@[e], ip@));
        }
    }
    None
}

impl Classroom {
    /// Logs a chat message, keeping only the latest ones.
    fn push_chat(&mut self, from_ip: &str, to_ip: &str, text: &str, delivered: bool)
        ensures
            chat_views(final(self).chat_log@) == keep_last(
                chat_views(old(self).chat_log@).push((from_ip@, to_ip@, text@, delivered)),
                CHAT_LOG_CAP as nat,
            ),
            final(self).chat_log@.len() <= CHAT_LOG_CAP,
            same_but_chat(*old(self), *final(self)),
    {
        let ghost full = chat_views(self.chat_log@).push((from_ip@, to_ip@, text@, delivered));
        self.chat_log.push(
            ChatMsg {
                from_ip: String::from_str(from_ip),
                to_ip: String::from_str(to_ip),
                text: String::from_str(text),
                delivered,
            },
        );
        assert(chat_views(self.chat_log@) =~= full);
        while self.chat_log.len() > CHAT_LOG_CAP
            invariant
                full.len() >= self.chat_log@.len(),
                self.chat_log@.len() == full.len() || self.chat_log@.len() >= CHAT_LOG_CAP,
                chat_views(self.chat_log@) == full.skip(full.len() - self.chat_log@.len()),
                same_but_chat(*old(self), *self),
            decreases self.chat_log@.len(),
        {
            let ghost before = self.chat_log@;
            self.chat_log.remove(0);
            assert(self.chat_log@ == before.remove(0));
            assert forall|i: int| 0 <= i < self.chat_log@.len() implies #[trigger] chat_views(self.chat_log@)[i]
                == chat_views(before)[i + 1] by {
                assert(self.chat_log@[i] == before[i + 1]);
            }
            assert(chat_views(self.chat_log@) =~= full.skip(full.len() - self.chat_log@.len()));
        }
        assert(full.skip(0) =~= full);
        proof {
            if full.len() > CHAT_LOG_CAP {
                assert(self.chat_log@.len() == CHAT_LOG_CAP);
            }
        }
    }

    /// A student sends a chat message from the PC it holds to address
    /// `to_ip`.  A message that a PC with an address sends is logged, as
    /// delivered or not.
    pub fn send_chat(&mut self, connection_id: &str, to_ip: &str, text: &str) -> (r: Result<ChatDelivery, CommError>)
        requires
            old(self).wf(),
        ensures
            final(self).wf(),
            same_but_chat(*old(self), *final(self)),
            match chat_error(*old(self), connection_id@, to_ip@) {
                Some(e) => r == Err::<ChatDelivery, CommError>(e),
                None => r matches Ok(del) && {
                    let d = dev_index(old(self).devices@, held_by(*old(self), connection_id@).unwrap());
                    let t = pc_index(old(self).devices@, to_ip@);
                    &&& Some(del.from_ip@) == device_ip(old(self).devices@[d])
                    &&& del.to_ip@ == to_ip@
                    &&& del.text@ == text@
                    &&& del.from_connection_id@ == connection_id@
                    &&& opt_str(del.to_connection_id) == opt_str(old(self).devices@[t].claimed_connection_id)
                },
            },
            if chat_logged(*old(self), connection_id@, to_ip@) {
                chat_views(final(self).chat_log@) == keep_last(
                    chat_views(old(self).chat_log@).push(
                        (
                            device_ip(
                                old(self).devices@[dev_index(
                                    old(self).devices@,
                                    held_by(*old(self), connection_id@).unwrap(),
                                )],
                            ).unwrap(),
                            to_ip@,
                            text@,
                            r is Ok,
                        ),
                    ),
                    CHAT_LOG_CAP as nat,
                )
            } else {
                final(self).chat_log@ == old(self).chat_log@
            },
    {
        if self.mode != Mode::Normal {
            return Err(CommError::NeedNormal);
        }
        if parse_ipv4(to_ip).is_none() {
            return Err(CommError::BadIp);
        }
        let c = match find_conn(&self.connections, connection_id) {
            Some(c) => c,
            None => {
                return Err(CommError::UnknownConn);
            },
        };
        let device_id = match clone_opt(&self.connections[c].device_id) {
            Some(id) => id,
            None => {
                return Err(CommError::NotPc);
            },
        };
        let d = match find_device(&self.devices, device_id.as_str()) {
            Some(d) => d,
            None => {
                return Err(CommError::UnknownConn);
            },
        };
        if self.devices[d].kind != DeviceKind::Pc {
            return Err(CommError::NotPc);
        }
        let from_ip = match first_ip(&self.devices[d]) {
            Some(ip) => ip,
            None => {
                return Err(CommError::Unreachable);
            },
        };
        let to_connection_id = match find_pc_at(&self.devices, to_ip) {
            Some(t) => clone_opt(&self.devices[t].claimed_connection_id),
            None => {
                self.push_chat(from_ip.as_str(), to_ip, text, false);
                return Err(CommError::Unreachable);
            },
        };
        let refs = port_refs(&self.devices);
        if !is_reachable(device_id.as_str(), to_ip, refs.as_slice(), self.links.as_slice()) {
            self.push_chat(from_ip.as_str(), to_ip, text, false);
            return Err(CommError::Unreachable);
        }
        self.push_chat(from_ip.as_str(), to_ip, text, true);
        Ok(
            ChatDelivery {
                from_ip,
                to_ip: String::from_str(to_ip),
                text: String::from_str(text),
                from_connection_id: String::from_str(connection_id),
                to_connection_id,
            },
        )
    }

    /// A student pings address `to_ip` from the PC or router it holds.
    pub fn ping(&self, connection_id: &str, to_ip: &str) -> (r: Result<String, CommError>)
        requires
            self.wf(),
        ensures
            match ping_error(*self, connection_id@, to_ip@) {
                Some(e) => r == Err::<String, CommError>(e),
                None => r matches Ok(reply) && reply@ == ping_reply(to_ip@),
            },
    {
        if self.mode != Mode::Normal {
            return Err(CommError::NeedNormal);
        }
        if parse_ipv4(to_ip).is_none() {
            return Err(CommError::BadIp);
        }
        let c = match find_conn(&self.connections, connection_id) {
            Some(c) => c,
            None => {
                return Err(CommError::UnknownConn);
            },
        };
        let device_id = match as_opt_ref(&self.connections[c].device_id) {
            Some(id) => id,
            None => {
                return Err(CommError::NotPcOrRouter);
            },
        };
        let d = match find_device(&self.devices, device_id) {
            Some(d) => d,
            None => {
                return Err(CommError::UnknownConn);
            },
        };
        let kind = self.devices[d].kind;
        if !(kind == DeviceKind::Pc || kind == DeviceKind::Router) {
            return Err(CommError::NotPcOrRouter);
        }
        let refs = port_refs(&self.devices);
        if !is_reachable(device_id, to_ip, refs.as_slice(), self.links.as_slice()) {
            return Err(CommError::Unreachable);
        }
        let mut reply = String::from_str("来自 ");
        reply.append(to_ip);
        reply.append(" 的虚拟响应");
        Ok(reply)
    }
}

} // verus!
