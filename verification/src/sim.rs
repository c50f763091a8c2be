//! Simulation mode: a student's PC builds a frame, and the students holding
//! switches and routers forward it hop by hop; taps keep copies of what
//! crosses their link.

use vstd::prelude::*;
use crate::addr::{ipv4_of, parse_ipv4};
use crate::classroom::{
    conn_index, dev_index, distinct_devices, distinct_frames, find_conn, find_device, find_frame, frame_index,
    inflight_in, lemma_inflight_update, lemma_tap_count_remove, port_refs, refs_of, tap_count, tap_log_bounded,
    Classroom, Device, TapAttach, TapLogEntry, MAX_INFLIGHT_FRAMES, TAP_LOG_CAP,
};
use crate::clock::now_millis;
use crate::frame::{
    frame_macs, frame_macs_spec, host_mac_spec, rewrite_router_macs, router_out_port, router_out_spec, switch_out_port,
    switch_out_spec, SimFrame,
};
use crate::ids::{id_text, lemma_id_text_injective, new_frame_id, next_seq};
use crate::reach::{is_reachable, reach_spec};
use crate::kinds::{DeviceKind, Mode};
use crate::talk::{device_ip, first_ip, has_ip, held_by, pc_at};
use crate::text::str_eq;
use crate::topo::{clone_opt, link_id_for, link_name, opt_str, PortRef};
use crate::wiring::{find_port, owner_of, port_anywhere, port_in, port_index, port_named};
use vstd::string::StringExecFns;

verus! {

/// Why a frame cannot be built or forwarded.
#[derive(Debug, Clone, Copy, PartialEq, Eq, Structural)]
pub enum SimError {
    NeedSim,
    NotPc,
    Unreachable,
    BadIp,
    UnknownConn,
    UnknownFrame,
    WrongPort,
    NotHolder,
    NotForwarder,
    FrameLimit,
}

/// What a student is told as a frame moves.
#[derive(Debug)]
pub enum SimEvent {
    /// Its PC built the frame.
    Built { frame: SimFrame },
    /// The frame left the device it holds.
    Departed { frame_id: String },
    /// The frame reached the device it holds.
    Arrived { frame: SimFrame, at_device_id: String },
    /// The tap it holds saw the frame.
    Logged { frame: SimFrame },
}

/// An event for one connection.
#[derive(Debug)]
pub struct SimPush {
    pub connection_id: String,
    pub event: SimEvent,
}

/// The connection holding device `id`, if the device exists and is held.
pub open spec fn holder_of(devs: Seq<Device>, id: Seq<char>) -> Option<String> {
    let d = dev_index(devs, id);
    if d >= 0 {
        devs[d].claimed_connection_id
    } else {
        None
    }
}

/// Tap `t` is the first recorded on link `link`.
pub open spec fn is_first_tap_on(taps: Seq<TapAttach>, link: Seq<char>, t: int) -> bool {
    &&& 0 <= t < taps.len()
    &&& taps[t].link_id@ == link
    &&& forall|u: int| 0 <= u < t ==> #[trigger] taps[u].link_id@ != link
}

/// The index of the first tap on link `link`, or -1.
pub open spec fn tap_on(taps: Seq<TapAttach>, link: Seq<char>) -> int {
    if exists|t: int| is_first_tap_on(taps, link, t) {
        choose|t: int| is_first_tap_on(taps, link, t)
    } else {
        -1
    }
}

/// `nf` is `of` now at `at`.
pub open spec fn moved(of: SimFrame, nf: SimFrame, at: Seq<char>) -> bool {
    &&& nf.frame_id == of.frame_id
    &&& nf.dst_mac == of.dst_mac
    &&& nf.src_mac == of.src_mac
    &&& nf.src_ip == of.src_ip
    &&& nf.dst_ip == of.dst_ip
    &&& nf.payload == of.payload
    &&& nf.status == of.status
    &&& nf.at_device_id@ == at
}

/// `nf` is `of` arrived at device `dev`: delivered when `dev` is a PC with
/// the destination address.
pub open spec fn arrived(of: SimFrame, nf: SimFrame, dev: Device) -> bool {
    &&& nf.frame_id == of.frame_id
    &&& nf.dst_mac == of.dst_mac
    &&& nf.src_mac == of.src_mac
    &&& nf.src_ip == of.src_ip
    &&& nf.dst_ip == of.dst_ip
    &&& nf.payload == of.payload
    &&& nf.at_device_id@ == dev.id@
    &&& nf.status@ == if pc_at(dev, of.dst_ip@) {
        "delivered"@
    } else {
        of.status@
    }
}

/// The index of the first entry tap `t` made, or -1.
pub open spec fn first_of_tap(log: Seq<TapLogEntry>, t: Seq<char>) -> int {
    if exists|i: int| 0 <= i < log.len() && #[trigger] log[i].tap_id@ == t {
        choose|i: int|
            0 <= i < log.len() && #[trigger] log[i].tap_id@ == t && forall|j: int| 0 <= j < i ==> #[trigger] log[j].tap_id@ != t
    } else {
        -1
    }
}

/// `log` with the oldest entry of tap `t` dropped when `t` has more than
/// its share.
pub open spec fn trimmed(log: Seq<TapLogEntry>, t: Seq<char>) -> Seq<TapLogEntry> {
    if tap_count(log, t) > TAP_LOG_CAP {
        log.remove(first_of_tap(log, t))
    } else {
        log
    }
}

/// Everything but the frames, the tap log and the id counter is as it was.
pub open spec fn same_but_frames(o: Classroom, n: Classroom) -> bool {
    &&& n.classroom_id == o.classroom_id
    &&& n.title == o.title
    &&& n.claim_state == o.claim_state
    &&& n.mode == o.mode
    &&& n.created_at == o.created_at
    &&& n.inventory == o.inventory
    &&& n.devices == o.devices
    &&& n.connections == o.connections
    &&& n.links == o.links
    &&& n.mac_table == o.mac_table
    &&& n.arp_table == o.arp_table
    &&& n.tap_attaches == o.tap_attaches
    &&& n.chat_log == o.chat_log
    &&& n.mac_seq == o.mac_seq
}

/// Frame `fi` is the only one that changed, into `nf`.
pub open spec fn frame_replaced(o: Seq<SimFrame>, n: Seq<SimFrame>, fi: int) -> bool {
    &&& n.len() == o.len()
    &&& forall|j: int| 0 <= j < n.len() && j != fi ==> #[trigger] n[j] == o[j]
}

/// The event for the holder of device `id`, if it is held.
pub open spec fn for_holder(devs: Seq<Device>, id: Seq<char>, ev: SimEvent) -> Seq<SimPush> {
    match holder_of(devs, id) {
        Some(c) => seq![SimPush { connection_id: c, event: ev }],
        None => Seq::empty(),
    }
}

/// Frame `fi` crossed tap `t`: it is at the tap, the tap keeps a copy made
/// at some time, and the tap's holder hears of it.
pub open spec fn passed_tap(o: Classroom, n: Classroom, fi: int, t: int, ev_o: Seq<SimPush>, ev_n: Seq<SimPush>) -> bool {
    let tap = o.tap_attaches@[t].tap_id;
    let nf = n.frames@[fi];
    &&& frame_replaced(o.frames@, n.frames@, fi)
    &&& moved(o.frames@[fi], nf, tap@)
    &&& exists|at: i64| n.tap_log@ == trimmed(o.tap_log@.push(TapLogEntry { tap_id: tap, frame: nf, at }), tap@)
    &&& ev_n == ev_o + for_holder(o.devices@, tap@, SimEvent::Logged { frame: nf })
    &&& n.id_seq == o.id_seq
    &&& same_but_frames(o, n)
}

/// Frame `fi` reached device `d`, whose holder hears of it.
pub open spec fn arrived_at(o: Classroom, n: Classroom, fi: int, d: int, ev_o: Seq<SimPush>, ev_n: Seq<SimPush>) -> bool {
    let nf = n.frames@[fi];
    let dev = o.devices@[d];
    &&& frame_replaced(o.frames@, n.frames@, fi)
    &&& arrived(o.frames@[fi], nf, dev)
    &&& n.tap_log == o.tap_log
    &&& ev_n == ev_o + for_holder(o.devices@, dev.id@, SimEvent::Arrived { frame: nf, at_device_id: dev.id })
    &&& n.id_seq == o.id_seq
    &&& same_but_frames(o, n)
}

/// The tap stage of a hop: across the tap on the link, if there is one.
pub open spec fn tap_stage(o: Classroom, n: Classroom, fi: int, t: int, ev_o: Seq<SimPush>, ev_n: Seq<SimPush>) -> bool {
    if t >= 0 {
        passed_tap(o, n, fi, t, ev_o, ev_n)
    } else {
        n == o && ev_n == ev_o
    }
}

/// Frame `fi` goes out of port `out`: across the cable, past the tap on it
/// if any, to the device at the other end.  `ok` is false when the port or
/// its cable or the other end is unknown; the frame is left where it got.
pub open spec fn hop(
    o: Classroom,
    n: Classroom,
    fi: int,
    out: Seq<char>,
    ev_o: Seq<SimPush>,
    ev_n: Seq<SimPush>,
    ok: bool,
) -> bool {
    let peer = port_named(o.devices@, out).peer_port_id;
    if !port_anywhere(o.devices@, out) || peer is None {
        !ok && n == o && ev_n == ev_o
    } else {
        let t = tap_on(o.tap_attaches@, link_name(out, peer.unwrap()@));
        let d = owner_of(o.devices@, peer.unwrap()@);
        exists|mid: Classroom, ev_m: Seq<SimPush>|
            #[trigger] tap_stage(o, mid, fi, t, ev_o, ev_m) && if d < 0 {
                !ok && n == mid && ev_n == ev_m
            } else {
                ok && arrived_at(mid, n, fi, d, ev_m, ev_n)
            }
    }
}

/// A hop moves the frame without touching its addresses or payload.
pub(crate) proof fn lemma_hop_keeps(
    o: Classroom,
    n: Classroom,
    fi: int,
    out: Seq<char>,
    ev_o: Seq<SimPush>,
    ev_n: Seq<SimPush>,
    ok: bool,
)
    requires
        hop(o, n, fi, out, ev_o, ev_n, ok),
        0 <= fi < o.frames@.len(),
    ensures
        n.frames@.len() == o.frames@.len(),
        n.frames@[fi].frame_id == o.frames@[fi].frame_id,
        n.frames@[fi].dst_mac == o.frames@[fi].dst_mac,
        n.frames@[fi].src_mac == o.frames@[fi].src_mac,
        n.frames@[fi].src_ip == o.frames@[fi].src_ip,
        n.frames@[fi].dst_ip == o.frames@[fi].dst_ip,
        n.frames@[fi].payload == o.frames@[fi].payload,
{
    let peer = port_named(o.devices@, out).peer_port_id;
    if port_anywhere(o.devices@, out) && peer is Some {
        let t = tap_on(o.tap_attaches@, link_name(out, peer.unwrap()@));
        let d = owner_of(o.devices@, peer.unwrap()@);
        let (mid, ev_m) = choose|mid: Classroom, ev_m: Seq<SimPush>|
            #[trigger] tap_stage(o, mid, fi, t, ev_o, ev_m) && if d < 0 {
                !ok && n == mid && ev_n == ev_m
            } else {
                ok && arrived_at(mid, n, fi, d, ev_m, ev_n)
            };
        assert(mid.frames@.len() == o.frames@.len());
    }
}

/// How many frames are still on their way.
pub fn inflight_count(frames: &Vec<SimFrame>) -> (r: usize)
    ensures
        r == inflight_in(frames@),
{
    let mut r: usize = 0;
    let mut i: usize = 0;
    assert(frames@.take(0) =~= Seq::<SimFrame>::empty());
    while i < frames.len()
        invariant
            i <= frames@.len(),
            r == inflight_in(frames@.take(i as int)),
            r <= i,
        decreases frames@.len() - i,
    {
        proof {
            assert(frames@.take(i + 1).drop_last() =~= frames@.take(i as int));
        }
        if str_eq(frames[i].status.as_str(), "inflight") {
            r += 1;
        }
        i += 1;
    }
    assert(frames@.take(frames@.len() as int) =~= frames@);
    r
}

/// The connection holding device `id`, if any.
fn conn_of(devs: &Vec<Device>, id: &str) -> (r: Option<String>)
    requires
        distinct_devices(devs@),
    ensures
        r == holder_of(devs@, id@),
{
    match find_device(devs, id) {
        Some(d) => clone_opt(&devs[d].claimed_connection_id),
        None => None,
    }
}

/// The first tap on the link between ports `a` and `b`.
fn tap_on_link(taps: &Vec<TapAttach>, a: &str, b: &str) -> (r: Option<usize>)
    ensures
        match r {
            Some(t) => t as int == tap_on(taps@, link_name(a@, b@)) && is_first_tap_on(taps@, link_name(a@, b@), t as int),
            None => tap_on(taps@, link_name(a@, b@)) == -1,
        },
{
    let want = link_id_for(a, b);
    let mut t: usize = 0;
    while t < taps.len()
        invariant
            t <= taps@.len(),
            want@ == link_name(a@, b@),
            forall|u: int| 0 <= u < t ==> #[trigger] taps@[u].link_id@ != want@,
        decreases taps@.len() - t,
    {
        if str_eq(taps[t].link_id.as_str(), want.as_str()) {
            proof {
                assert(is_first_tap_on(taps@, want@, t as int));
                let u = tap_on(taps@, want@);
                if u != t {
                    assert(is_first_tap_on(taps@, want@, u));
                    if u < t {
                        assert(taps@[u].link_id@ != want@);
                    } else {
                        assert(taps@[t as int].link_id@ != want@);
                    }
                }
            }
            return Some(t);
        }
        t += 1;
    }
    proof {
        if exists|u: int| is_first_tap_on(taps@, want@, u) {
            let u = choose|u: int| is_first_tap_on(taps@, want@, u);
            assert(taps@[u].link_id@ != want@);
        }
    }
    None
}

proof fn lemma_tap_count_push(log: Seq<TapLogEntry>, e: TapLogEntry, x: Seq<char>)
    ensures
        tap_count(log.push(e), x) == tap_count(log, x) + if e.tap_id@ == x {
            1nat
        } else {
            0nat
        },
{
    assert(log.push(e).drop_last() =~= log);
}

/// How many entries tap `t` made.
fn count_tap(log: &Vec<TapLogEntry>, t: &str) -> (r: usize)
    ensures
        r == tap_count(log@, t@),
{
    let mut r: usize = 0;
    let mut i: usize = 0;
    assert(log@.take(0) =~= Seq::<TapLogEntry>::empty());
    while i < log.len()
        invariant
            i <= log@.len(),
            r == tap_count(log@.take(i as int), t@),
            r <= i,
        decreases log@.len() - i,
    {
        proof {
            assert(log@.take(i + 1).drop_last() =~= log@.take(i as int));
        }
        if str_eq(log[i].tap_id.as_str(), t) {
            r += 1;
        }
        i += 1;
    }
    assert(log@.take(log@.len() as int) =~= log@);
    r
}

/// The first entry tap `t` made.
fn first_tap_entry(log: &Vec<TapLogEntry>, t: &str) -> (r: Option<usize>)
    ensures
        match r {
            Some(i) => i as int == first_of_tap(log@, t@) && i < log@.len() && log@[i as int].tap_id@ == t@,
            None => forall|j: int| 0 <= j < log@.len() ==> #[trigger] log@[j].tap_id@ != t@,
        },
{
    let mut i: usize = 0;
    while i < log.len()
        invariant
            i <= log@.len(),
            forall|j: int| 0 <= j < i ==> #[trigger] log@[j].tap_id@ != t@,
        decreases log@.len() - i,
    {
        if str_eq(log[i].tap_id.as_str(), t) {
            proof {
                assert(exists|k: int| 0 <= k < log@.len() && #[trigger] log@[k].tap_id@ == t@);
                let k = first_of_tap(log@, t@);
                if k != i {
                    if k < i {
                        assert(log@[k].tap_id@ != t@);
                    } else {
                        assert(log@[i as int].tap_id@ != t@);
                    }
                }
            }
            return Some(i);
        }
        i += 1;
    }
    None
}

/// Adds entry `e` to the tap log, dropping the oldest entry of its tap when
/// the tap has more than its share.
fn record_tap(log: &mut Vec<TapLogEntry>, e: TapLogEntry)
    requires
        tap_log_bounded(old(log)@),
    ensures
        final(log)@ == trimmed(old(log)@.push(e), e.tap_id@),
        tap_log_bounded(final(log)@),
{
    let ghost o = log@;
    let ghost pushed = o.push(e);
    let ghost t = e.tap_id@;
    let tap = e.tap_id.clone();
    log.push(e);
    proof {
        assert(log@ == pushed);
        assert forall|x: Seq<char>| #[trigger] tap_count(pushed, x) == tap_count(o, x) + if t == x {
            1nat
        } else {
            0nat
        } by {
            lemma_tap_count_push(o, e, x);
        }
    }
    let count = count_tap(log, tap.as_str());
    if count > TAP_LOG_CAP {
        match first_tap_entry(log, tap.as_str()) {
            Some(i) => {
                proof {
                    assert forall|x: Seq<char>| #[trigger] tap_count(pushed.remove(i as int), x) <= TAP_LOG_CAP by {
                        lemma_tap_count_remove(pushed, i as int, x);
                    }
                }
                log.remove(i);
                proof {
                    assert(log@ == trimmed(pushed, t));
                }
            },
            None => {
                proof {
                    assert(log@[log@.len() - 1].tap_id@ == t);
                }
            },
        }
    } else {
        proof {
            assert(log@ == trimmed(pushed, t));
            assert forall|x: Seq<char>| #[trigger] tap_count(log@, x) <= TAP_LOG_CAP by {
                assert(tap_count(pushed, x) == tap_count(o, x) + if t == x {
                    1nat
                } else {
                    0nat
                });
            }
        }
    }
}

/// Frame ids stay as they were when only frame `fi` changed and kept its id.
proof fn lemma_frame_ids_kept(o: Classroom, n: Classroom, fi: int)
    requires
        o.wf(),
        frame_replaced(o.frames@, n.frames@, fi),
        0 <= fi < o.frames@.len(),
        n.frames@[fi].frame_id == o.frames@[fi].frame_id,
        n.frames@[fi].status@ == o.frames@[fi].status@ || n.frames@[fi].status@ != "inflight"@,
        n.id_seq == o.id_seq,
        n.connections == o.connections,
    ensures
        crate::classroom::distinct_frames(n.frames@),
        crate::classroom::ids_below(n.connections@, n.frames@, n.id_seq),
        inflight_in(n.frames@) <= MAX_INFLIGHT_FRAMES,
{
    assert(n.frames@ =~= o.frames@.update(fi, n.frames@[fi]));
    lemma_inflight_update(o.frames@, fi, n.frames@[fi]);
    let nf = n.frames@;
    assert forall|a: int, b: int| 0 <= a < b < nf.len() implies #[trigger] nf[a].frame_id@ != #[trigger] nf[b].frame_id@ by {
        assert(nf[a].frame_id == o.frames@[a].frame_id);
        assert(nf[b].frame_id == o.frames@[b].frame_id);
        assert(o.frames@[a].frame_id@ != o.frames@[b].frame_id@);
    }
    assert forall|j: int, tt: nat, q: nat|
        0 <= j < nf.len() && #[trigger] nf[j].frame_id@ == #[trigger] crate::ids::id_text("f-"@, tt, q) implies q
        < n.id_seq by {
        assert(nf[j].frame_id == o.frames@[j].frame_id);
    }
}

impl Classroom {
    /// Frame `fi` crosses tap `t`: it sits at the tap, the tap keeps a copy,
    /// and the tap's holder hears of it.
    fn cross_tap(&mut self, fi: usize, t: usize, events: &mut Vec<SimPush>)
        requires
            old(self).wf(),
            fi < old(self).frames@.len(),
            t < old(self).tap_attaches@.len(),
        ensures
            final(self).wf(),
            passed_tap(*old(self), *final(self), fi as int, t as int, old(events)@, final(events)@),
    {
        let ghost o = *self;
        let tap = self.tap_attaches[t].tap_id.clone();
        let mut f = self.frames[fi].copy();
        f.at_device_id = tap.clone();
        self.frames.set(fi, f);
        let copy = self.frames[fi].copy();
        let at = now_millis();
        record_tap(&mut self.tap_log, TapLogEntry { tap_id: tap.clone(), frame: copy, at });
        proof {
            lemma_frame_ids_kept(o, *self, fi as int);
        }
        let ghost ev0 = events@;
        let ghost expect = ev0 + for_holder(self.devices@, tap@, SimEvent::Logged { frame: self.frames@[fi as int] });
        match conn_of(&self.devices, tap.as_str()) {
            Some(c) => {
                events.push(SimPush { connection_id: c, event: SimEvent::Logged { frame: self.frames[fi].copy() } });
                assert(events@ =~= expect);
            },
            None => {
                assert(events@ =~= expect);
            },
        }
    }
}

impl Classroom {
    /// Frame `fi` reaches device `d`: it sits there, delivered when `d` is a
    /// PC with the destination address, and the device's holder hears of it.
    fn arrive(&mut self, fi: usize, d: usize, events: &mut Vec<SimPush>)
        requires
            old(self).wf(),
            fi < old(self).frames@.len(),
            d < old(self).devices@.len(),
        ensures
            final(self).wf(),
            arrived_at(*old(self), *final(self), fi as int, d as int, old(events)@, final(events)@),
    {
        let ghost o = *self;
        let here = self.devices[d].kind == DeviceKind::Pc && has_ip(&self.devices[d], self.frames[fi].dst_ip.as_str());
        let mut f = self.frames[fi].copy();
        f.at_device_id = self.devices[d].id.clone();
        if here {
            f.status = String::from_str("delivered");
        }
        self.frames.set(fi, f);
        proof {
            reveal_strlit("delivered");
            reveal_strlit("inflight");
            assert("delivered"@.len() != "inflight"@.len());
            lemma_frame_ids_kept(o, *self, fi as int);
            crate::classroom::lemma_dev_index(self.devices@, self.devices@[d as int].id@, d as int);
        }
        let ghost ev0 = events@;
        let ghost dev = self.devices@[d as int];
        let ghost expect = ev0 + for_holder(
            self.devices@,
            dev.id@,
            SimEvent::Arrived { frame: self.frames@[fi as int], at_device_id: dev.id },
        );
        match conn_of(&self.devices, self.devices[d].id.as_str()) {
            Some(c) => {
                events.push(
                    SimPush {
                        connection_id: c,
                        event: SimEvent::Arrived { frame: self.frames[fi].copy(), at_device_id: self.devices[d].id.clone() },
                    },
                );
                assert(events@ =~= expect);
            },
            None => {
                assert(events@ =~= expect);
            },
        }
    }

    /// Frame `fi` goes out of port `out`, across the tap on the link if
    /// any, to the device at the other end.  Refused as unreachable when
    /// the port, its cable or the other end is unknown; by then the frame
    /// may already sit at the tap.
    fn deliver_out(&mut self, fi: usize, out: &str, events: &mut Vec<SimPush>) -> (r: Result<(), SimError>)
        requires
            old(self).wf(),
            fi < old(self).frames@.len(),
        ensures
            final(self).wf(),
            hop(*old(self), *final(self), fi as int, out@, old(events)@, final(events)@, r is Ok),
            r is Err ==> r == Err::<(), SimError>(SimError::Unreachable),
    {
        let ghost o = *self;
        let ghost ev_o = events@;
        let peer = match find_port(&self.devices, out) {
            Some((d, p)) => match clone_opt(&self.devices[d].ports[p].peer_port_id) {
                Some(x) => x,
                None => {
                    return Err(SimError::Unreachable);
                },
            },
            None => {
                return Err(SimError::Unreachable);
            },
        };
        match tap_on_link(&self.tap_attaches, out, peer.as_str()) {
            Some(t) => {
                self.cross_tap(fi, t, events);
            },
            None => {},
        }
        let ghost mid = *self;
        let ghost ev_m = events@;
        proof {
            assert(tap_stage(o, mid, fi as int, tap_on(o.tap_attaches@, link_name(out@, peer@)), ev_o, ev_m));
        }
        match find_port(&self.devices, peer.as_str()) {
            Some((d, _)) => {
                self.arrive(fi, d, events);
                proof {
                    assert(tap_stage(o, mid, fi as int, tap_on(o.tap_attaches@, link_name(out@, peer@)), ev_o, ev_m)
                        && arrived_at(mid, *self, fi as int, d as int, ev_m, events@));
                }
                Ok(())
            },
            None => {
                proof {
                    assert(tap_stage(o, mid, fi as int, tap_on(o.tap_attaches@, link_name(out@, peer@)), ev_o, ev_m));
                }
                Err(SimError::Unreachable)
            },
        }
    }
}

/// Why connection `cid` may not send a frame to `to_ip`, checked in this
/// order, if it may not.
pub open spec fn sim_error(o: Classroom, cid: Seq<char>, to_ip: Seq<char>, text: Seq<char>) -> Option<SimError> {
    let c = conn_index(o.connections@, cid);
    let held = held_by(o, cid);
    let d = dev_index(o.devices@, held.unwrap());
    let dev = o.devices@[d];
    let refs = refs_of(o.devices@);
    if o.mode != Mode::Simulation {
        Some(SimError::NeedSim)
    } else if ipv4_of(to_ip) is None {
        Some(SimError::BadIp)
    } else if text.len() == 0 {
        Some(SimError::BadIp)
    } else if inflight_in(o.frames@) >= MAX_INFLIGHT_FRAMES {
        Some(SimError::FrameLimit)
    } else if c < 0 {
        Some(SimError::UnknownConn)
    } else if held is None {
        Some(SimError::NotPc)
    } else if d < 0 {
        Some(SimError::UnknownConn)
    } else if dev.kind != DeviceKind::Pc {
        Some(SimError::NotPc)
    } else if device_ip(dev) is None {
        Some(SimError::Unreachable)
    } else if dev.ports@.len() == 0 {
        Some(SimError::Unreachable)
    } else if !reach_spec(held.unwrap(), to_ip, refs, o.links@) {
        Some(SimError::Unreachable)
    } else if frame_macs_spec(held.unwrap(), to_ip, refs, o.arp_table@) is None {
        Some(SimError::Unreachable)
    } else if o.id_seq == u64::MAX {
        Some(SimError::FrameLimit)
    } else {
        None
    }
}

/// `mid` is `o` with the frame connection `cid` built for `to_ip`: a fresh
/// id made with clock value `t`, the addresses the PC writes, at the PC,
/// in flight.
pub open spec fn built(o: Classroom, mid: Classroom, cid: Seq<char>, to_ip: Seq<char>, text: Seq<char>, t: nat) -> bool {
    let held = held_by(o, cid).unwrap();
    let dev = o.devices@[dev_index(o.devices@, held)];
    let macs = frame_macs_spec(held, to_ip, refs_of(o.devices@), o.arp_table@).unwrap();
    let f = mid.frames@.last();
    &&& mid.frames@.len() == o.frames@.len() + 1
    &&& mid.frames@.drop_last() == o.frames@
    &&& f.frame_id@ == id_text("f-"@, t, o.id_seq as nat)
    &&& f.dst_mac@ == macs.0
    &&& f.src_mac@ == macs.1
    &&& Some(f.src_ip@) == device_ip(dev)
    &&& f.dst_ip@ == to_ip
    &&& f.payload@ == text
    &&& f.at_device_id@ == held
    &&& f.status@ == "inflight"@
    &&& mid.id_seq == next_seq(o.id_seq)
    &&& mid.tap_log == o.tap_log
    &&& same_but_frames(o, mid)
}

/// `evs` is the one event `ev` for connection `cid`.
pub open spec fn only_event(evs: Seq<SimPush>, cid: Seq<char>, ev: SimEvent) -> bool {
    evs.len() == 1 && evs[0].connection_id@ == cid && evs[0].event == ev
}

impl Classroom {
    /// A student's PC builds a frame to `to_ip` carrying `text` and sends it
    /// out of its first port.  Once built, the frame stays, even when the
    /// first hop fails.
    pub fn sim_send(&mut self, connection_id: &str, to_ip: &str, text: &str) -> (r: Result<(SimFrame, Vec<SimPush>), SimError>)
        requires
            old(self).wf(),
        ensures
            final(self).wf(),
            match sim_error(*old(self), connection_id@, to_ip@, text@) {
                Some(e) => r == Err::<(SimFrame, Vec<SimPush>), SimError>(e) && *final(self) == *old(self),
                None => exists|mid: Classroom, t: nat, ev0: Seq<SimPush>, evs: Seq<SimPush>|
                    #[trigger] built(*old(self), mid, connection_id@, to_ip@, text@, t) && only_event(
                        ev0,
                        connection_id@,
                        SimEvent::Built { frame: mid.frames@.last() },
                    ) && #[trigger] hop(
                        mid,
                        *final(self),
                        old(self).frames@.len() as int,
                        old(self).devices@[dev_index(old(self).devices@, held_by(*old(self), connection_id@).unwrap())].ports@[0].id@,
                        ev0,
                        evs,
                        r is Ok,
                    ) && match r {
                        Ok((f, e)) => f == final(self).frames@[old(self).frames@.len() as int] && e@ == evs,
                        Err(x) => x == SimError::Unreachable,
                    },
            },
    {
        if self.mode != Mode::Simulation {
            return Err(SimError::NeedSim);
        }
        if parse_ipv4(to_ip).is_none() {
            return Err(SimError::BadIp);
        }
        if text.unicode_len() == 0 {
            return Err(SimError::BadIp);
        }
        if inflight_count(&self.frames) >= MAX_INFLIGHT_FRAMES {
            return Err(SimError::FrameLimit);
        }
        let c = match find_conn(&self.connections, connection_id) {
            Some(c) => c,
            None => {
                return Err(SimError::UnknownConn);
            },
        };
        let device_id = match clone_opt(&self.connections[c].device_id) {
            Some(id) => id,
            None => {
                return Err(SimError::NotPc);
            },
        };
        let d = match find_device(&self.devices, device_id.as_str()) {
            Some(d) => d,
            None => {
                return Err(SimError::UnknownConn);
            },
        };
        if self.devices[d].kind != DeviceKind::Pc {
            return Err(SimError::NotPc);
        }
        let src_ip = match first_ip(&self.devices[d]) {
            Some(ip) => ip,
            None => {
                return Err(SimError::Unreachable);
            },
        };
        if self.devices[d].ports.len() == 0 {
            return Err(SimError::Unreachable);
        }
        let out_port = self.devices[d].ports[0].id.clone();
        let refs = port_refs(&self.devices);
        if !is_reachable(device_id.as_str(), to_ip, refs.as_slice(), self.links.as_slice()) {
            return Err(SimError::Unreachable);
        }
        let (dst_mac, src_mac) = match frame_macs(device_id.as_str(), to_ip, refs.as_slice(), self.arp_table.as_slice()) {
            Some(m) => m,
            None => {
                return Err(SimError::Unreachable);
            },
        };
        if self.id_seq == u64::MAX {
            return Err(SimError::FrameLimit);
        }
        let ghost o = *self;
        let frame_id = new_frame_id(&mut self.id_seq);
        let ghost t0 = choose|t: nat| frame_id@ == id_text("f-"@, t, o.id_seq as nat);
        let frame = SimFrame {
            frame_id,
            dst_mac,
            src_mac,
            src_ip,
            dst_ip: String::from_str(to_ip),
            payload: String::from_str(text),
            at_device_id: device_id,
            status: String::from_str("inflight"),
        };
        self.frames.push(frame);
        let fi = self.frames.len() - 1;
        proof {
            assert(self.frames@.drop_last() =~= o.frames@);
            lemma_new_frame(o, *self);
        }
        let ghost mid = *self;
        let mut events: Vec<SimPush> = Vec::new();
        events.push(
            SimPush { connection_id: String::from_str(connection_id), event: SimEvent::Built { frame: self.frames[fi].copy() } },
        );
        let ghost ev0 = events@;
        proof {
            assert(built(o, mid, connection_id@, to_ip@, text@, t0));
            assert(only_event(ev0, connection_id@, SimEvent::Built { frame: mid.frames@.last() }));
            assert(held_by(o, connection_id@) == Some(device_id@));
            assert(out_port@ == o.devices@[dev_index(o.devices@, held_by(o, connection_id@).unwrap())].ports@[0].id@);
        }
        match self.deliver_out(fi, out_port.as_str(), &mut events) {
            Ok(()) => {
                let body = self.frames[fi].copy();
                let ghost evs = events@;
                let res: Result<(SimFrame, Vec<SimPush>), SimError> = Ok((body, events));
                proof {
                    assert(o == *old(self));
                    assert(hop(mid, *self, o.frames@.len() as int, out_port@, ev0, evs, res is Ok));
                    assert(built(*old(self), mid, connection_id@, to_ip@, text@, t0) && only_event(
                        ev0,
                        connection_id@,
                        SimEvent::Built { frame: mid.frames@.last() },
                    ) && hop(
                        mid,
                        *self,
                        old(self).frames@.len() as int,
                        old(self).devices@[dev_index(old(self).devices@, held_by(*old(self), connection_id@).unwrap())].ports@[0].id@,
                        ev0,
                        evs,
                        res is Ok,
                    ) && match res {
                        Ok((f, e)) => f == self.frames@[old(self).frames@.len() as int] && e@ == evs,
                        Err(x) => x == SimError::Unreachable,
                    });
                }
                res
            },
            Err(e) => {
                let ghost evs = events@;
                let res: Result<(SimFrame, Vec<SimPush>), SimError> = Err(e);
                proof {
                    assert(o == *old(self));
                    assert(hop(mid, *self, o.frames@.len() as int, out_port@, ev0, evs, res is Ok));
                }
                res
            },
        }
    }
}

/// A frame with a fresh id keeps the classroom well formed.
proof fn lemma_new_frame(o: Classroom, n: Classroom)
    requires
        o.wf(),
        o.id_seq != u64::MAX,
        n.id_seq == next_seq(o.id_seq),
        n.frames@.drop_last() == o.frames@,
        n.frames@.len() == o.frames@.len() + 1,
        exists|t: nat| n.frames@.last().frame_id@ == #[trigger] id_text("f-"@, t, o.id_seq as nat),
        n.connections == o.connections,
        n.devices == o.devices,
        n.tap_attaches == o.tap_attaches,
        n.tap_log == o.tap_log,
        n.chat_log == o.chat_log,
        inflight_in(o.frames@) < MAX_INFLIGHT_FRAMES,
    ensures
        n.wf(),
{
    let of = o.frames@;
    let nf = n.frames@;
    let last = nf.len() - 1;
    let t0 = choose|t: nat| nf.last().frame_id@ == #[trigger] id_text("f-"@, t, o.id_seq as nat);
    assert(nf[last].frame_id@ == id_text("f-"@, t0, o.id_seq as nat));
    assert forall|k: int| 0 <= k < of.len() implies #[trigger] of[k].frame_id@ != nf[last].frame_id@ by {
        if of[k].frame_id@ == nf[last].frame_id@ {
            assert(of[k].frame_id@ == id_text("f-"@, t0, o.id_seq as nat));
        }
    }
    assert forall|a: int, b: int| 0 <= a < b < nf.len() implies #[trigger] nf[a].frame_id@ != #[trigger] nf[b].frame_id@ by {
        assert(nf[a] == of[a]);
        if b < last {
            assert(nf[b] == of[b]);
        }
    }
    assert forall|f: int, t: nat, q: nat|
        0 <= f < nf.len() && #[trigger] nf[f].frame_id@ == #[trigger] id_text("f-"@, t, q) implies q < n.id_seq by {
        if f == last {
            lemma_id_text_injective("f-"@, t, q, t0, o.id_seq as nat);
        } else {
            assert(nf[f] == of[f]);
        }
    }
    assert forall|c: int, t: nat, q: nat|
        0 <= c < n.connections@.len() && #[trigger] n.connections@[c].connection_id@ == #[trigger] id_text("n-"@, t, q)
            implies q < n.id_seq by {
        assert(q < o.id_seq);
    }
}

/// Ref `k` is the first of `refs` for port `id`.
pub open spec fn is_first_ref(refs: Seq<PortRef>, id: Seq<char>, k: int) -> bool {
    &&& 0 <= k < refs.len()
    &&& refs[k].port_id@ == id
    &&& forall|j: int| 0 <= j < k ==> #[trigger] refs[j].port_id@ != id
}

/// The index of the first ref for port `id`, or -1.
pub open spec fn ref_index(refs: Seq<PortRef>, id: Seq<char>) -> int {
    if exists|k: int| is_first_ref(refs, id, k) {
        choose|k: int| is_first_ref(refs, id, k)
    } else {
        -1
    }
}

fn first_ref(refs: &Vec<PortRef>, id: &str) -> (r: Option<usize>)
    ensures
        match r {
            Some(k) => k as int == ref_index(refs@, id@) && is_first_ref(refs@, id@, k as int),
            None => ref_index(refs@, id@) == -1,
        },
{
    let mut k: usize = 0;
    while k < refs.len()
        invariant
            k <= refs@.len(),
            forall|j: int| 0 <= j < k ==> #[trigger] refs@[j].port_id@ != id@,
        decreases refs@.len() - k,
    {
        if str_eq(refs[k].port_id.as_str(), id) {
            proof {
                assert(is_first_ref(refs@, id@, k as int));
                let m = ref_index(refs@, id@);
                if m != k {
                    assert(is_first_ref(refs@, id@, m));
                    if m < k {
                        assert(refs@[m].port_id@ != id@);
                    } else {
                        assert(refs@[k as int].port_id@ != id@);
                    }
                }
            }
            return Some(k);
        }
        k += 1;
    }
    proof {
        if exists|m: int| is_first_ref(refs@, id@, m) {
            let m = choose|m: int| is_first_ref(refs@, id@, m);
            assert(refs@[m].port_id@ != id@);
        }
    }
    None
}

/// The port device `dev` must send frame `f` out of: a switch by its MAC
/// table, a router by the network of the destination.
pub open spec fn expected_out(o: Classroom, dev: Device, f: SimFrame) -> Option<Seq<char>> {
    if dev.kind == DeviceKind::Switch {
        switch_out_spec(dev.id@, f.dst_mac@, o.mac_table@)
    } else if dev.kind == DeviceKind::Router {
        router_out_spec(dev.id@, f.dst_ip@, refs_of(o.devices@))
    } else {
        None
    }
}

/// Why connection `cid` may not forward frame `fid` out of port `out`,
/// checked in this order, if it may not.
pub open spec fn forward_error(o: Classroom, cid: Seq<char>, fid: Seq<char>, out: Seq<char>) -> Option<SimError> {
    let c = conn_index(o.connections@, cid);
    let held = held_by(o, cid);
    let d = dev_index(o.devices@, held.unwrap());
    let dev = o.devices@[d];
    let fi = frame_index(o.frames@, fid);
    let f = o.frames@[fi];
    if o.mode != Mode::Simulation {
        Some(SimError::NeedSim)
    } else if c < 0 {
        Some(SimError::UnknownConn)
    } else if held is None {
        Some(SimError::NotHolder)
    } else if d < 0 {
        Some(SimError::UnknownConn)
    } else if !(dev.kind == DeviceKind::Switch || dev.kind == DeviceKind::Router) {
        Some(SimError::NotForwarder)
    } else if fi < 0 {
        Some(SimError::UnknownFrame)
    } else if f.at_device_id@ != held.unwrap() {
        Some(SimError::NotHolder)
    } else if port_in(dev.ports@, out) < 0 {
        Some(SimError::WrongPort)
    } else if expected_out(o, dev, f) != Some(out) {
        Some(SimError::WrongPort)
    } else if dev.kind == DeviceKind::Router && ref_index(refs_of(o.devices@), out) < 0 {
        Some(SimError::WrongPort)
    } else {
        None
    }
}

/// `nf` is `of` as a router sends it out of the port `out_ref` describes.
pub open spec fn rewritten(of: SimFrame, nf: SimFrame, out_ref: PortRef, refs: Seq<PortRef>) -> bool {
    &&& nf.src_mac@ == match opt_str(out_ref.port_mac) {
        Some(m) => m,
        None => of.src_mac@,
    }
    &&& nf.dst_mac@ == match host_mac_spec(refs, of.dst_ip@) {
        Some(m) => m,
        None => of.dst_mac@,
    }
    &&& nf.frame_id == of.frame_id
    &&& nf.src_ip == of.src_ip
    &&& nf.dst_ip == of.dst_ip
    &&& nf.payload == of.payload
    &&& nf.at_device_id == of.at_device_id
    &&& nf.status == of.status
}

/// `mid` is `o` with frame `fi` readdressed for leaving device `dev` by
/// port `out`: a router rewrites the addresses, a switch leaves them.
pub open spec fn readdressed(o: Classroom, mid: Classroom, dev: Device, fi: int, out: Seq<char>) -> bool {
    if dev.kind == DeviceKind::Router {
        let refs = refs_of(o.devices@);
        &&& frame_replaced(o.frames@, mid.frames@, fi)
        &&& rewritten(o.frames@[fi], mid.frames@[fi], refs[ref_index(refs, out)], refs)
        &&& mid.tap_log == o.tap_log
        &&& mid.id_seq == o.id_seq
        &&& same_but_frames(o, mid)
    } else {
        mid == o
    }
}

/// `evs` is the one event telling connection `cid` that frame `fid` left.
pub open spec fn departed_event(evs: Seq<SimPush>, cid: Seq<char>, fid: Seq<char>) -> bool {
    &&& evs.len() == 1
    &&& evs[0].connection_id@ == cid
    &&& evs[0].event matches SimEvent::Departed { frame_id } && frame_id@ == fid
}

impl Classroom {
    /// A student holding a switch or router sends the frame it holds out of
    /// port `out_port_id`, which must be the one the device's rules pick.
    pub fn forward(&mut self, connection_id: &str, frame_id: &str, out_port_id: &str) -> (r: Result<
        (SimFrame, Vec<SimPush>),
        SimError,
    >)
        requires
            old(self).wf(),
        ensures
            final(self).wf(),
            match forward_error(*old(self), connection_id@, frame_id@, out_port_id@) {
                Some(e) => r == Err::<(SimFrame, Vec<SimPush>), SimError>(e) && *final(self) == *old(self),
                None => {
                    let fi = frame_index(old(self).frames@, frame_id@);
                    let dev = old(self).devices@[dev_index(old(self).devices@, held_by(*old(self), connection_id@).unwrap())];
                    exists|mid: Classroom, ev0: Seq<SimPush>, evs: Seq<SimPush>|
                        #[trigger] readdressed(*old(self), mid, dev, fi, out_port_id@) && departed_event(
                            ev0,
                            connection_id@,
                            frame_id@,
                        ) && #[trigger] hop(mid, *final(self), fi, out_port_id@, ev0, evs, r is Ok) && match r {
                            Ok((f, e)) => f == final(self).frames@[fi] && e@ == evs,
                            Err(x) => x == SimError::Unreachable,
                        }
                },
            },
            r matches Ok((f, _)) ==> {
                let of = old(self).frames@[frame_index(old(self).frames@, frame_id@)];
                let kind = old(self).devices@[dev_index(
                    old(self).devices@,
                    held_by(*old(self), connection_id@).unwrap(),
                )].kind;
                &&& f.frame_id == of.frame_id
                &&& f.src_ip == of.src_ip
                &&& f.dst_ip == of.dst_ip
                &&& f.payload == of.payload
                &&& (kind == DeviceKind::Switch ==> f.dst_mac == of.dst_mac && f.src_mac == of.src_mac)
            },
    {
        if self.mode != Mode::Simulation {
            return Err(SimError::NeedSim);
        }
        let c = match find_conn(&self.connections, connection_id) {
            Some(c) => c,
            None => {
                return Err(SimError::UnknownConn);
            },
        };
        let device_id = match clone_opt(&self.connections[c].device_id) {
            Some(id) => id,
            None => {
                return Err(SimError::NotHolder);
            },
        };
        let d = match find_device(&self.devices, device_id.as_str()) {
            Some(d) => d,
            None => {
                return Err(SimError::UnknownConn);
            },
        };
        let kind = self.devices[d].kind;
        if !(kind == DeviceKind::Switch || kind == DeviceKind::Router) {
            return Err(SimError::NotForwarder);
        }
        let fi = match find_frame(&self.frames, frame_id) {
            Some(fi) => fi,
            None => {
                return Err(SimError::UnknownFrame);
            },
        };
        if !str_eq(self.frames[fi].at_device_id.as_str(), device_id.as_str()) {
            return Err(SimError::NotHolder);
        }
        if port_index(&self.devices[d].ports, out_port_id).is_none() {
            return Err(SimError::WrongPort);
        }
        let refs = port_refs(&self.devices);
        let expected = if kind == DeviceKind::Switch {
            switch_out_port(device_id.as_str(), self.frames[fi].dst_mac.as_str(), self.mac_table.as_slice())
        } else {
            router_out_port(device_id.as_str(), self.frames[fi].dst_ip.as_str(), refs.as_slice())
        };
        let matches_rule = match &expected {
            Some(x) => str_eq(x.as_str(), out_port_id),
            None => false,
        };
        if !matches_rule {
            return Err(SimError::WrongPort);
        }
        let ghost o = *self;
        if kind == DeviceKind::Router {
            let k = match first_ref(&refs, out_port_id) {
                Some(k) => k,
                None => {
                    return Err(SimError::WrongPort);
                },
            };
            let mut f = self.frames[fi].copy();
            rewrite_router_macs(&mut f, &refs[k], refs.as_slice());
            self.frames.set(fi, f);
            proof {
                lemma_frame_ids_kept(o, *self, fi as int);
            }
        }
        let ghost mid = *self;
        let mut events: Vec<SimPush> = Vec::new();
        events.push(
            SimPush {
                connection_id: String::from_str(connection_id),
                event: SimEvent::Departed { frame_id: String::from_str(frame_id) },
            },
        );
        let ghost ev0 = events@;
        proof {
            assert(o == *old(self));
            assert(held_by(o, connection_id@) == Some(device_id@));
            assert(readdressed(o, mid, o.devices@[d as int], fi as int, out_port_id@));
            assert(departed_event(ev0, connection_id@, frame_id@));
        }
        match self.deliver_out(fi, out_port_id, &mut events) {
            Ok(()) => {
                let body = self.frames[fi].copy();
                let ghost evs = events@;
                let res: Result<(SimFrame, Vec<SimPush>), SimError> = Ok((body, events));
                proof {
                    assert(hop(mid, *self, fi as int, out_port_id@, ev0, evs, res is Ok));
                    lemma_hop_keeps(mid, *self, fi as int, out_port_id@, ev0, evs, true);
                }
                res
            },
            Err(e) => {
                let ghost evs = events@;
                let res: Result<(SimFrame, Vec<SimPush>), SimError> = Err(e);
                proof {
                    assert(hop(mid, *self, fi as int, out_port_id@, ev0, evs, res is Ok));
                }
                res
            },
        }
    }
}

} // verus!
