//! What holds of a classroom across its operations.

use vstd::prelude::*;
use crate::addr::{
    digit_value, hex_value, ipv4_of, ipv4_part, is_digit, mac_of, mac_part, parse_u8_spec, u8_digits, unicast_spec,
    dec_value,
};
use crate::claims::join_error;
use crate::inventory::{
    lemma_seq_plus_add, macs_before, materializes, preset_ip, router_port_count, seq_plus, Inventory,
    MaterializedDevice, RouterSpec,
};
use crate::arp::{
    arp_candidates, arp_eligible, arp_gateway, arp_key, arp_of_port, arp_other, arp_others, arp_table_of, has_first,
    has_key, opt_seq, ArpView,
};
use crate::text::{dec, dec_char, hex2, hex_char, lemma_split_concat, lemma_split_single, split};
use crate::claims::{
    admitted, all_claimed, bound, claim_mac, existing_index, settled, JoinOutcome,
};
use crate::classroom::{
    claimed_by, dev_index, inflight_in, tap_count, Classroom, CHAT_LOG_CAP, MAX_INFLIGHT_FRAMES, TAP_LOG_CAP,
};
use crate::ids::{id_text, lemma_generated_mac, mac_text};
use crate::kinds::{ClaimState, ClientKind, DeviceKind};
use crate::topo::{
    cable_of, cabled, from_cable, mac_candidates, mac_entry_of, mac_views, MacEntry, has_pair, lemma_ordered_le, link_name, link_pair, links_of, opt_str, ordered,
    last_port, lemma_last_port, link_for, peer_named, phys_up, port_exists, ArpEntry, LinkView, PortRef,
};
use crate::text::{lemma_lt_asymmetric, lemma_lt_irreflexive, seq_le, seq_lt};
use crate::sorting::SortKey;
use crate::reach::{
    bridge_step, cross_spec, is_bridge, is_first_far, is_first_near, is_walk, l2_spec, link_joins, link_step,
    pair_reaches, reach_spec, router_carries, src_kind_is_pc, step,
};

verus! {

/// Two connections never hold the same device.
pub proof fn law_no_shared_device(c: Classroom, i: int, j: int)
    requires
        c.wf(),
        0 <= i < j < c.connections@.len(),
        c.connections@[i].device_id is Some,
        c.connections@[j].device_id is Some,
    ensures
        c.connections@[i].device_id.unwrap()@ != c.connections@[j].device_id.unwrap()@,
{
    let conns = c.connections@;
    let devs = c.devices@;
    if conns[i].device_id.unwrap()@ == conns[j].device_id.unwrap()@ {
        assert(claimed_by(devs, conns[i].device_id.unwrap()@, conns[i].connection_id@));
        assert(claimed_by(devs, conns[j].device_id.unwrap()@, conns[j].connection_id@));
        let a = choose|a: int|
            0 <= a < devs.len() && #[trigger] devs[a].id@ == conns[i].device_id.unwrap()@ && opt_str(
                devs[a].claimed_connection_id,
            ) == Some(conns[i].connection_id@);
        let b = choose|b: int|
            0 <= b < devs.len() && #[trigger] devs[b].id@ == conns[j].device_id.unwrap()@ && opt_str(
                devs[b].claimed_connection_id,
            ) == Some(conns[j].connection_id@);
        if a < b {
            assert(devs[a].id@ != devs[b].id@);
        } else if b < a {
            assert(devs[b].id@ != devs[a].id@);
        }
        assert(conns[i].connection_id@ != conns[j].connection_id@);
    }
}

/// The next connection id and the next frame id the classroom makes
/// differ from every id it holds, whatever the clock reads.
pub proof fn law_fresh_ids(c: Classroom, t: nat)
    requires
        c.wf(),
    ensures
        forall|k: int|
            0 <= k < c.connections@.len() ==> #[trigger] c.connections@[k].connection_id@ != id_text(
                "n-"@,
                t,
                c.id_seq as nat,
            ),
        forall|f: int| 0 <= f < c.frames@.len() ==> #[trigger] c.frames@[f].frame_id@ != id_text("f-"@, t, c.id_seq as nat),
{
    assert forall|k: int| 0 <= k < c.connections@.len() implies #[trigger] c.connections@[k].connection_id@ != id_text(
        "n-"@,
        t,
        c.id_seq as nat,
    ) by {
        if c.connections@[k].connection_id@ == id_text("n-"@, t, c.id_seq as nat) {
            assert(c.id_seq < c.id_seq);
        }
    }
    assert forall|f: int| 0 <= f < c.frames@.len() implies #[trigger] c.frames@[f].frame_id@ != id_text(
        "f-"@,
        t,
        c.id_seq as nat,
    ) by {
        if c.frames@[f].frame_id@ == id_text("f-"@, t, c.id_seq as nat) {
            assert(c.id_seq < c.id_seq);
        }
    }
}

/// A student who reconnects under its connection id while holding a
/// device is given that same device again, and the devices are untouched.
pub proof fn law_reconnect_keeps_device(
    o: Classroom,
    mid: Classroom,
    n: Classroom,
    c: int,
    kind: ClientKind,
    cid: Seq<char>,
    nic: Option<Seq<char>>,
    out: JoinOutcome,
)
    requires
        o.wf(),
        existing_index(o, Some(cid)) >= 0,
        o.connections@[existing_index(o, Some(cid))].device_id is Some,
        admitted(o, mid, c, kind, Some(cid), nic),
        settled(mid, n, c, out),
    ensures
        out matches JoinOutcome::Claimed { connection_id, device } && connection_id@ == cid && device.id@
            == o.connections@[existing_index(o, Some(cid))].device_id.unwrap()@,
        n.devices == o.devices,
        n.connections@.len() == o.connections@.len(),
{
    let e = existing_index(o, Some(cid));
    let conn = o.connections@[e];
    let did = conn.device_id.unwrap()@;
    assert(claimed_by(o.devices@, did, conn.connection_id@));
    let w = choose|w: int|
        0 <= w < o.devices@.len() && #[trigger] o.devices@[w].id@ == did && opt_str(o.devices@[w].claimed_connection_id)
            == Some(conn.connection_id@);
    crate::classroom::lemma_dev_index(o.devices@, did, w);
    assert(mid.connections@[c].device_id == conn.device_id);
}

/// A join is turned away only when every device is taken, and the
/// classroom is then full.
pub proof fn law_full_only_when_all_taken(mid: Classroom, n: Classroom, c: int)
    requires
        settled(mid, n, c, JoinOutcome::Full),
    ensures
        all_claimed(mid.devices@),
        all_claimed(n.devices@),
        n.claim_state == ClaimState::Full,
{
}

/// A PC claimed by a student with no address of its own gets a generated
/// address, which is unicast and locally administered.
pub proof fn law_generated_pc_address(o: Classroom, n: Classroom, c: int, d: int)
    requires
        0 <= c < o.connections@.len(),
        0 <= d < o.devices@.len(),
        bound(o, n, c, d),
        o.devices@[d].kind == DeviceKind::Pc,
        !(o.connections@[c].client_kind == ClientKind::StudentStandalone && o.connections@[c].nic_mac is Some),
    ensures
        opt_str(n.devices@[d].mac) == Some(mac_text(o.mac_seq as nat)),
        unicast_spec(mac_text(o.mac_seq as nat)),
{
    assert(claim_mac(o.connections@[c], o.mac_seq) == mac_text(o.mac_seq as nat));
    lemma_generated_mac(o.mac_seq as nat);
}

/// A classroom keeps at most its share of chat messages, of tap copies per
/// tap, and of frames in flight.
pub proof fn law_classroom_bounds(c: Classroom, tap: Seq<char>)
    requires
        c.wf(),
    ensures
        c.chat_log@.len() <= CHAT_LOG_CAP,
        tap_count(c.tap_log@, tap) <= TAP_LOG_CAP,
        inflight_in(c.frames@) <= MAX_INFLIGHT_FRAMES,
{
}

/// A join is refused exactly for a client that is not a student or a
/// network card address that is not unicast; beyond that, only when a new
/// connection would need an id and the id counter is used up.
pub proof fn law_join_refusals(
    o: Classroom,
    kind: ClientKind,
    given: Option<Seq<char>>,
    nic: Option<Seq<char>>,
)
    requires
        existing_index(o, given) >= 0 || o.id_seq < u64::MAX,
    ensures
        join_error(o, kind, given, nic) is Some <==> (!(kind is StudentStandalone || kind is StudentHosted) || (
        nic is Some && !unicast_spec(nic.unwrap()))),
{
}

/// A name that holds no two dashes in a row and does not begin with one.
pub open spec fn dash_safe_name(n: Seq<char>) -> bool {
    &&& forall|j: int| 0 <= j < n.len() - 1 ==> !(#[trigger] n[j] == '-' && n[j + 1] == '-')
    &&& (n.len() > 0 ==> n[0] != '-')
}

/// No port's name holds two dashes in a row or begins with a dash.
pub open spec fn dash_safe(ports: Seq<PortRef>) -> bool {
    forall|i: int| 0 <= i < ports.len() ==> dash_safe_name(#[trigger] ports[i].port_id@)
}

proof fn lemma_dash_join_longer(a: Seq<char>, b: Seq<char>, c: Seq<char>, d: Seq<char>)
    requires
        dash_safe_name(b),
        dash_safe_name(c),
        a + seq!['-', '-'] + b == c + seq!['-', '-'] + d,
    ensures
        a.len() >= c.len(),
{
    let s = a + seq!['-', '-'] + b;
    let t = c + seq!['-', '-'] + d;
    let n = a.len() as int;
    if n < c.len() {
        assert(s[n] == '-' && s[n + 1] == '-');
        if n + 1 < c.len() {
            assert(t[n] == c[n] && t[n + 1] == c[n + 1]);
            assert(!(c[n] == '-' && c[n + 1] == '-'));
        } else {
            assert(t[n + 1] == '-' && t[n + 2] == '-');
            assert(t.len() >= n + 3);
            assert(s.len() == t.len());
            assert(b.len() > 0);
            assert(s[n + 2] == b[0]);
        }
    }
}

proof fn lemma_dash_join_injective(a: Seq<char>, b: Seq<char>, c: Seq<char>, d: Seq<char>)
    requires
        dash_safe_name(a),
        dash_safe_name(b),
        dash_safe_name(c),
        dash_safe_name(d),
        a + seq!['-', '-'] + b == c + seq!['-', '-'] + d,
    ensures
        a == c,
        b == d,
{
    let s = a + seq!['-', '-'] + b;
    let t = c + seq!['-', '-'] + d;
    lemma_dash_join_longer(a, b, c, d);
    lemma_dash_join_longer(c, d, a, b);
    assert(a =~= s.subrange(0, a.len() as int));
    assert(c =~= t.subrange(0, c.len() as int));
    assert(b =~= s.subrange(a.len() as int + 2, s.len() as int));
    assert(d =~= t.subrange(c.len() as int + 2, t.len() as int));
}

proof fn lemma_named_safe(ports: Seq<PortRef>, x: Seq<char>)
    requires
        dash_safe(ports),
        port_exists(ports, x),
    ensures
        dash_safe_name(x),
{
    let i = choose|i: int| 0 <= i < ports.len() && #[trigger] ports[i].port_id@ == x;
    assert(dash_safe_name(ports[i].port_id@));
}

/// The name of a cable whose ends are in order is the two ends joined by
/// two dashes.
proof fn lemma_link_name_ordered(a: Seq<char>, b: Seq<char>)
    requires
        seq_le(a, b),
    ensures
        link_name(a, b) == a + seq!['-', '-'] + b,
{
    reveal_strlit("--");
    assert("--"@ =~= seq!['-', '-']);
    assert(ordered(a, b) == (a, b));
}

/// An end of a cable found in the ports is a port's name, and the cable's
/// ends are in order.
proof fn lemma_cable_ends(ports: Seq<PortRef>, p: (Seq<char>, Seq<char>))
    requires
        from_cable(ports, p),
    ensures
        seq_le(p.0, p.1),
        port_exists(ports, p.0),
        port_exists(ports, p.1),
{
    let i = choose|i: int| 0 <= i < ports.len() && cabled(ports, i) && #[trigger] cable_of(ports, i) == p;
    let x = ports[i].port_id@;
    let y = ports[i].peer_port_id.unwrap()@;
    lemma_ordered_le(x, y);
    assert(port_exists(ports, x));
}

/// The link list: sorted by name; each cable once, its ends in order and
/// its name the two ends joined by `--`; a pair of ends is listed exactly
/// when some port names the other end, which exists, as its peer; a cable
/// is up exactly when each end names the other; and where no port name
/// holds two dashes in a row or begins with a dash, no two cables share a
/// name.
pub proof fn law_links(ports: Seq<PortRef>, links: Seq<LinkView>)
    requires
        links_of(ports, links),
    ensures
        crate::sorting::sorted_by_key(links),
        forall|k: int|
            0 <= k < links.len() ==> {
                &&& seq_le((#[trigger] links[k]).port_a@, links[k].port_b@)
                &&& links[k].link_id@ == links[k].port_a@ + seq!['-', '-'] + links[k].port_b@
                &&& links[k].physically_up == phys_up(
                    links[k].port_a@,
                    peer_named(ports, links[k].port_a@),
                    links[k].port_b@,
                    peer_named(ports, links[k].port_b@),
                )
            },
        forall|p: (Seq<char>, Seq<char>)| #[trigger] has_pair(links, p) <==> from_cable(ports, p),
        forall|k1: int, k2: int|
            0 <= k1 < k2 < links.len() ==> #[trigger] link_pair(links[k1]) != #[trigger] link_pair(links[k2]),
        dash_safe(ports) ==> forall|k1: int, k2: int|
            0 <= k1 < k2 < links.len() ==> (#[trigger] links[k1]).link_id@ != (#[trigger] links[k2]).link_id@,
{
    assert forall|k: int| 0 <= k < links.len() implies {
        &&& seq_le((#[trigger] links[k]).port_a@, links[k].port_b@)
        &&& links[k].link_id@ == links[k].port_a@ + seq!['-', '-'] + links[k].port_b@
        &&& links[k].physically_up == phys_up(
            links[k].port_a@,
            peer_named(ports, links[k].port_a@),
            links[k].port_b@,
            peer_named(ports, links[k].port_b@),
        )
    } by {
        assert(from_cable(ports, link_pair(links[k])));
        lemma_cable_ends(ports, link_pair(links[k]));
        lemma_link_name_ordered(links[k].port_a@, links[k].port_b@);
    }
    assert forall|p: (Seq<char>, Seq<char>)| #[trigger] has_pair(links, p) <==> from_cable(ports, p) by {
        if has_pair(links, p) {
            let k = choose|k: int| 0 <= k < links.len() && #[trigger] link_pair(links[k]) == p;
            assert(from_cable(ports, link_pair(links[k])));
        }
        if from_cable(ports, p) {
            let i = choose|i: int| 0 <= i < ports.len() && cabled(ports, i) && #[trigger] cable_of(ports, i) == p;
            assert(cabled(ports, i));
        }
    }
    if dash_safe(ports) {
        assert forall|k1: int, k2: int| 0 <= k1 < k2 < links.len() implies (#[trigger] links[k1]).link_id@
            != (#[trigger] links[k2]).link_id@ by {
            let (l1, l2) = (links[k1], links[k2]);
            assert(link_pair(l1) != link_pair(l2));
            assert(from_cable(ports, link_pair(l1)));
            assert(from_cable(ports, link_pair(l2)));
            lemma_cable_ends(ports, link_pair(l1));
            lemma_cable_ends(ports, link_pair(l2));
            lemma_named_safe(ports, l1.port_a@);
            lemma_named_safe(ports, l1.port_b@);
            lemma_named_safe(ports, l2.port_a@);
            lemma_named_safe(ports, l2.port_b@);
            lemma_link_name_ordered(l1.port_a@, l1.port_b@);
            lemma_link_name_ordered(l2.port_a@, l2.port_b@);
            if l1.link_id@ == l2.link_id@ {
                lemma_dash_join_injective(l1.port_a@, l1.port_b@, l2.port_a@, l2.port_b@);
            }
        }
    }
}

/// No two ports share a name.
pub open spec fn unique_port_ids(ports: Seq<PortRef>) -> bool {
    forall|i: int, j: int| 0 <= i < j < ports.len() ==> #[trigger] ports[i].port_id@ != #[trigger] ports[j].port_id@
}

/// Some port among the first `n` contributes the MAC-table entry `e`.
pub open spec fn mac_entry_among(ports: Seq<PortRef>, n: int, e: (Seq<char>, Seq<char>, Seq<char>)) -> bool {
    exists|i: int| 0 <= i < n && #[trigger] mac_entry_of(ports, i) == Some(e)
}

proof fn lemma_mac_candidate_count(ports: Seq<PortRef>, n: int, e: (Seq<char>, Seq<char>, Seq<char>))
    requires
        unique_port_ids(ports),
        0 <= n <= ports.len(),
    ensures
        mac_candidates(ports, n).to_multiset().count(e) == if mac_entry_among(ports, n, e) {
            1nat
        } else {
            0nat
        },
    decreases n,
{
    broadcast use vstd::seq_lib::group_to_multiset_ensures;

    if n > 0 {
        lemma_mac_candidate_count(ports, n - 1, e);
        if mac_entry_of(ports, n - 1) == Some(e) {
            assert(mac_entry_among(ports, n, e));
            if mac_entry_among(ports, n - 1, e) {
                let i = choose|i: int| 0 <= i < n - 1 && #[trigger] mac_entry_of(ports, i) == Some(e);
                assert(ports[i].port_id@ != ports[n - 1].port_id@);
            }
        } else {
            if mac_entry_among(ports, n, e) {
                let i = choose|i: int| 0 <= i < n && #[trigger] mac_entry_of(ports, i) == Some(e);
                assert(mac_entry_among(ports, n - 1, e));
            }
            if mac_entry_among(ports, n - 1, e) {
                let i = choose|i: int| 0 <= i < n - 1 && #[trigger] mac_entry_of(ports, i) == Some(e);
                assert(mac_entry_among(ports, n, e));
            }
        }
    }
}

/// The MAC table: sorted by switch and port; where no two ports share a
/// name, an entry (switch, port, address) stands in it exactly once when
/// that port of a switch is cabled, both ends naming each other, to a port
/// whose address it learns (`mac_entry_of`), and otherwise not at all.
pub proof fn law_mac_table(ports: Seq<PortRef>, table: Seq<MacEntry>, e: (Seq<char>, Seq<char>, Seq<char>))
    requires
        unique_port_ids(ports),
        mac_views(table).to_multiset() == mac_candidates(ports, ports.len() as int).to_multiset(),
        crate::sorting::sorted_by_key(table),
    ensures
        crate::sorting::sorted_by_key(table),
        mac_views(table).to_multiset().count(e) == if mac_entry_among(ports, ports.len() as int, e) {
            1nat
        } else {
            0nat
        },
{
    lemma_mac_candidate_count(ports, ports.len() as int, e);
}

proof fn lemma_contains_push<A>(s: Seq<A>, x: A, e: A)
    ensures
        s.push(x).contains(e) == (s.contains(e) || x == e),
{
    if s.push(x).contains(e) {
        let c = choose|c: int| 0 <= c < s.push(x).len() && s.push(x)[c] == e;
        if c < s.len() {
            assert(s[c] == e);
        }
    }
    if s.contains(e) {
        let c = choose|c: int| 0 <= c < s.len() && s[c] == e;
        assert(s.push(x)[c] == e);
    }
    if x == e {
        assert(s.push(x)[s.len() as int] == e);
    }
}

proof fn lemma_contains_add<A>(a: Seq<A>, b: Seq<A>, e: A)
    ensures
        (a + b).contains(e) == (a.contains(e) || b.contains(e)),
{
    if (a + b).contains(e) {
        let c = choose|c: int| 0 <= c < (a + b).len() && (a + b)[c] == e;
        if c < a.len() {
            assert(a[c] == e);
        } else {
            assert(b[c - a.len()] == e);
        }
    }
    if a.contains(e) {
        let c = choose|c: int| 0 <= c < a.len() && a[c] == e;
        assert((a + b)[c] == e);
    }
    if b.contains(e) {
        let c = choose|c: int| 0 <= c < b.len() && b[c] == e;
        assert((a + b)[a.len() + c] == e);
    }
}

/// Port `i` learns `e` from one of the first `m` ports.
pub open spec fn arp_other_among(ports: Seq<PortRef>, i: int, m: int, e: ArpView) -> bool {
    exists|o: int| 0 <= o < m && #[trigger] arp_other(ports, i, o) == Some(e)
}

proof fn lemma_others_contain(ports: Seq<PortRef>, i: int, m: int, e: ArpView)
    ensures
        arp_others(ports, i, m).contains(e) == arp_other_among(ports, i, m, e),
    decreases m,
{
    if m > 0 {
        lemma_others_contain(ports, i, m - 1, e);
        let c = arp_others(ports, i, m - 1);
        match arp_other(ports, i, m - 1) {
            Some(x) => {
                lemma_contains_push(c, x, e);
            },
            None => {},
        }
        if arp_other_among(ports, i, m, e) {
            let o = choose|o: int| 0 <= o < m && #[trigger] arp_other(ports, i, o) == Some(e);
            if o < m - 1 {
                assert(arp_other_among(ports, i, m - 1, e));
            }
        }
        if arp_other_among(ports, i, m - 1, e) {
            let o = choose|o: int| 0 <= o < m - 1 && #[trigger] arp_other(ports, i, o) == Some(e);
            assert(arp_other_among(ports, i, m, e));
        }
    }
}

/// Port `i` learns the answer `e`: it belongs to a PC or router, has an
/// address and sits on an up cable, and `e` is what it learns of another
/// port on its network with an address, or of its gateway.
pub open spec fn port_learns(ports: Seq<PortRef>, links: Seq<LinkView>, i: int, e: ArpView) -> bool {
    &&& arp_eligible(ports, links, i)
    &&& (arp_other_among(ports, i, ports.len() as int, e) || arp_gateway(ports, links, i) == Some(e))
}

/// Some port among the first `n` learns `e`.
pub open spec fn learned_among(ports: Seq<PortRef>, links: Seq<LinkView>, n: int, e: ArpView) -> bool {
    exists|i: int| 0 <= i < n && #[trigger] port_learns(ports, links, i, e)
}

proof fn lemma_candidates_contain(ports: Seq<PortRef>, links: Seq<LinkView>, n: int, e: ArpView)
    ensures
        arp_candidates(ports, links, n).contains(e) == learned_among(ports, links, n, e),
    decreases n,
{
    if n > 0 {
        lemma_candidates_contain(ports, links, n - 1, e);
        let i = n - 1;
        lemma_contains_add(arp_candidates(ports, links, n - 1), arp_of_port(ports, links, i), e);
        if arp_eligible(ports, links, i) {
            let others = arp_others(ports, i, ports.len() as int);
            lemma_others_contain(ports, i, ports.len() as int, e);
            lemma_contains_add(others, opt_seq(arp_gateway(ports, links, i)), e);
            match arp_gateway(ports, links, i) {
                Some(g) => {
                    assert(opt_seq(arp_gateway(ports, links, i)).contains(e) == (g == e)) by {
                        if g == e {
                            assert(opt_seq(arp_gateway(ports, links, i))[0] == e);
                        }
                    }
                },
                None => {
                    assert(!opt_seq(arp_gateway(ports, links, i)).contains(e));
                },
            }
            assert(arp_of_port(ports, links, i).contains(e) == port_learns(ports, links, i, e));
        } else {
            assert(!arp_of_port(ports, links, i).contains(e));
            assert(!port_learns(ports, links, i, e));
        }
        if learned_among(ports, links, n, e) {
            let j = choose|j: int| 0 <= j < n && #[trigger] port_learns(ports, links, j, e);
            if j < n - 1 {
                assert(learned_among(ports, links, n - 1, e));
            }
        }
        if learned_among(ports, links, n - 1, e) {
            let j = choose|j: int| 0 <= j < n - 1 && #[trigger] port_learns(ports, links, j, e);
            assert(learned_among(ports, links, n, e));
        }
    }
}

/// The ARP table: sorted by device and address, each key once; a device
/// has an answer for an address exactly when one of its ports learns an
/// answer for it (of another port on its network, or of its gateway); and
/// every answer in the table is one that some port learns.
pub proof fn law_arp_table(ports: Seq<PortRef>, links: Seq<LinkView>, table: Seq<ArpEntry>)
    requires
        arp_table_of(arp_candidates(ports, links, ports.len() as int), table),
    ensures
        crate::sorting::sorted_by_key(table),
        forall|k1: int, k2: int|
            0 <= k1 < k2 < table.len() ==> #[trigger] table[k1].sort_key() != #[trigger] table[k2].sort_key(),
        forall|key: (Seq<char>, Seq<char>)|
            #[trigger] has_key(table, key) <==> exists|e: ArpView|
                learned_among(ports, links, ports.len() as int, e) && #[trigger] arp_key(e) == key,
        forall|k: int| 0 <= k < table.len() ==> learned_among(ports, links, ports.len() as int, #[trigger] table[k]@),
{
    let n = ports.len() as int;
    let cands = arp_candidates(ports, links, n);
    assert forall|k: int| 0 <= k < table.len() implies learned_among(ports, links, n, #[trigger] table[k]@) by {
        assert(has_first(cands, table[k]@));
        let c = choose|c: int| #[trigger] crate::arp::first_of_key(cands, c) && cands[c] == table[k]@;
        assert(cands.contains(table[k]@));
        lemma_candidates_contain(ports, links, n, table[k]@);
    }
    assert forall|key: (Seq<char>, Seq<char>)| #[trigger] has_key(table, key) <==> exists|e: ArpView|
        learned_among(ports, links, n, e) && #[trigger] arp_key(e) == key by {
        if has_key(table, key) {
            let k = choose|k: int| 0 <= k < table.len() && #[trigger] table[k].sort_key() == key;
            assert(learned_among(ports, links, n, table[k]@));
            assert(arp_key(table[k]@) == key);
        }
        if exists|e: ArpView| learned_among(ports, links, n, e) && #[trigger] arp_key(e) == key {
            let e = choose|e: ArpView| learned_among(ports, links, n, e) && #[trigger] arp_key(e) == key;
            lemma_candidates_contain(ports, links, n, e);
            let c = choose|c: int| 0 <= c < cands.len() && cands[c] == e;
            assert(has_key(table, arp_key(cands[c])));
        }
    }
}

/// The devices an inventory expands into: the routers come first and only
/// they are routers; each port of a router takes the address of the last
/// preset naming it (none if no preset does; presets naming no port of the
/// router are ignored) and a generated unicast MAC address; the ports of
/// switches, PCs and taps take neither.
pub proof fn law_materialized_ports(inv: Inventory, start: u64, out: Seq<MaterializedDevice>)
    requires
        materializes(inv, start, out),
    ensures
        forall|i: int| 0 <= i < out.len() ==> ((#[trigger] out[i]).kind == DeviceKind::Router <==> i < inv.routers@.len()),
        forall|i: int, k: int|
            0 <= i < inv.routers@.len() && 0 <= k < out[i].ports@.len() ==> {
                let p = #[trigger] out[i].ports@[k];
                &&& opt_str(p.ip) == preset_ip(inv.routers@[i].ports@, p.id@)
                &&& p.mac is Some
                &&& unicast_spec(p.mac.unwrap()@)
            },
        forall|i: int, k: int|
            inv.routers@.len() <= i < out.len() && 0 <= k < out[i].ports@.len() ==> {
                let p = #[trigger] out[i].ports@[k];
                &&& p.ip is None
                &&& p.mac is None
            },
{
    let nr = inv.routers@.len() as int;
    let ns = inv.switches@.len() as int;
    let np = inv.pcs@.len() as int;
    assert forall|i: int| 0 <= i < out.len() implies ((#[trigger] out[i]).kind == DeviceKind::Router <==> i < nr) by {
        if i < nr {
        } else if i < nr + ns {
            assert(out[nr + (i - nr)] == out[i]);
        } else if i < nr + ns + np {
            assert(out[nr + ns + (i - nr - ns)] == out[i]);
        } else {
            assert(out[nr + ns + np + (i - nr - ns - np)] == out[i]);
        }
    }
    assert forall|i: int, k: int| 0 <= i < nr && 0 <= k < out[i].ports@.len() implies {
        let p = #[trigger] out[i].ports@[k];
        &&& opt_str(p.ip) == preset_ip(inv.routers@[i].ports@, p.id@)
        &&& p.mac is Some
        &&& unicast_spec(p.mac.unwrap()@)
    } by {
        let p = out[i].ports@[k];
        assert(crate::inventory::port_shape(
            p,
            inv.routers@[i].id@,
            k as nat,
            preset_ip(inv.routers@[i].ports@, crate::ids::port_name(inv.routers@[i].id@, (k + 1) as nat)),
            Some(mac_text(crate::inventory::seq_plus(
                crate::inventory::seq_plus(start, crate::inventory::macs_before(inv.routers@, i)),
                k as nat,
            ) as nat)),
        ));
        lemma_generated_mac(crate::inventory::seq_plus(
            crate::inventory::seq_plus(start, crate::inventory::macs_before(inv.routers@, i)),
            k as nat,
        ) as nat);
    }
    assert forall|i: int, k: int| nr <= i < out.len() && 0 <= k < out[i].ports@.len() implies {
        let p = #[trigger] out[i].ports@[k];
        &&& p.ip is None
        &&& p.mac is None
    } by {
        if i < nr + ns {
            assert(out[nr + (i - nr)] == out[i]);
        } else if i < nr + ns + np {
            assert(out[nr + ns + (i - nr - ns)] == out[i]);
        } else {
            assert(out[nr + ns + np + (i - nr - ns - np)] == out[i]);
        }
    }
}

proof fn lemma_macs_before_grow(routers: Seq<RouterSpec>, i: int, j: int)
    requires
        0 <= i < j <= routers.len(),
    ensures
        macs_before(routers, i) + router_port_count(routers[i]) <= macs_before(routers, j),
    decreases j,
{
    if i < j - 1 {
        lemma_macs_before_grow(routers, i, j - 1);
    }
}

/// Counters that differ by less than 2^32 give different addresses.
proof fn lemma_mac_text_apart(start: u64, o1: nat, o2: nat)
    requires
        o1 < o2 < 0x1_0000_0000,
    ensures
        mac_text(seq_plus(start, o1) as nat) != mac_text(seq_plus(start, o2) as nat),
{
    let c1 = seq_plus(start, o1);
    let c2 = seq_plus(start, o2);
    if mac_text(c1 as nat) == mac_text(c2 as nat) {
        lemma_generated_mac(c1 as nat);
        lemma_generated_mac(c2 as nat);
        let m1 = mac_of(mac_text(c1 as nat)).unwrap();
        let m2 = mac_of(mac_text(c2 as nat)).unwrap();
        assert(m1[2] == m2[2] && m1[3] == m2[3] && m1[4] == m2[4] && m1[5] == m2[5]);
        assert((c1 / 0x1000000) % 256 == (c2 / 0x1000000) % 256);
        assert((c1 / 0x10000) % 256 == (c2 / 0x10000) % 256);
        assert((c1 / 0x100) % 256 == (c2 / 0x100) % 256);
        assert(c1 % 256 == c2 % 256);
        assert(c1 % 0x1_0000_0000 == c2 % 0x1_0000_0000) by (bit_vector)
            requires
                (c1 / 0x1000000) % 256 == (c2 / 0x1000000) % 256,
                (c1 / 0x10000) % 256 == (c2 / 0x10000) % 256,
                (c1 / 0x100) % 256 == (c2 / 0x100) % 256,
                c1 % 256 == c2 % 256,
        ;
        let a: int = start + o1;
        let b: int = start + o2;
        let m32: int = 0x1_0000_0000;
        assert(m32 * m32 == 0x1_0000_0000_0000_0000);
        vstd::arithmetic::div_mod::lemma_mod_mod(a, m32, m32);
        vstd::arithmetic::div_mod::lemma_mod_mod(b, m32, m32);
        assert(a % m32 == b % m32);
        vstd::arithmetic::div_mod::lemma_mod_equivalence(a, b, m32);
        assert((a - b) % m32 == 0);
        assert(a - b == o1 - o2);
        assert(false);
    }
}

/// Where the routers use fewer than 2^32 generated addresses, no two router
/// ports get the same one.
pub proof fn law_generated_macs_distinct(
    inv: Inventory,
    start: u64,
    out: Seq<MaterializedDevice>,
    i1: int,
    k1: int,
    i2: int,
    k2: int,
)
    requires
        materializes(inv, start, out),
        macs_before(inv.routers@, inv.routers@.len() as int) <= 0x1_0000_0000,
        0 <= i1 < inv.routers@.len(),
        0 <= i2 < inv.routers@.len(),
        0 <= k1 < out[i1].ports@.len(),
        0 <= k2 < out[i2].ports@.len(),
        (i1, k1) != (i2, k2),
    ensures
        out[i1].ports@[k1].mac != out[i2].ports@[k2].mac,
{
    let rs = inv.routers@;
    let n = rs.len() as int;
    let o1 = macs_before(rs, i1) + k1;
    let o2 = macs_before(rs, i2) + k2;
    lemma_seq_plus_add(start, macs_before(rs, i1), k1 as nat);
    lemma_seq_plus_add(start, macs_before(rs, i2), k2 as nat);
    assert(crate::inventory::port_shape(
        out[i1].ports@[k1],
        rs[i1].id@,
        k1 as nat,
        preset_ip(rs[i1].ports@, crate::ids::port_name(rs[i1].id@, (k1 + 1) as nat)),
        Some(mac_text(seq_plus(seq_plus(start, macs_before(rs, i1)), k1 as nat) as nat)),
    ));
    assert(crate::inventory::port_shape(
        out[i2].ports@[k2],
        rs[i2].id@,
        k2 as nat,
        preset_ip(rs[i2].ports@, crate::ids::port_name(rs[i2].id@, (k2 + 1) as nat)),
        Some(mac_text(seq_plus(seq_plus(start, macs_before(rs, i2)), k2 as nat) as nat)),
    ));
    if i1 + 1 <= n {
        if i1 + 1 < n + 1 && i1 < n {
            lemma_macs_before_grow(rs, i1, n);
        }
    }
    lemma_macs_before_grow(rs, i2, n);
    if i1 < i2 {
        lemma_macs_before_grow(rs, i1, i2);
        lemma_mac_text_apart(start, o1 as nat, o2 as nat);
    } else if i2 < i1 {
        lemma_macs_before_grow(rs, i2, i1);
        lemma_mac_text_apart(start, o2 as nat, o1 as nat);
    } else if k1 < k2 {
        lemma_mac_text_apart(start, o1 as nat, o2 as nat);
    } else {
        lemma_mac_text_apart(start, o2 as nat, o1 as nat);
    }
}

/// The two port lists hold the same ports.
pub open spec fn same_ports(p1: Seq<PortRef>, p2: Seq<PortRef>) -> bool {
    forall|x: PortRef| p1.contains(x) <==> p2.contains(x)
}

/// A link list as plain values.
pub open spec fn link_views(l: Seq<LinkView>) -> Seq<(Seq<char>, Seq<char>, Seq<char>, bool)> {
    l.map_values(|x: LinkView| x@)
}

proof fn lemma_same_port_named(p1: Seq<PortRef>, p2: Seq<PortRef>, id: Seq<char>)
    requires
        same_ports(p1, p2),
        unique_port_ids(p2),
        port_exists(p1, id),
    ensures
        port_exists(p2, id),
        peer_named(p2, id) == peer_named(p1, id),
{
    lemma_last_port(p1, id);
    lemma_last_port(p2, id);
    let x = p1[last_port(p1, id)];
    assert(p1.contains(x));
    let j = choose|j: int| 0 <= j < p2.len() && p2[j] == x;
    assert(p2[j].port_id@ == id);
    let i2 = last_port(p2, id);
    if i2 != j {
        if i2 < j {
            assert(p2[i2].port_id@ != p2[j].port_id@);
        } else {
            assert(p2[j].port_id@ != p2[i2].port_id@);
        }
    }
}

proof fn lemma_same_from_cable(p1: Seq<PortRef>, p2: Seq<PortRef>, pr: (Seq<char>, Seq<char>))
    requires
        same_ports(p1, p2),
        unique_port_ids(p2),
        from_cable(p1, pr),
    ensures
        from_cable(p2, pr),
{
    let i = choose|i: int| 0 <= i < p1.len() && cabled(p1, i) && #[trigger] cable_of(p1, i) == pr;
    let x = p1[i];
    assert(p1.contains(x));
    let j = choose|j: int| 0 <= j < p2.len() && p2[j] == x;
    lemma_same_port_named(p1, p2, x.peer_port_id.unwrap()@);
    assert(cabled(p2, j));
    assert(cable_of(p2, j) == pr);
}

proof fn lemma_views_contained(p1: Seq<PortRef>, l1: Seq<LinkView>, p2: Seq<PortRef>, l2: Seq<LinkView>)
    requires
        links_of(p1, l1),
        links_of(p2, l2),
        same_ports(p1, p2),
        unique_port_ids(p2),
    ensures
        forall|v: (Seq<char>, Seq<char>, Seq<char>, bool)| link_views(l1).contains(v) ==> link_views(l2).contains(v),
{
    assert forall|v: (Seq<char>, Seq<char>, Seq<char>, bool)| link_views(l1).contains(v) implies link_views(
        l2,
    ).contains(v) by {
        let k = choose|k: int| 0 <= k < link_views(l1).len() && link_views(l1)[k] == v;
        let pr = link_pair(l1[k]);
        assert(from_cable(p1, pr));
        lemma_same_from_cable(p1, p2, pr);
        let i = choose|i: int| 0 <= i < p2.len() && cabled(p2, i) && #[trigger] cable_of(p2, i) == pr;
        assert(has_pair(l2, cable_of(p2, i)));
        let k2 = choose|k2: int| 0 <= k2 < l2.len() && #[trigger] link_pair(l2[k2]) == pr;
        lemma_cable_ends(p1, pr);
        lemma_same_port_named(p1, p2, pr.0);
        lemma_same_port_named(p1, p2, pr.1);
        assert(l2[k2]@ == link_for(p2, pr.0, pr.1));
        assert(l1[k]@ == link_for(p1, pr.0, pr.1));
        assert(link_views(l2)[k2] == v);
    }
}

proof fn lemma_strictly_sorted_equal(
    a: Seq<(Seq<char>, Seq<char>, Seq<char>, bool)>,
    b: Seq<(Seq<char>, Seq<char>, Seq<char>, bool)>,
)
    requires
        forall|i: int, j: int| 0 <= i < j < a.len() ==> seq_lt(#[trigger] a[i].0, #[trigger] a[j].0),
        forall|i: int, j: int| 0 <= i < j < b.len() ==> seq_lt(#[trigger] b[i].0, #[trigger] b[j].0),
        forall|v: (Seq<char>, Seq<char>, Seq<char>, bool)| a.contains(v) <==> b.contains(v),
    ensures
        a == b,
    decreases a.len(),
{
    if a.len() == 0 {
        if b.len() > 0 {
            assert(b.contains(b[0]));
        }
        assert(a =~= b);
    } else {
        assert(a.contains(a[0]));
        let j = choose|j: int| 0 <= j < b.len() && b[j] == a[0];
        assert(b.contains(b[0]));
        let i = choose|i: int| 0 <= i < a.len() && a[i] == b[0];
        if j > 0 {
            assert(seq_lt(b[0].0, b[j].0));
            if i > 0 {
                assert(seq_lt(a[0].0, a[i].0));
                lemma_lt_asymmetric(a[0].0, a[i].0);
            } else {
                lemma_lt_irreflexive(b[0].0);
            }
        }
        let (ta, tb) = (a.drop_first(), b.drop_first());
        assert forall|v: (Seq<char>, Seq<char>, Seq<char>, bool)| ta.contains(v) <==> tb.contains(v) by {
            if ta.contains(v) {
                let x = choose|x: int| 0 <= x < ta.len() && ta[x] == v;
                assert(a[x + 1] == v);
                assert(a.contains(v));
                let m = choose|m: int| 0 <= m < b.len() && b[m] == v;
                if m == 0 {
                    assert(seq_lt(a[0].0, a[x + 1].0));
                    lemma_lt_irreflexive(a[0].0);
                }
                assert(tb[m - 1] == v);
            }
            if tb.contains(v) {
                let x = choose|x: int| 0 <= x < tb.len() && tb[x] == v;
                assert(b[x + 1] == v);
                assert(b.contains(v));
                let m = choose|m: int| 0 <= m < a.len() && a[m] == v;
                if m == 0 {
                    assert(seq_lt(b[0].0, b[x + 1].0));
                    lemma_lt_irreflexive(b[0].0);
                }
                assert(ta[m - 1] == v);
            }
        }
        assert forall|i: int, j: int| 0 <= i < j < ta.len() implies seq_lt(#[trigger] ta[i].0, #[trigger] ta[j].0) by {
            assert(seq_lt(a[i + 1].0, a[j + 1].0));
        }
        assert forall|i: int, j: int| 0 <= i < j < tb.len() implies seq_lt(#[trigger] tb[i].0, #[trigger] tb[j].0) by {
            assert(seq_lt(b[i + 1].0, b[j + 1].0));
        }
        lemma_strictly_sorted_equal(ta, tb);
        assert(j == 0);
        assert(b[0] == a[0]);
        assert(a.len() == ta.len() + 1 && b.len() == tb.len() + 1);
        assert forall|k: int| 0 <= k < a.len() implies a[k] == b[k] by {
            if k > 0 {
                assert(ta[k - 1] == tb[k - 1]);
            }
        }
        assert(a =~= b);
    }
}

proof fn lemma_links_strictly_sorted(ports: Seq<PortRef>, links: Seq<LinkView>)
    requires
        links_of(ports, links),
        dash_safe(ports),
    ensures
        forall|i: int, j: int|
            0 <= i < j < link_views(links).len() ==> seq_lt(#[trigger] link_views(links)[i].0, #[trigger] link_views(
                links,
            )[j].0),
{
    law_links(ports, links);
    assert forall|i: int, j: int| 0 <= i < j < link_views(links).len() implies seq_lt(
        #[trigger] link_views(links)[i].0,
        #[trigger] link_views(links)[j].0,
    ) by {
        assert(links[i].link_id@ != links[j].link_id@);
        assert(crate::sorting::key_le(links[i].sort_key(), links[j].sort_key()));
    }
}

/// Where no two ports share a name and no port name holds two dashes in a
/// row or begins with a dash, the link list does not depend on the order in
/// which the ports are given.
pub proof fn law_links_order_free(p1: Seq<PortRef>, l1: Seq<LinkView>, p2: Seq<PortRef>, l2: Seq<LinkView>)
    requires
        links_of(p1, l1),
        links_of(p2, l2),
        same_ports(p1, p2),
        unique_port_ids(p1),
        unique_port_ids(p2),
        dash_safe(p1),
        dash_safe(p2),
    ensures
        link_views(l1) == link_views(l2),
{
    lemma_views_contained(p1, l1, p2, l2);
    lemma_views_contained(p2, l2, p1, l1);
    lemma_links_strictly_sorted(p1, l1);
    lemma_links_strictly_sorted(p2, l2);
    lemma_strictly_sorted_equal(link_views(l1), link_views(l2));
}

/// Every cable up in `links` is up in `more` too, with the same two ends.
pub open spec fn cables_grow(links: Seq<LinkView>, more: Seq<LinkView>) -> bool {
    forall|k: int|
        0 <= k < links.len() && (#[trigger] links[k]).physically_up ==> exists|k2: int|
            0 <= k2 < more.len() && (#[trigger] more[k2]).physically_up && more[k2].port_a@ == links[k].port_a@
                && more[k2].port_b@ == links[k].port_b@
}

proof fn lemma_step_grows(ports: Seq<PortRef>, links: Seq<LinkView>, more: Seq<LinkView>, x: Seq<char>, y: Seq<char>)
    requires
        cables_grow(links, more),
        step(ports, links, x, y),
    ensures
        step(ports, more, x, y),
{
    if link_step(links, x, y) {
        let k = choose|k: int| 0 <= k < links.len() && k < links.len() && #[trigger] link_joins(links[k], x, y);
        assert(links[k].physically_up);
        let k2 = choose|k2: int|
            0 <= k2 < more.len() && (#[trigger] more[k2]).physically_up && more[k2].port_a@ == links[k].port_a@
                && more[k2].port_b@ == links[k].port_b@;
        assert(link_joins(more[k2], x, y));
        assert(link_step(more, x, y));
    }
}

proof fn lemma_l2_grows(ports: Seq<PortRef>, links: Seq<LinkView>, more: Seq<LinkView>, a: Seq<char>, b: Seq<char>)
    requires
        cables_grow(links, more),
        l2_spec(ports, links, a, b),
    ensures
        l2_spec(ports, more, a, b),
{
    let w = choose|w: Seq<Seq<char>>| is_walk(ports, links, w) && w[0] == a && #[trigger] w.last() == b;
    assert forall|i: int| #![trigger w[i]] 0 <= i < w.len() - 1 implies step(ports, more, w[i], w[i + 1]) by {
        lemma_step_grows(ports, links, more, w[i], w[i + 1]);
    }
    assert(is_walk(ports, more, w));
}

/// Reachability only grows as cables come up: where every cable up before
/// is still up (more may come up, or be added), every address a device
/// reached it still reaches.
pub proof fn law_reach_grows_with_cables(
    src: Seq<char>,
    dst: Seq<char>,
    ports: Seq<PortRef>,
    links: Seq<LinkView>,
    more: Seq<LinkView>,
)
    requires
        cables_grow(links, more),
        reach_spec(src, dst, ports, links),
    ensures
        reach_spec(src, dst, ports, more),
{
    let (s, d) = choose|s: int, d: int|
        0 <= s < ports.len() && 0 <= d < ports.len() && #[trigger] ports[s].device_id@ == src
            && #[trigger] opt_str(ports[d].ip) == Some(dst) && pair_reaches(ports, links, src, dst, s, d);
    if crate::addr::same_c_spec(ports[s].ip.unwrap()@, dst) {
        lemma_l2_grows(ports, links, more, ports[s].port_id@, ports[d].port_id@);
    } else {
        let sp = ports[s];
        let dp = ports[d];
        let i = choose|i: int|
            0 <= i < ports.len() && ports[i].kind == DeviceKind::Router && #[trigger] router_carries(
                ports,
                links,
                ports[i].device_id@,
                sp.gateway.unwrap()@,
                sp,
                dp,
                dp.ip.unwrap()@,
            );
        let r = ports[i].device_id@;
        let (n, f) = choose|n: int, f: int|
            #[trigger] is_first_near(ports, r, sp.gateway.unwrap()@, n) && #[trigger] is_first_far(
                ports,
                r,
                dp.ip.unwrap()@,
                f,
            ) && ports[n].port_id@ != ports[f].port_id@ && l2_spec(ports, links, sp.port_id@, ports[n].port_id@)
                && l2_spec(ports, links, ports[f].port_id@, dp.port_id@);
        lemma_l2_grows(ports, links, more, sp.port_id@, ports[n].port_id@);
        lemma_l2_grows(ports, links, more, ports[f].port_id@, dp.port_id@);
        assert(router_carries(ports, more, r, sp.gateway.unwrap()@, sp, dp, dp.ip.unwrap()@));
        assert(cross_spec(ports, more, sp, dp));
    }
    assert(pair_reaches(ports, more, src, dst, s, d));
}

proof fn lemma_named_port_is_last(ports: Seq<PortRef>, j: int)
    requires
        unique_port_ids(ports),
        0 <= j < ports.len(),
    ensures
        last_port(ports, ports[j].port_id@) == j,
{
    let id = ports[j].port_id@;
    lemma_last_port(ports, id);
    assert(port_exists(ports, id));
    let i = last_port(ports, id);
    if i < j {
        assert(ports[i].port_id@ != ports[j].port_id@);
    } else if j < i {
        assert(ports[j].port_id@ != ports[i].port_id@);
    }
}

proof fn lemma_step_symmetric(ports: Seq<PortRef>, links: Seq<LinkView>, x: Seq<char>, y: Seq<char>)
    requires
        unique_port_ids(ports),
        step(ports, links, x, y),
    ensures
        step(ports, links, y, x),
{
    if link_step(links, x, y) {
        let k = choose|k: int| 0 <= k < links.len() && k < links.len() && #[trigger] link_joins(links[k], x, y);
        assert(link_joins(links[k], y, x));
        assert(link_step(links, y, x));
    } else {
        let i = last_port(ports, x);
        lemma_last_port(ports, x);
        let j = choose|j: int|
            0 <= j < ports.len() && #[trigger] ports[j].port_id@ == y && is_bridge(ports[j].kind)
                && ports[j].device_id@ == ports[i].device_id@;
        lemma_named_port_is_last(ports, j);
        assert(ports[i].port_id@ == x);
        assert(bridge_step(ports, y, x));
    }
}

/// Layer-2 reachability is reachability along a chain of hops: `from`
/// reaches `to` exactly when they are the same port or a walk of hops
/// leads from one to the other; a hop goes along an up cable, either way,
/// or from a port of a switch or tap to another port of the same device (a
/// PC's or a router's port never passes to its device's other ports); and
/// where no two ports share a name the relation is symmetric.
pub proof fn law_l2_chain(ports: Seq<PortRef>, links: Seq<LinkView>, a: Seq<char>, b: Seq<char>)
    ensures
        l2_spec(ports, links, a, b) == (a == b || exists|w: Seq<Seq<char>>|
            is_walk(ports, links, w) && w[0] == a && #[trigger] w.last() == b),
        forall|x: Seq<char>, y: Seq<char>|
            #[trigger] step(ports, links, x, y) == ((exists|k: int|
                0 <= k < links.len() && #[trigger] link_joins(links[k], x, y)) || bridge_step(ports, x, y)),
        forall|x: Seq<char>, y: Seq<char>|
            #[trigger] link_step(links, x, y) == link_step(links, y, x),
        forall|x: Seq<char>, y: Seq<char>|
            #[trigger] bridge_step(ports, x, y) ==> last_port(ports, x) >= 0 && is_bridge(
                ports[last_port(ports, x)].kind,
            ),
        unique_port_ids(ports) ==> l2_spec(ports, links, a, b) == l2_spec(ports, links, b, a),
{
    if a == b {
        crate::reach::lemma_l2_refl(ports, links, a);
    }
    assert forall|x: Seq<char>, y: Seq<char>| #[trigger] link_step(links, x, y) == link_step(links, y, x) by {
        if link_step(links, x, y) {
            let k = choose|k: int| 0 <= k < links.len() && k < links.len() && #[trigger] link_joins(links[k], x, y);
            assert(link_joins(links[k], y, x));
        }
        if link_step(links, y, x) {
            let k = choose|k: int| 0 <= k < links.len() && k < links.len() && #[trigger] link_joins(links[k], y, x);
            assert(link_joins(links[k], x, y));
        }
    }
    if unique_port_ids(ports) {
        if l2_spec(ports, links, a, b) {
            lemma_l2_reverse(ports, links, a, b);
        }
        if l2_spec(ports, links, b, a) {
            lemma_l2_reverse(ports, links, b, a);
        }
    }
}

proof fn lemma_l2_reverse(ports: Seq<PortRef>, links: Seq<LinkView>, a: Seq<char>, b: Seq<char>)
    requires
        unique_port_ids(ports),
        l2_spec(ports, links, a, b),
    ensures
        l2_spec(ports, links, b, a),
{
    let w = choose|w: Seq<Seq<char>>| is_walk(ports, links, w) && w[0] == a && #[trigger] w.last() == b;
    let r = w.reverse();
    assert forall|i: int| #![trigger r[i]] 0 <= i < r.len() - 1 implies step(ports, links, r[i], r[i + 1]) by {
        let j = w.len() - 2 - i;
        assert(step(ports, links, w[j], w[j + 1]));
        assert(r[i] == w[j + 1] && r[i + 1] == w[j]);
        lemma_step_symmetric(ports, links, w[j], w[j + 1]);
    }
    assert(is_walk(ports, links, r));
    assert(r[0] == b);
    assert(r.last() == a);
}

/// ARP answer `e` is one that port `i` of its device may hold: a PC or
/// router port with an address on an up cable, asking for an address on
/// its own class C network or, for a PC, for its gateway; and the MAC
/// address it gives is that of port `q`, which holds the asked address.
pub open spec fn arp_answer_local(ports: Seq<PortRef>, links: Seq<LinkView>, e: ArpEntry, i: int, q: int) -> bool {
    &&& 0 <= i < ports.len()
    &&& 0 <= q < ports.len()
    &&& ports[i].device_id@ == e.device_id@
    &&& (ports[i].kind == DeviceKind::Pc || ports[i].kind == DeviceKind::Router)
    &&& ports[i].ip is Some
    &&& exists|l: int|
        0 <= l < links.len() && #[trigger] links[l].physically_up && (links[l].port_a@ == ports[i].port_id@
            || links[l].port_b@ == ports[i].port_id@)
    &&& (crate::addr::same_c_spec(ports[i].ip.unwrap()@, e.ip@) || (ports[i].kind == DeviceKind::Pc && opt_str(
        ports[i].gateway,
    ) == Some(e.ip@)))
    &&& opt_str(ports[q].ip) == Some(e.ip@)
    &&& crate::topo::comm_mac_of(ports[q]) == Some(e.mac@)
}

/// Some port of its device may hold ARP answer `e` (`arp_answer_local`).
pub open spec fn arp_entry_local(ports: Seq<PortRef>, links: Seq<LinkView>, e: ArpEntry) -> bool {
    exists|i: int, q: int| #[trigger] arp_answer_local(ports, links, e, i, q)
}

/// Every answer in an ARP table belongs to a PC or router port of that
/// device which has an address and sits on an up cable, and concerns an
/// address on that port's own class C network or, for a PC, its gateway;
/// the address it gives is that of a port holding that IP.  A host never
/// learns addresses of another network other than its gateway's.
pub proof fn law_arp_entries_local(ports: Seq<PortRef>, links: Seq<LinkView>, table: Seq<ArpEntry>)
    requires
        arp_table_of(arp_candidates(ports, links, ports.len() as int), table),
    ensures
        forall|k: int| 0 <= k < table.len() ==> #[trigger] arp_entry_local(ports, links, table[k]),
{
    law_arp_table(ports, links, table);
    let n = ports.len() as int;
    assert forall|k: int| 0 <= k < table.len() implies #[trigger] arp_entry_local(ports, links, table[k]) by {
        let e = table[k]@;
        assert(learned_among(ports, links, n, e));
        let i = choose|i: int| 0 <= i < n && #[trigger] port_learns(ports, links, i, e);
        assert(arp_eligible(ports, links, i));
        if arp_other_among(ports, i, n, e) {
            let q = choose|q: int| 0 <= q < n && #[trigger] arp_other(ports, i, q) == Some(e);
            assert(arp_answer_local(ports, links, table[k], i, q));
        } else {
            let gw = ports[i].gateway.unwrap()@;
            let g = choose|g: int| #[trigger] crate::arp::is_first_with_ip(ports, gw, g);
            assert(arp_answer_local(ports, links, table[k], i, g));
        }
    }
}

/// Switch port `i` learns entry `e` from port `j`: `i` is a port of switch
/// `e.switch_id` named `e.port_id`, it names `j` as its peer and `j` names
/// it back (the cable is up), and `e.mac` is the address `j` speaks with.
pub open spec fn mac_learned_from(ports: Seq<PortRef>, e: (Seq<char>, Seq<char>, Seq<char>), i: int, j: int) -> bool {
    &&& 0 <= i < ports.len()
    &&& 0 <= j < ports.len()
    &&& ports[i].kind == DeviceKind::Switch
    &&& ports[i].device_id@ == e.0
    &&& ports[i].port_id@ == e.1
    &&& opt_str(ports[i].peer_port_id) == Some(ports[j].port_id@)
    &&& opt_str(ports[j].peer_port_id) == Some(ports[i].port_id@)
    &&& crate::topo::comm_mac_of(ports[j]) == Some(e.2)
}

/// Some switch port learns `e` across an up cable.
pub open spec fn mac_entry_learned(ports: Seq<PortRef>, e: (Seq<char>, Seq<char>, Seq<char>)) -> bool {
    exists|i: int, j: int| #[trigger] mac_learned_from(ports, e, i, j)
}

proof fn lemma_mac_candidates_contain(ports: Seq<PortRef>, n: int, e: (Seq<char>, Seq<char>, Seq<char>))
    requires
        0 <= n <= ports.len(),
    ensures
        mac_candidates(ports, n).contains(e) == mac_entry_among(ports, n, e),
    decreases n,
{
    if n > 0 {
        lemma_mac_candidates_contain(ports, n - 1, e);
        let c = mac_candidates(ports, n - 1);
        match mac_entry_of(ports, n - 1) {
            Some(x) => {
                lemma_contains_push(c, x, e);
            },
            None => {},
        }
        if mac_entry_among(ports, n, e) {
            let i = choose|i: int| 0 <= i < n && #[trigger] mac_entry_of(ports, i) == Some(e);
            if i < n - 1 {
                assert(mac_entry_among(ports, n - 1, e));
            }
        }
        if mac_entry_among(ports, n - 1, e) {
            let i = choose|i: int| 0 <= i < n - 1 && #[trigger] mac_entry_of(ports, i) == Some(e);
            assert(mac_entry_among(ports, n, e));
        }
    }
}

proof fn lemma_mac_entry_of_learned(ports: Seq<PortRef>, i: int, e: (Seq<char>, Seq<char>, Seq<char>))
    requires
        0 <= i < ports.len(),
        mac_entry_of(ports, i) == Some(e),
    ensures
        mac_entry_learned(ports, e),
{
    let pid = ports[i].peer_port_id.unwrap()@;
    lemma_last_port(ports, pid);
    let j = last_port(ports, pid);
    assert(mac_learned_from(ports, e, i, j));
}

/// A MAC table holds an entry (switch, port, address) only when that port
/// of the switch and the port it names as its peer name each other (the
/// cable is up) and the address is the one the peer port speaks with; and,
/// where no two ports share a name, every such pair gives its entry.
pub proof fn law_mac_entries_learned(ports: Seq<PortRef>, table: Seq<MacEntry>)
    requires
        mac_views(table).to_multiset() == mac_candidates(ports, ports.len() as int).to_multiset(),
    ensures
        forall|k: int| 0 <= k < table.len() ==> #[trigger] mac_entry_learned(ports, table[k]@),
        unique_port_ids(ports) ==> forall|i: int, j: int, m: Seq<char>|
            #[trigger] mac_learned_from(ports, (ports[i].device_id@, ports[i].port_id@, m), i, j) ==> exists|k: int|
                0 <= k < table.len() && #[trigger] table[k]@ == (ports[i].device_id@, ports[i].port_id@, m),
{
    broadcast use vstd::seq_lib::group_to_multiset_ensures;

    let n = ports.len() as int;
    let views = mac_views(table);
    assert forall|k: int| 0 <= k < table.len() implies #[trigger] mac_entry_learned(ports, table[k]@) by {
        let e = table[k]@;
        assert(views[k] == e);
        assert(views.contains(e));
        assert(mac_candidates(ports, n).to_multiset().count(e) > 0);
        lemma_mac_candidates_contain(ports, n, e);
        let i = choose|i: int| 0 <= i < n && #[trigger] mac_entry_of(ports, i) == Some(e);
        lemma_mac_entry_of_learned(ports, i, e);
    }
    if unique_port_ids(ports) {
        assert forall|i: int, j: int, m: Seq<char>|
            #[trigger] mac_learned_from(ports, (ports[i].device_id@, ports[i].port_id@, m), i, j) implies exists|k: int|
            0 <= k < table.len() && #[trigger] table[k]@ == (ports[i].device_id@, ports[i].port_id@, m) by {
            let e = (ports[i].device_id@, ports[i].port_id@, m);
            lemma_named_port_is_last(ports, j);
            assert(mac_entry_of(ports, i) == Some(e));
            assert(mac_entry_among(ports, n, e));
            lemma_mac_candidates_contain(ports, n, e);
            assert(mac_candidates(ports, n).to_multiset().count(e) > 0);
            assert(views.contains(e));
            let k = choose|k: int| 0 <= k < views.len() && views[k] == e;
            assert(table[k]@ == e);
        }
    }
}

/// A port change keeps every field the patch leaves out: with no address,
/// gateway or peer in the patch, the port's address, gateway and peer stay
/// as they were; the port's name and MAC address never change and its mask
/// is always the class C one; other ports and devices are untouched.
pub proof fn law_port_change_keeps_omitted(
    o: Classroom,
    n: Classroom,
    d: int,
    p: int,
    patch: crate::wiring::PortPatch,
)
    requires
        0 <= d < o.devices@.len(),
        0 <= p < o.devices@[d].ports@.len(),
        crate::wiring::port_patched(o, n, d, p, patch),
    ensures
        patch.ip is None ==> n.devices@[d].ports@[p].ip == o.devices@[d].ports@[p].ip,
        patch.gateway is None ==> n.devices@[d].ports@[p].gateway == o.devices@[d].ports@[p].gateway,
        patch.peer_port_id is None ==> opt_str(n.devices@[d].ports@[p].peer_port_id) == opt_str(
            o.devices@[d].ports@[p].peer_port_id,
        ),
        n.devices@[d].ports@[p].id == o.devices@[d].ports@[p].id,
        n.devices@[d].ports@[p].mac == o.devices@[d].ports@[p].mac,
        n.devices@[d].ports@[p].mask@ == crate::addr::MASK_C@,
        n.devices@.len() == o.devices@.len(),
        forall|d2: int| 0 <= d2 < o.devices@.len() && d2 != d ==> #[trigger] n.devices@[d2] == o.devices@[d2],
        forall|q: int| 0 <= q < o.devices@[d].ports@.len() && q != p ==> #[trigger] n.devices@[d].ports@[q]
            == o.devices@[d].ports@[q],
        n.connections == o.connections,
{
}

/// Forwarding a frame never changes its identity, its IP addresses or its
/// payload; and a switch, unlike a router, leaves both of its MAC addresses
/// as they were: the frame leaves the switch addressed as it came in.
pub proof fn law_forward_keeps_addresses(
    o: Classroom,
    mid: Classroom,
    n: Classroom,
    dev: crate::classroom::Device,
    fi: int,
    out: Seq<char>,
    ev0: Seq<crate::sim::SimPush>,
    evs: Seq<crate::sim::SimPush>,
    ok: bool,
)
    requires
        0 <= fi < o.frames@.len(),
        crate::sim::readdressed(o, mid, dev, fi, out),
        crate::sim::hop(mid, n, fi, out, ev0, evs, ok),
    ensures
        n.frames@[fi].frame_id == o.frames@[fi].frame_id,
        n.frames@[fi].src_ip == o.frames@[fi].src_ip,
        n.frames@[fi].dst_ip == o.frames@[fi].dst_ip,
        n.frames@[fi].payload == o.frames@[fi].payload,
        dev.kind == DeviceKind::Switch ==> n.frames@[fi].dst_mac == o.frames@[fi].dst_mac
            && n.frames@[fi].src_mac == o.frames@[fi].src_mac,
{
    crate::sim::lemma_hop_keeps(mid, n, fi, out, ev0, evs, ok);
}

} // verus!
