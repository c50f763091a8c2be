//! Layer 2 reachability, and whether a device can reach an address.

use vstd::prelude::*;
use crate::addr::{ipv4_of, parse_ipv4, same_c_class, same_c_spec};
use crate::kinds::DeviceKind;
use crate::text::str_eq;
use crate::topo::{find_last_port, last_port, lemma_last_port, opt_str, LinkView, PortRef};

verus! {

/// Up cable `k` joins `x` to `y`.
pub open spec fn link_joins(l: LinkView, x: Seq<char>, y: Seq<char>) -> bool {
    l.physically_up && ((l.port_a@ == x && l.port_b@ == y) || (l.port_b@ == x && l.port_a@ == y))
}

/// One hop along one of the first `n` cables, if it is up.
pub open spec fn link_step_upto(links: Seq<LinkView>, n: int, x: Seq<char>, y: Seq<char>) -> bool {
    exists|k: int| 0 <= k < n && k < links.len() && #[trigger] link_joins(links[k], x, y)
}

/// One hop along an up cable.
pub open spec fn link_step(links: Seq<LinkView>, x: Seq<char>, y: Seq<char>) -> bool {
    link_step_upto(links, links.len() as int, x, y)
}

/// A switch or a tap joins all its ports.
pub open spec fn is_bridge(k: DeviceKind) -> bool {
    k == DeviceKind::Switch || k == DeviceKind::Tap
}

/// One hop across a switch or tap: from a port of such a device (the last
/// port of that name) to any switch or tap port with the same device id.
pub open spec fn bridge_step(ports: Seq<PortRef>, x: Seq<char>, y: Seq<char>) -> bool {
    let i = last_port(ports, x);
    &&& i >= 0
    &&& is_bridge(ports[i].kind)
    &&& exists|j: int|
        0 <= j < ports.len() && #[trigger] ports[j].port_id@ == y && is_bridge(ports[j].kind)
            && ports[j].device_id@ == ports[i].device_id@
}

pub open spec fn step(ports: Seq<PortRef>, links: Seq<LinkView>, x: Seq<char>, y: Seq<char>) -> bool {
    link_step(links, x, y) || bridge_step(ports, x, y)
}

/// A walk of hops.
pub open spec fn is_walk(ports: Seq<PortRef>, links: Seq<LinkView>, w: Seq<Seq<char>>) -> bool {
    &&& w.len() >= 1
    &&& forall|i: int| #![trigger w[i]] 0 <= i < w.len() - 1 ==> step(ports, links, w[i], w[i + 1])
}

/// A frame can get from port `from` to port `to` through up cables,
/// switches and taps.
pub open spec fn l2_spec(ports: Seq<PortRef>, links: Seq<LinkView>, from: Seq<char>, to: Seq<char>) -> bool {
    exists|w: Seq<Seq<char>>| is_walk(ports, links, w) && w[0] == from && #[trigger] w.last() == to
}

pub proof fn lemma_l2_refl(ports: Seq<PortRef>, links: Seq<LinkView>, x: Seq<char>)
    ensures
        l2_spec(ports, links, x, x),
{
    let w = seq![x];
    assert(is_walk(ports, links, w));
    assert(w.last() == x);
}

pub proof fn lemma_l2_extend(ports: Seq<PortRef>, links: Seq<LinkView>, from: Seq<char>, x: Seq<char>, y: Seq<char>)
    requires
        l2_spec(ports, links, from, x),
        step(ports, links, x, y),
    ensures
        l2_spec(ports, links, from, y),
{
    let w = choose|w: Seq<Seq<char>>| is_walk(ports, links, w) && w[0] == from && #[trigger] w.last() == x;
    let w2 = w.push(y);
    assert forall|i: int| 0 <= i < w2.len() - 1 implies #[trigger] step(ports, links, w2[i], w2[i + 1]) by {
        if i < w.len() - 1 {
            assert(w2[i] == w[i] && w2[i + 1] == w[i + 1]);
        } else {
            assert(w2[i] == x && w2[i + 1] == y);
        }
    }
    assert(w2.last() == y);
}

pub open spec fn names(s: Seq<String>) -> Seq<Seq<char>> {
    s.map_values(|x: String| x@)
}

/// Every name a hop can lead to, with the start.
pub open spec fn universe(ports: Seq<PortRef>, links: Seq<LinkView>, from: Seq<char>) -> Seq<Seq<char>> {
    seq![from] + links.map_values(|l: LinkView| l.port_a@) + links.map_values(|l: LinkView| l.port_b@)
        + ports.map_values(|p: PortRef| p.port_id@)
}

proof fn lemma_step_in_universe(ports: Seq<PortRef>, links: Seq<LinkView>, from: Seq<char>, x: Seq<char>, y: Seq<char>)
    requires
        step(ports, links, x, y),
    ensures
        universe(ports, links, from).contains(y),
{
    let u = universe(ports, links, from);
    let la = links.map_values(|l: LinkView| l.port_a@);
    let lb = links.map_values(|l: LinkView| l.port_b@);
    let pp = ports.map_values(|p: PortRef| p.port_id@);
    if link_step(links, x, y) {
        let k = choose|k: int| 0 <= k < links.len() && k < links.len() && #[trigger] link_joins(links[k], x, y);
        if links[k].port_b@ == y {
            assert(u[1 + links.len() + k] == y);
        } else {
            assert(u[1 + k] == y);
        }
    } else {
        let i = last_port(ports, x);
        let j = choose|j: int|
            0 <= j < ports.len() && #[trigger] ports[j].port_id@ == y && is_bridge(ports[j].kind)
                && ports[j].device_id@ == ports[i].device_id@;
        assert(u[1 + 2 * links.len() + j] == y);
    }
}

proof fn lemma_order_bound(order: Seq<Seq<char>>, u: Seq<Seq<char>>)
    requires
        order.no_duplicates(),
        forall|i: int| 0 <= i < order.len() ==> u.contains(#[trigger] order[i]),
    ensures
        order.len() <= u.len(),
{
    order.unique_seq_to_set();
    u.lemma_cardinality_of_set();
    assert(order.to_set().subset_of(u.to_set()));
    vstd::set_lib::lemma_len_subset(order.to_set(), u.to_set());
}

proof fn lemma_closed_walk(
    ports: Seq<PortRef>,
    links: Seq<LinkView>,
    order: Seq<Seq<char>>,
    w: Seq<Seq<char>>,
    n: int,
)
    requires
        is_walk(ports, links, w),
        order.contains(w[0]),
        0 <= n < w.len(),
        forall|x: Seq<char>, y: Seq<char>|
            order.contains(x) && #[trigger] step(ports, links, x, y) ==> order.contains(y),
    ensures
        order.contains(w[n]),
    decreases n,
{
    if n > 0 {
        lemma_closed_walk(ports, links, order, w, n - 1);
        assert(step(ports, links, w[n - 1], w[n]));
    }
}

fn contains_name(order: &Vec<String>, x: &str) -> (r: bool)
    ensures
        r == names(order@).contains(x@),
{
    let mut i: usize = 0;
    while i < order.len()
        invariant
            i <= order@.len(),
            forall|k: int| 0 <= k < i ==> #[trigger] order@[k]@ != x@,
        decreases order@.len() - i,
    {
        if str_eq(order[i].as_str(), x) {
            assert(names(order@)[i as int] == x@);
            return true;
        }
        i += 1;
    }
    proof {
        if names(order@).contains(x@) {
            let k = choose|k: int| 0 <= k < names(order@).len() && names(order@)[k] == x@;
            assert(order@[k]@ == x@);
        }
    }
    false
}

/// Whether a frame can get from port `from` to port `to`: breadth-first
/// over up cables and across switches and taps.
pub fn l2_reachable(from: &str, to: &str, ports: &[PortRef], links: &[LinkView]) -> (r: bool)
    ensures
        r == l2_spec(ports@, links@, from@, to@),
{
    if str_eq(from, to) {
        proof {
            lemma_l2_refl(ports@, links@, from@);
        }
        return true;
    }
    let ghost u = universe(ports@, links@, from@);
    let ghost ps = ports@;
    let ghost ls = links@;
    let mut order: Vec<String> = Vec::new();
    order.push(from.to_owned());
    let mut head: usize = 0;
    proof {
        lemma_l2_refl(ps, ls, from@);
        assert(names(order@) =~= seq![from@]);
        assert(u[0] == from@);
    }
    while head < order.len()
        invariant
            ps == ports@,
            ls == links@,
            u == universe(ps, ls, from@),
            from@ != to@,
            head <= order@.len(),
            order@.len() >= 1,
            names(order@)[0] == from@,
            names(order@).no_duplicates(),
            !names(order@).contains(to@),
            forall|i: int| 0 <= i < order@.len() ==> u.contains(#[trigger] names(order@)[i]),
            forall|i: int| 0 <= i < order@.len() ==> l2_spec(ps, ls, from@, #[trigger] names(order@)[i]),
            forall|i: int, y: Seq<char>|
                0 <= i < head && #[trigger] step(ps, ls, names(order@)[i], y) ==> names(order@).contains(y),
        decreases u.len() - head,
    {
        proof {
            lemma_order_bound(names(order@), u);
        }
        let cur = order[head].clone();
        let ghost c = cur@;
        assert(c == names(order@)[head as int]);
        let mut k: usize = 0;
        while k < links.len()
            invariant
                ps == ports@,
                ls == links@,
                u == universe(ps, ls, from@),
                from@ != to@,
                head < order@.len(),
                c == names(order@)[head as int],
                cur@ == c,
                names(order@)[0] == from@,
                names(order@).no_duplicates(),
                !names(order@).contains(to@),
                forall|i: int| 0 <= i < order@.len() ==> u.contains(#[trigger] names(order@)[i]),
                forall|i: int| 0 <= i < order@.len() ==> l2_spec(ps, ls, from@, #[trigger] names(order@)[i]),
                forall|i: int, y: Seq<char>|
                    0 <= i < head && #[trigger] step(ps, ls, names(order@)[i], y) ==> names(order@).contains(y),
                k <= ls.len(),
                forall|y: Seq<char>| #[trigger] link_step_upto(ls, k as int, c, y) ==> names(order@).contains(y),
            decreases ls.len() - k,
        {
            let l = &links[k];
            if l.physically_up {
                let next: Option<&str> = if str_eq(l.port_a.as_str(), cur.as_str()) {
                    Some(l.port_b.as_str())
                } else if str_eq(l.port_b.as_str(), cur.as_str()) {
                    Some(l.port_a.as_str())
                } else {
                    None
                };
                if let Some(n) = next {
                    assert(link_joins(ls[k as int], c, n@));
                    assert(link_step(ls, c, n@));
                    proof {
                        lemma_l2_extend(ps, ls, from@, c, n@);
                    }
                    if str_eq(n, to) {
                        return true;
                    }
                    if !contains_name(&order, n) {
                        let ghost before = names(order@);
                        proof {
                            lemma_step_in_universe(ps, ls, from@, c, n@);
                        }
                        order.push(n.to_owned());
                        proof {
                            assert(names(order@) =~= before.push(n@));
                            assert forall|i: int, j: int| 0 <= i < j < names(order@).len() implies names(order@)[i]
                                != names(order@)[j] by {
                                if j == before.len() {
                                    assert(before[i] == names(order@)[i]);
                                }
                            }
                            assert forall|y: Seq<char>| before.contains(y) implies names(order@).contains(y) by {
                                let i = choose|i: int| 0 <= i < before.len() && before[i] == y;
                                assert(names(order@)[i] == y);
                            }
                            assert(names(order@)[before.len() as int] == n@);
                        }
                    }
                }
            }
            proof {
                assert forall|y: Seq<char>| #[trigger] link_step_upto(ls, k + 1, c, y) implies names(order@).contains(y) by {
                    let kk = choose|kk: int| 0 <= kk < k + 1 && kk < ls.len() && #[trigger] link_joins(ls[kk], c, y);
                    if kk < k {
                        assert(link_step_upto(ls, k as int, c, y));
                    }
                }
            }
            k += 1;
        }
        assert(forall|y: Seq<char>| #[trigger] link_step(ls, c, y) ==> names(order@).contains(y));
        if let Some(pi) = find_last_port(ports, cur.as_str()) {
            let p = &ports[pi];
            if p.kind == DeviceKind::Switch || p.kind == DeviceKind::Tap {
                let mut j: usize = 0;
                while j < ports.len()
                    invariant
                        ps == ports@,
                        ls == links@,
                        u == universe(ps, ls, from@),
                        from@ != to@,
                        head < order@.len(),
                        c == names(order@)[head as int],
                        cur@ == c,
                cur@ == c,
                        pi == last_port(ps, c),
                        0 <= pi < ps.len(),
                        *p == ps[pi as int],
                        is_bridge(ps[pi as int].kind),
                        names(order@)[0] == from@,
                        names(order@).no_duplicates(),
                        !names(order@).contains(to@),
                        forall|i: int| 0 <= i < order@.len() ==> u.contains(#[trigger] names(order@)[i]),
                        forall|i: int| 0 <= i < order@.len() ==> l2_spec(ps, ls, from@, #[trigger] names(order@)[i]),
                        forall|i: int, y: Seq<char>|
                            0 <= i < head && #[trigger] step(ps, ls, names(order@)[i], y) ==> names(order@).contains(y),
                        forall|y: Seq<char>| #[trigger] link_step(ls, c, y) ==> names(order@).contains(y),
                        forall|jj: int|
                            0 <= jj < j && is_bridge(ps[jj].kind) && ps[jj].device_id@ == ps[pi as int].device_id@
                                ==> #[trigger] names(order@).contains(ps[jj].port_id@),
                    decreases ps.len() - j,
                {
                    let q = &ports[j];
                    let ghost order0 = names(order@);
                    if (q.kind == DeviceKind::Switch || q.kind == DeviceKind::Tap) && str_eq(
                        q.device_id.as_str(),
                        p.device_id.as_str(),
                    ) {
                        let n = q.port_id.as_str();
                        proof {
                            lemma_last_port(ps, c);
                            assert(bridge_step(ps, c, n@));
                            lemma_l2_extend(ps, ls, from@, c, n@);
                        }
                        if str_eq(n, to) {
                            return true;
                        }
                        if !contains_name(&order, n) {
                            let ghost before = names(order@);
                            proof {
                                lemma_step_in_universe(ps, ls, from@, c, n@);
                            }
                            order.push(n.to_owned());
                            proof {
                                assert(names(order@) =~= before.push(n@));
                                assert forall|i: int, jx: int| 0 <= i < jx < names(order@).len() implies names(order@)[i]
                                    != names(order@)[jx] by {
                                    if jx == before.len() {
                                        assert(before[i] == names(order@)[i]);
                                    }
                                }
                                assert forall|y: Seq<char>| before.contains(y) implies names(order@).contains(y) by {
                                    let i = choose|i: int| 0 <= i < before.len() && before[i] == y;
                                    assert(names(order@)[i] == y);
                                }
                                assert(names(order@)[before.len() as int] == n@);
                            }
                        }
                    }
                    proof {
                        assert(forall|y: Seq<char>| order0.contains(y) ==> names(order@).contains(y));
                        assert forall|jj: int|
                            0 <= jj < j + 1 && is_bridge(ps[jj].kind) && ps[jj].device_id@ == ps[pi as int].device_id@
                                implies #[trigger] names(order@).contains(ps[jj].port_id@) by {
                            if jj < j {
                                assert(order0.contains(ps[jj].port_id@));
                            }
                        }
                    }
                    j += 1;
                }
                proof {
                    assert forall|y: Seq<char>| #[trigger] bridge_step(ps, c, y) implies names(order@).contains(y) by {
                        let jj = choose|jj: int|
                            0 <= jj < ps.len() && #[trigger] ps[jj].port_id@ == y && is_bridge(ps[jj].kind)
                                && ps[jj].device_id@ == ps[last_port(ps, c)].device_id@;
                    }
                }
            }
        }
        proof {
            lemma_last_port(ps, c);
            assert forall|i: int, y: Seq<char>|
                0 <= i < head + 1 && #[trigger] step(ps, ls, names(order@)[i], y) implies names(order@).contains(y) by {
                if i == head {
                    if link_step(ls, c, y) {
                    } else {
                        assert(bridge_step(ps, c, y));
                    }
                }
            }
        }
        head += 1;
    }
    proof {
        if l2_spec(ps, ls, from@, to@) {
            let w = choose|w: Seq<Seq<char>>| is_walk(ps, ls, w) && w[0] == from@ && #[trigger] w.last() == to@;
            assert(names(order@).contains(w[0]));
            assert forall|x: Seq<char>, y: Seq<char>|
                names(order@).contains(x) && #[trigger] step(ps, ls, x, y) implies names(order@).contains(y) by {
                let i = choose|i: int| 0 <= i < names(order@).len() && names(order@)[i] == x;
            }
            lemma_closed_walk(ps, ls, names(order@), w, w.len() - 1);
        }
    }
    false
}

/// Port `n` is the first port of router `r` whose address is `ip`.
pub open spec fn is_first_near(ports: Seq<PortRef>, r: Seq<char>, ip: Seq<char>, n: int) -> bool {
    &&& 0 <= n < ports.len()
    &&& near_port(ports[n], r, ip)
    &&& forall|m: int| 0 <= m < n ==> !near_port(#[trigger] ports[m], r, ip)
}

pub open spec fn near_port(p: PortRef, r: Seq<char>, ip: Seq<char>) -> bool {
    p.kind == DeviceKind::Router && p.device_id@ == r && opt_str(p.ip) == Some(ip)
}

/// Port `f` is the first port of router `r` on the network of `dst`.
pub open spec fn is_first_far(ports: Seq<PortRef>, r: Seq<char>, dst: Seq<char>, f: int) -> bool {
    &&& 0 <= f < ports.len()
    &&& far_port(ports[f], r, dst)
    &&& forall|m: int| 0 <= m < f ==> !far_port(#[trigger] ports[m], r, dst)
}

pub open spec fn far_port(p: PortRef, r: Seq<char>, dst: Seq<char>) -> bool {
    p.kind == DeviceKind::Router && p.device_id@ == r && p.ip is Some && same_c_spec(p.ip.unwrap()@, dst)
}

/// Router `r` carries a frame from source port `sp` (through its port on
/// the gateway address `gw`) to destination port `dp` (through its port on
/// the destination's network): its first such ports are distinct and both
/// hops are reachable at layer 2.
pub open spec fn router_carries(
    ports: Seq<PortRef>,
    links: Seq<LinkView>,
    r: Seq<char>,
    gw: Seq<char>,
    sp: PortRef,
    dp: PortRef,
    dst: Seq<char>,
) -> bool {
    exists|n: int, f: int|
        #[trigger] is_first_near(ports, r, gw, n) && #[trigger] is_first_far(ports, r, dst, f)
            && ports[n].port_id@ != ports[f].port_id@ && l2_spec(ports, links, sp.port_id@, ports[n].port_id@)
            && l2_spec(ports, links, ports[f].port_id@, dp.port_id@)
}

/// A PC port `sp` reaches `dp` on another network through some router,
/// with its gateway set to that router's near-side address.
pub open spec fn cross_spec(ports: Seq<PortRef>, links: Seq<LinkView>, sp: PortRef, dp: PortRef) -> bool {
    &&& sp.gateway is Some
    &&& dp.ip is Some
    &&& exists|i: int|
        0 <= i < ports.len() && ports[i].kind == DeviceKind::Router && #[trigger] router_carries(
            ports,
            links,
            ports[i].device_id@,
            sp.gateway.unwrap()@,
            sp,
            dp,
            dp.ip.unwrap()@,
        )
}

fn first_router_port(ports: &[PortRef], r: &str, ip: &str, near: bool) -> (res: Option<usize>)
    ensures
        near ==> match res {
            Some(n) => is_first_near(ports@, r@, ip@, n as int),
            None => forall|m: int| 0 <= m < ports@.len() ==> !near_port(#[trigger] ports@[m], r@, ip@),
        },
        !near ==> match res {
            Some(f) => is_first_far(ports@, r@, ip@, f as int),
            None => forall|m: int| 0 <= m < ports@.len() ==> !far_port(#[trigger] ports@[m], r@, ip@),
        },
{
    let mut m: usize = 0;
    while m < ports.len()
        invariant
            m <= ports@.len(),
            near ==> forall|k: int| 0 <= k < m ==> !near_port(#[trigger] ports@[k], r@, ip@),
            !near ==> forall|k: int| 0 <= k < m ==> !far_port(#[trigger] ports@[k], r@, ip@),
        decreases ports@.len() - m,
    {
        let p = &ports[m];
        if p.kind == DeviceKind::Router && str_eq(p.device_id.as_str(), r) {
            match &p.ip {
                Some(pip) => {
                    let hit = if near {
                        str_eq(pip.as_str(), ip)
                    } else {
                        same_c_class(pip.as_str(), ip)
                    };
                    if hit {
                        return Some(m);
                    }
                },
                None => {},
            }
        }
        m += 1;
    }
    None
}

fn cross_reachable(sp: &PortRef, dp: &PortRef, ports: &[PortRef], links: &[LinkView]) -> (r: bool)
    ensures
        r == cross_spec(ports@, links@, *sp, *dp),
{
    let gw = match &sp.gateway {
        Some(g) => g.as_str(),
        None => return false,
    };
    let dst_ip = match &dp.ip {
        Some(d) => d.as_str(),
        None => return false,
    };
    let mut i: usize = 0;
    while i < ports.len()
        invariant
            i <= ports@.len(),
            sp.gateway is Some && gw@ == sp.gateway.unwrap()@,
            dp.ip is Some && dst_ip@ == dp.ip.unwrap()@,
            forall|k: int|
                0 <= k < i && ports@[k].kind == DeviceKind::Router ==> !#[trigger] router_carries(
                    ports@,
                    links@,
                    ports@[k].device_id@,
                    gw@,
                    *sp,
                    *dp,
                    dst_ip@,
                ),
        decreases ports@.len() - i,
    {
        let p = &ports[i];
        if p.kind == DeviceKind::Router {
            let r = p.device_id.as_str();
            let near = first_router_port(ports, r, gw, true);
            let far = first_router_port(ports, r, dst_ip, false);
            let ghost rr = r@;
            let mut ok = false;
            match (near, far) {
                (Some(n), Some(f)) => {
                    if !str_eq(ports[n].port_id.as_str(), ports[f].port_id.as_str()) {
                        if l2_reachable(sp.port_id.as_str(), ports[n].port_id.as_str(), ports, links)
                            && l2_reachable(ports[f].port_id.as_str(), dp.port_id.as_str(), ports, links) {
                            ok = true;
                        }
                    }
                    proof {
                        if !ok && router_carries(ports@, links@, rr, gw@, *sp, *dp, dst_ip@) {
                            let (n2, f2) = choose|n2: int, f2: int|
                                #[trigger] is_first_near(ports@, rr, gw@, n2) && #[trigger] is_first_far(
                                    ports@,
                                    rr,
                                    dst_ip@,
                                    f2,
                                ) && ports@[n2].port_id@ != ports@[f2].port_id@ && l2_spec(
                                    ports@,
                                    links@,
                                    sp.port_id@,
                                    ports@[n2].port_id@,
                                ) && l2_spec(ports@, links@, ports@[f2].port_id@, dp.port_id@);
                            if n2 < n {
                                assert(!near_port(ports@[n2], rr, gw@));
                            } else if n < n2 {
                                assert(!near_port(ports@[n as int], rr, gw@));
                            }
                            if f2 < f {
                                assert(!far_port(ports@[f2], rr, dst_ip@));
                            } else if f < f2 {
                                assert(!far_port(ports@[f as int], rr, dst_ip@));
                            }
                        }
                    }
                },
                _ => {
                    proof {
                        if router_carries(ports@, links@, rr, gw@, *sp, *dp, dst_ip@) {
                            let (n2, f2) = choose|n2: int, f2: int|
                                #[trigger] is_first_near(ports@, rr, gw@, n2) && #[trigger] is_first_far(
                                    ports@,
                                    rr,
                                    dst_ip@,
                                    f2,
                                ) && ports@[n2].port_id@ != ports@[f2].port_id@ && l2_spec(
                                    ports@,
                                    links@,
                                    sp.port_id@,
                                    ports@[n2].port_id@,
                                ) && l2_spec(ports@, links@, ports@[f2].port_id@, dp.port_id@);
                            assert(near_port(ports@[n2], rr, gw@));
                            assert(far_port(ports@[f2], rr, dst_ip@));
                        }
                    }
                },
            }
            if ok {
                proof {
                    let n = near.unwrap() as int;
                    let f = far.unwrap() as int;
                    assert(is_first_near(ports@, rr, gw@, n) && is_first_far(ports@, rr, dst_ip@, f));
                    assert(router_carries(ports@, links@, rr, gw@, *sp, *dp, dst_ip@));
                }
                return true;
            }
        }
        i += 1;
    }
    false
}

/// The kind of device `src`: that of its first port.
pub open spec fn src_kind_is_pc(ports: Seq<PortRef>, src: Seq<char>) -> bool {
    exists|s: int|
        0 <= s < ports.len() && #[trigger] ports[s].device_id@ == src && ports[s].kind == DeviceKind::Pc
            && forall|m: int| 0 <= m < s ==> #[trigger] ports[m].device_id@ != src
}

/// One source port `s` of the device reaches destination port `d`.
pub open spec fn pair_reaches(ports: Seq<PortRef>, links: Seq<LinkView>, src: Seq<char>, dst: Seq<char>, s: int, d: int) -> bool {
    &&& ports[s].ip is Some
    &&& if same_c_spec(ports[s].ip.unwrap()@, dst) {
        l2_spec(ports, links, ports[s].port_id@, ports[d].port_id@)
    } else {
        src_kind_is_pc(ports, src) && cross_spec(ports, links, ports[s], ports[d])
    }
}

/// Device `src` can reach address `dst`: the address is well formed and
/// belongs to some port, and some port of `src` with an address reaches
/// that port: on the same network through layer 2, otherwise (only from a
/// PC) through a router whose near-side address is the PC's gateway.
pub open spec fn reach_spec(src: Seq<char>, dst: Seq<char>, ports: Seq<PortRef>, links: Seq<LinkView>) -> bool {
    &&& ipv4_of(dst) is Some
    &&& exists|s: int, d: int|
        0 <= s < ports.len() && 0 <= d < ports.len() && #[trigger] ports[s].device_id@ == src
            && #[trigger] opt_str(ports[d].ip) == Some(dst) && pair_reaches(ports, links, src, dst, s, d)
}

fn src_is_pc(ports: &[PortRef], src: &str) -> (r: bool)
    ensures
        r == src_kind_is_pc(ports@, src@),
{
    let mut m: usize = 0;
    while m < ports.len()
        invariant
            m <= ports@.len(),
            forall|k: int| 0 <= k < m ==> #[trigger] ports@[k].device_id@ != src@,
        decreases ports@.len() - m,
    {
        if str_eq(ports[m].device_id.as_str(), src) {
            proof {
                if src_kind_is_pc(ports@, src@) {
                    let s = choose|s: int|
                        0 <= s < ports@.len() && #[trigger] ports@[s].device_id@ == src@ && ports@[s].kind
                            == DeviceKind::Pc && forall|k: int| 0 <= k < s ==> #[trigger] ports@[k].device_id@ != src@;
                    if s > m {
                        assert(ports@[m as int].device_id@ == src@);
                    }
                }
            }
            return ports[m].kind == DeviceKind::Pc;
        }
        m += 1;
    }
    false
}

/// Whether device `src_device_id` can reach address `dst_ip`.
pub fn is_reachable(src_device_id: &str, dst_ip: &str, ports: &[PortRef], links: &[LinkView]) -> (r: bool)
    ensures
        r == reach_spec(src_device_id@, dst_ip@, ports@, links@),
{
    if parse_ipv4(dst_ip).is_none() {
        return false;
    }
    let is_pc = src_is_pc(ports, src_device_id);
    let n = ports.len();
    let mut s: usize = 0;
    while s < n
        invariant
            s <= n,
            n == ports@.len(),
            ipv4_of(dst_ip@) is Some,
            is_pc == src_kind_is_pc(ports@, src_device_id@),
            forall|s2: int, d2: int|
                0 <= s2 < s && 0 <= d2 < n && #[trigger] ports@[s2].device_id@ == src_device_id@
                    && #[trigger] opt_str(ports@[d2].ip) == Some(dst_ip@) ==> !pair_reaches(
                    ports@,
                    links@,
                    src_device_id@,
                    dst_ip@,
                    s2,
                    d2,
                ),
        decreases n - s,
    {
        let sp = &ports[s];
        if str_eq(sp.device_id.as_str(), src_device_id) {
            if let Some(sip) = &sp.ip {
                let same = same_c_class(sip.as_str(), dst_ip);
                let mut d: usize = 0;
                while d < n
                    invariant
                        d <= n,
                        s < n,
                        n == ports@.len(),
                        *sp == ports@[s as int],
                        ports@[s as int].device_id@ == src_device_id@,
                        sp.ip is Some && sip@ == sp.ip.unwrap()@,
                        same == same_c_spec(sip@, dst_ip@),
                        is_pc == src_kind_is_pc(ports@, src_device_id@),
                        forall|d2: int|
                            0 <= d2 < d && #[trigger] opt_str(ports@[d2].ip) == Some(dst_ip@) ==> !pair_reaches(
                                ports@,
                                links@,
                                src_device_id@,
                                dst_ip@,
                                s as int,
                                d2,
                            ),
                    decreases n - d,
                {
                    let dp = &ports[d];
                    let is_dest = match &dp.ip {
                        Some(dip) => str_eq(dip.as_str(), dst_ip),
                        None => false,
                    };
                    if is_dest {
                        assert(opt_str(ports@[d as int].ip) == Some(dst_ip@));
                        assert(ports@[s as int].device_id@ == src_device_id@);
                        if same {
                            if l2_reachable(sp.port_id.as_str(), dp.port_id.as_str(), ports, links) {
                                assert(pair_reaches(ports@, links@, src_device_id@, dst_ip@, s as int, d as int));
                                return true;
                            }
                        } else if is_pc && cross_reachable(sp, dp, ports, links) {
                            assert(pair_reaches(ports@, links@, src_device_id@, dst_ip@, s as int, d as int));
                            return true;
                        }
                    }
                    d += 1;
                }
            }
        }
        proof {
            assert forall|s2: int, d2: int|
                0 <= s2 < s + 1 && 0 <= d2 < n && #[trigger] ports@[s2].device_id@ == src_device_id@
                    && #[trigger] opt_str(ports@[d2].ip) == Some(dst_ip@) implies !pair_reaches(
                    ports@,
                    links@,
                    src_device_id@,
                    dst_ip@,
                    s2,
                    d2,
                ) by {
                if s2 == s {
                }
            }
        }
        s += 1;
    }
    false
}

} // verus!
