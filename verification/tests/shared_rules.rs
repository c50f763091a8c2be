use papernet::addr::{is_unicast_mac, mask_is_fixed, parse_ipv4, parse_mac, same_c_class, MASK_C};
use papernet::arp::rebuild_arp_table;
use papernet::frame::{frame_macs, rewrite_router_macs, router_out_port, switch_out_port, SimFrame};
use papernet::ids::{new_classroom_id, new_unicast_mac, port_id};
use papernet::inventory::{materialize_inventory, Inventory, PcSpec, PortSpec, RouterSpec, SwitchSpec, TapSpec};
use papernet::kinds::DeviceKind;
use papernet::reach::is_reachable;
use papernet::topo::{
    is_physically_up, link_id_for, ordered_pair, rebuild_links, rebuild_mac_table, ArpEntry, LinkView, MacEntry,
    PortRef,
};
use std::collections::HashSet;

fn port(
    device_id: &str,
    kind: DeviceKind,
    port_id: &str,
    ip: Option<&str>,
    peer: Option<&str>,
    mac: Option<&str>,
    gw: Option<&str>,
) -> PortRef {
    PortRef {
        device_id: device_id.into(),
        kind,
        device_mac: if kind == DeviceKind::Pc { mac.map(|s| s.into()) } else { None },
        port_id: port_id.into(),
        ip: ip.map(|s| s.into()),
        gateway: gw.map(|s| s.into()),
        peer_port_id: peer.map(|s| s.into()),
        port_mac: if kind == DeviceKind::Router { mac.map(|s| s.into()) } else { None },
    }
}

fn scene() -> (Vec<PortRef>, Vec<ArpEntry>, Vec<MacEntry>) {
    let ports = vec![
        port("PCA", DeviceKind::Pc, "PCA/01", Some("192.168.1.10"), Some("S1/01"), Some("aa:aa:aa:aa:aa:0a"), Some("192.168.1.1")),
        port("S1", DeviceKind::Switch, "S1/01", None, Some("PCA/01"), None, None),
        port("S1", DeviceKind::Switch, "S1/02", None, Some("R1/01"), None, None),
        port("R1", DeviceKind::Router, "R1/01", Some("192.168.1.1"), Some("S1/02"), Some("bb:bb:bb:bb:bb:01"), None),
        port("R1", DeviceKind::Router, "R1/02", Some("192.168.2.1"), Some("S2/01"), Some("bb:bb:bb:bb:bb:02"), None),
        port("S2", DeviceKind::Switch, "S2/01", None, Some("R1/02"), None, None),
        port("S2", DeviceKind::Switch, "S2/02", None, Some("PCB/01"), None, None),
        port("PCB", DeviceKind::Pc, "PCB/01", Some("192.168.2.10"), Some("S2/02"), Some("cc:cc:cc:cc:cc:0b"), Some("192.168.2.1")),
    ];
    let links = rebuild_links(&ports);
    let arp = rebuild_arp_table(&ports, &links);
    let mac = rebuild_mac_table(&ports, &links);
    (ports, arp, mac)
}

fn classroom_scene(pca_gw: Option<&str>, pcb_gw: Option<&str>, s1_02_peer: bool) -> (Vec<PortRef>, Vec<LinkView>) {
    let ports = vec![
        port("PCA", DeviceKind::Pc, "PCA/01", Some("192.168.1.10"), Some("S1/01"), Some("aa:aa:aa:aa:aa:01"), pca_gw),
        port("S1", DeviceKind::Switch, "S1/01", None, Some("PCA/01"), None, None),
        port("S1", DeviceKind::Switch, "S1/02", None, if s1_02_peer { Some("R1/01") } else { None }, None, None),
        port("R1", DeviceKind::Router, "R1/01", Some("192.168.1.1"), Some("S1/02"), Some("bb:bb:bb:bb:bb:01"), None),
        port("R1", DeviceKind::Router, "R1/02", Some("192.168.2.1"), Some("S2/01"), Some("bb:bb:bb:bb:bb:02"), None),
        port("S2", DeviceKind::Switch, "S2/01", None, Some("R1/02"), None, None),
        port("S2", DeviceKind::Switch, "S2/02", None, Some("PCB/01"), None, None),
        port("PCB", DeviceKind::Pc, "PCB/01", Some("192.168.2.10"), Some("S2/02"), Some("cc:cc:cc:cc:cc:01"), pcb_gw),
    ];
    let links = rebuild_links(&ports);
    (ports, links)
}

fn two_pcs_one_switch() -> Vec<PortRef> {
    vec![
        port("PC1", DeviceKind::Pc, "PC1/01", Some("192.168.1.10"), Some("S1/01"), Some("aa:aa:aa:aa:aa:01"), None),
        port("S1", DeviceKind::Switch, "S1/01", None, Some("PC1/01"), None, None),
        port("S1", DeviceKind::Switch, "S1/02", None, Some("PC2/01"), None, None),
        port("PC2", DeviceKind::Pc, "PC2/01", Some("192.168.1.11"), Some("S1/02"), Some("aa:aa:aa:aa:aa:02"), None),
    ]
}

#[test]
fn cross_segment_uses_gateway_mac() {
    let (ports, arp, _) = scene();
    let (dst, src) = frame_macs("PCA", "192.168.2.10", &ports, &arp).unwrap();
    assert_eq!(src, "aa:aa:aa:aa:aa:0a");
    assert_eq!(dst, "bb:bb:bb:bb:bb:01");
}

#[test]
fn same_segment_uses_dest_mac() {
    let ports = two_pcs_one_switch();
    let links = rebuild_links(&ports);
    let arp = rebuild_arp_table(&ports, &links);
    let (dst, src) = frame_macs("PC1", "192.168.1.11", &ports, &arp).unwrap();
    assert_eq!(src, "aa:aa:aa:aa:aa:01");
    assert_eq!(dst, "aa:aa:aa:aa:aa:02");
}

#[test]
fn switch_picks_mac_table_port() {
    let (_, _, mac) = scene();
    assert_eq!(switch_out_port("S1", "bb:bb:bb:bb:bb:01", &mac).as_deref(), Some("S1/02"));
    assert_eq!(switch_out_port("S1", "ff:ff:ff:ff:ff:ff", &mac), None);
}

#[test]
fn router_rewrite_keeps_ip_and_payload() {
    let (ports, _, _) = scene();
    let out = ports.iter().find(|p| p.port_id == "R1/02").unwrap();
    let mut frame = SimFrame {
        frame_id: "f-1".into(),
        dst_mac: "bb:bb:bb:bb:bb:01".into(),
        src_mac: "aa:aa:aa:aa:aa:0a".into(),
        src_ip: "192.168.1.10".into(),
        dst_ip: "192.168.2.10".into(),
        payload: "你好".into(),
        at_device_id: "R1".into(),
        status: "inflight".into(),
    };
    rewrite_router_macs(&mut frame, out, &ports);
    assert_eq!(frame.dst_mac, "cc:cc:cc:cc:cc:0b");
    assert_eq!(frame.src_mac, "bb:bb:bb:bb:bb:02");
    assert_eq!(frame.src_ip, "192.168.1.10");
    assert_eq!(frame.dst_ip, "192.168.2.10");
    assert_eq!(frame.payload, "你好");
    assert_eq!(router_out_port("R1", "192.168.2.10", &ports).as_deref(), Some("R1/02"));
}

#[test]
fn classroom_ids_are_unique() {
    let mut seq: u64 = 1;
    let ids: HashSet<_> = (0..64).map(|_| new_classroom_id(&mut seq)).collect();
    assert_eq!(ids.len(), 64);
    assert!(ids.iter().all(|id| id.starts_with("c-")));
}

#[test]
fn port_ids_use_device_slash_two_digits() {
    assert_eq!(port_id("R1", 1), "R1/01");
    assert_eq!(port_id("S3", 1), "S3/01");
    assert_eq!(port_id("R1", 12), "R1/12");
}

#[test]
fn materialize_writes_router_preset_ip() {
    let inv = Inventory {
        routers: vec![RouterSpec {
            id: "R1".into(),
            port_count: 2,
            ports: vec![PortSpec { id: "R1/01".into(), ip: Some("192.168.1.1".into()) }],
        }],
        ..Default::default()
    };
    let mut mac_seq: u64 = 1;
    let devices = materialize_inventory(&inv, &mut mac_seq);
    assert_eq!(devices[0].ports[0].id, "R1/01");
    assert_eq!(devices[0].ports[0].ip.as_deref(), Some("192.168.1.1"));
    assert_eq!(devices[0].ports[1].id, "R1/02");
    assert!(devices[0].ports[0].mac.is_some());
}

#[test]
fn generated_mac_is_unicast() {
    let mut seq: u64 = 1;
    let mac = new_unicast_mac(&mut seq);
    assert!(is_unicast_mac(&mac));
    let b = parse_mac(&mac).unwrap();
    assert_eq!(b[0] & 1, 0);
    assert_eq!(b[0] & 2, 2);
}

#[test]
fn reach_same_segment_two_pcs_via_switch() {
    let ports = two_pcs_one_switch();
    let links = rebuild_links(&ports);
    assert!(is_reachable("PC1", "192.168.1.11", &ports, &links));
    assert!(is_reachable("PC2", "192.168.1.10", &ports, &links));
}

#[test]
fn broken_link_is_unreachable() {
    let (ports, links) = classroom_scene(Some("192.168.1.1"), Some("192.168.2.1"), false);
    assert!(!is_reachable("PCA", "192.168.2.10", &ports, &links));
    assert!(!is_reachable("PCA", "192.168.1.1", &ports, &links));
}

#[test]
fn cross_segment_needs_near_router_gateway() {
    let (ports, links) = classroom_scene(Some("192.168.1.1"), Some("192.168.2.1"), true);
    assert!(is_reachable("PCA", "192.168.2.10", &ports, &links));
    assert!(is_reachable("PCB", "192.168.1.10", &ports, &links));
}

#[test]
fn missing_or_wrong_gateway_blocks_cross_segment() {
    let (ports, links) = classroom_scene(None, Some("192.168.2.1"), true);
    assert!(!is_reachable("PCA", "192.168.2.10", &ports, &links));
    let (ports, links) = classroom_scene(Some("192.168.2.1"), Some("192.168.2.1"), true);
    assert!(!is_reachable("PCA", "192.168.2.10", &ports, &links));
    let (ports, links) = classroom_scene(Some("192.168.1.99"), Some("192.168.2.1"), true);
    assert!(!is_reachable("PCA", "192.168.2.10", &ports, &links));
}

#[test]
fn unknown_dst_ip_is_unreachable() {
    let (ports, links) = classroom_scene(Some("192.168.1.1"), Some("192.168.2.1"), true);
    assert!(!is_reachable("PCA", "10.0.0.1", &ports, &links));
}

#[test]
fn one_sided_peer_is_not_physically_up() {
    let ports = vec![
        port("PC1", DeviceKind::Pc, "PC1/01", None, Some("S1/01"), Some("aa:aa:aa:aa:aa:01"), None),
        port("S1", DeviceKind::Switch, "S1/01", None, None, None, None),
    ];
    let links = rebuild_links(&ports);
    assert_eq!(links.len(), 1);
    assert!(!links[0].physically_up);
    assert!(rebuild_mac_table(&ports, &links).is_empty());
}

#[test]
fn mutual_peer_fills_switch_mac() {
    let ports = vec![
        port("PC1", DeviceKind::Pc, "PC1/01", None, Some("S1/01"), Some("aa:aa:aa:aa:aa:01"), None),
        port("S1", DeviceKind::Switch, "S1/01", None, Some("PC1/01"), None, None),
    ];
    let links = rebuild_links(&ports);
    assert!(links[0].physically_up);
    let mac = rebuild_mac_table(&ports, &links);
    assert_eq!(mac.len(), 1);
    assert_eq!(mac[0].switch_id, "S1");
    assert_eq!(mac[0].port_id, "S1/01");
    assert_eq!(mac[0].mac, "aa:aa:aa:aa:aa:01");
}

#[test]
fn pc_gateway_arp_when_path_is_up() {
    let ports = vec![
        port("PC1", DeviceKind::Pc, "PC1/01", Some("192.168.1.10"), Some("S1/01"), Some("aa:aa:aa:aa:aa:01"), Some("192.168.1.1")),
        port("S1", DeviceKind::Switch, "S1/01", None, Some("PC1/01"), None, None),
        port("S1", DeviceKind::Switch, "S1/02", None, Some("R1/01"), None, None),
        port("R1", DeviceKind::Router, "R1/01", Some("192.168.1.1"), Some("S1/02"), Some("bb:bb:bb:bb:bb:01"), None),
    ];
    let links = rebuild_links(&ports);
    assert_eq!(links.iter().filter(|l| l.physically_up).count(), 2);
    let arp = rebuild_arp_table(&ports, &links);
    let pc = arp.iter().find(|e| e.device_id == "PC1" && e.ip == "192.168.1.1").unwrap();
    assert_eq!(pc.mac, "bb:bb:bb:bb:bb:01");
}

#[test]
fn mask_rejects_non_c_class() {
    assert!(mask_is_fixed(None));
    assert!(mask_is_fixed(Some(MASK_C)));
    assert!(!mask_is_fixed(Some("255.255.0.0")));
}

#[test]
fn physically_up_iff_mutual() {
    assert!(!is_physically_up("A", Some("B"), "B", None));
    assert!(is_physically_up("A", Some("B"), "B", Some("A")));
    assert!(!is_physically_up("A", Some("B"), "B", Some("C")));
}

// Further cases of the address and naming rules.

#[test]
fn ipv4_parts_must_be_plain_bytes() {
    assert_eq!(parse_ipv4("192.168.1.10"), Some([192, 168, 1, 10]));
    assert_eq!(parse_ipv4("0.0.0.0"), Some([0, 0, 0, 0]));
    assert_eq!(parse_ipv4("256.1.1.1"), None);
    assert_eq!(parse_ipv4("01.1.1.1"), None);
    assert_eq!(parse_ipv4("1.1.1"), None);
    assert_eq!(parse_ipv4("1.1.1.1.1"), None);
    assert_eq!(parse_ipv4("1..1.1"), None);
    assert_eq!(parse_ipv4("a.b.c.d"), None);
    assert_eq!(parse_ipv4(""), None);
}

#[test]
fn class_c_compares_first_three_bytes() {
    assert!(same_c_class("192.168.1.10", "192.168.1.200"));
    assert!(!same_c_class("192.168.1.10", "192.168.2.10"));
    assert!(!same_c_class("192.168.1.10", "bad"));
}

#[test]
fn mac_needs_six_two_digit_hex_parts() {
    assert_eq!(parse_mac("aa:BB:0c:00:ff:10"), Some([0xaa, 0xbb, 0x0c, 0x00, 0xff, 0x10]));
    assert_eq!(parse_mac("aa:bb:cc:dd:ee"), None);
    assert_eq!(parse_mac("aa:bb:cc:dd:ee:f"), None);
    assert_eq!(parse_mac("aa:bb:cc:dd:ee:fg"), None);
    assert!(is_unicast_mac("aa:bb:cc:dd:ee:10"));
    assert!(!is_unicast_mac("01:00:00:00:00:01"));
    assert!(!is_unicast_mac("not a mac"));
}

#[test]
fn generated_macs_count_up() {
    let mut seq: u64 = 0x01020304;
    assert_eq!(new_unicast_mac(&mut seq), "02:00:01:02:03:04");
    assert_eq!(seq, 0x01020305);
    let mut top: u64 = u64::MAX;
    assert_eq!(new_unicast_mac(&mut top), "02:00:ff:ff:ff:ff");
    assert_eq!(top, 0);
}

#[test]
fn link_names_do_not_depend_on_order() {
    assert_eq!(link_id_for("S1/01", "PC1/01"), link_id_for("PC1/01", "S1/01"));
    assert_eq!(link_id_for("PC1/01", "S1/01"), "PC1/01--S1/01");
    assert_eq!(ordered_pair("b", "a"), ("a", "b"));
}

#[test]
fn links_are_listed_once_and_sorted() {
    let (_, links) = classroom_scene(Some("192.168.1.1"), Some("192.168.2.1"), true);
    let ids: Vec<&str> = links.iter().map(|l| l.link_id.as_str()).collect();
    assert_eq!(ids, vec!["PCA/01--S1/01", "PCB/01--S2/02", "R1/01--S1/02", "R1/02--S2/01"]);
    assert!(links.iter().all(|l| l.physically_up));
}

#[test]
fn materialize_numbers_every_kind() {
    let inv = Inventory {
        routers: vec![RouterSpec { id: "R1".into(), port_count: 1, ports: vec![] }],
        switches: vec![SwitchSpec { id: "S1".into(), port_count: 3 }],
        pcs: vec![PcSpec { id: "PC1".into() }],
        taps: vec![TapSpec { id: "TAP1".into() }],
    };
    let mut mac_seq: u64 = 7;
    let devices = materialize_inventory(&inv, &mut mac_seq);
    let ids: Vec<&str> = devices.iter().map(|d| d.id.as_str()).collect();
    assert_eq!(ids, vec!["R1", "S1", "PC1", "TAP1"]);
    assert_eq!(devices[0].ports[0].mac.as_deref(), Some("02:00:00:00:00:07"));
    assert_eq!(mac_seq, 8);
    assert_eq!(devices[1].ports.len(), 3);
    assert_eq!(devices[1].ports[2].id, "S1/03");
    assert!(devices[1].ports.iter().all(|p| p.mac.is_none() && p.mask == MASK_C));
    assert_eq!(devices[2].ports.len(), 1);
    assert_eq!(devices[3].ports.len(), 2);
    assert_eq!(devices[3].ports[1].id, "TAP1/02");
}
