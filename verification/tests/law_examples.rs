use papernet::claims::JoinOutcome;
use papernet::classroom::{Classroom, TAP_LOG_CAP};
use papernet::inventory::{materialize_inventory, Inventory, PcSpec, PortSpec, RouterSpec, SwitchSpec, TapSpec};
use papernet::kinds::{ClientKind, Mode};
use papernet::wiring::PortPatch;
use std::collections::{HashMap, HashSet};

fn small_lab() -> (Classroom, HashMap<String, String>) {
    let inv = Inventory {
        switches: vec![SwitchSpec { id: "S1".into(), port_count: 2 }],
        pcs: vec![PcSpec { id: "PCA".into() }, PcSpec { id: "PCB".into() }],
        taps: vec![TapSpec { id: "TAP1".into() }],
        ..Default::default()
    };
    let mut class = Classroom::new("c1".into(), "lab".into(), inv, 0);
    class.open_claim();
    let mut roles = HashMap::new();
    for _ in 0..4 {
        if let JoinOutcome::Claimed { connection_id, device } = class.join(ClientKind::StudentHosted, None, None).unwrap() {
            roles.insert(device.id, connection_id);
        }
    }
    let wiring = [
        ("PCA", "PCA/01", Some("192.168.1.10"), "S1/01"),
        ("S1", "S1/01", None, "PCA/01"),
        ("S1", "S1/02", None, "PCB/01"),
        ("PCB", "PCB/01", Some("192.168.1.11"), "S1/02"),
    ];
    for (dev, port, ip, peer) in wiring {
        let patch = PortPatch { ip: ip.map(str::to_string), peer_port_id: Some(peer.into()), gateway: None, mask: None };
        class.configure_port(&roles[dev], dev, port, patch).unwrap();
    }
    (class, roles)
}

#[test]
fn a_tap_keeps_at_most_its_share() {
    let (mut class, roles) = small_lab();
    class.attach_tap("TAP1", "PCA/01", "S1/01").unwrap();
    class.set_mode(Mode::Simulation);
    let mut first = String::new();
    for i in 0..(TAP_LOG_CAP + 5) {
        let (frame, _) = class.sim_send(&roles["PCA"], "192.168.1.11", "x").unwrap();
        if i == 5 {
            first = frame.frame_id.clone();
        }
        for f in class.frames.iter_mut() {
            f.status = "delivered".into();
        }
    }
    assert_eq!(class.tap_log.len(), TAP_LOG_CAP);
    assert_eq!(class.tap_log[0].frame.frame_id, first);
}

#[test]
fn connection_and_frame_ids_never_repeat() {
    let (mut class, roles) = small_lab();
    let mut ids: HashSet<String> = class.connections.iter().map(|c| c.connection_id.clone()).collect();
    assert_eq!(ids.len(), 4);
    class.set_mode(Mode::Simulation);
    for _ in 0..20 {
        let (frame, _) = class.sim_send(&roles["PCA"], "192.168.1.11", "x").unwrap();
        assert!(ids.insert(frame.frame_id));
    }
    let JoinOutcome::Full = class.join(ClientKind::StudentHosted, None, None).unwrap() else {
        panic!("expected full");
    };
    assert_eq!(class.connections.len(), 4);
}

#[test]
fn unplugging_takes_the_link_down_for_both_ends() {
    let (mut class, roles) = small_lab();
    assert!(class.links.iter().any(|l| l.link_id == "PCA/01--S1/01" && l.physically_up));
    let patch = PortPatch { ip: None, peer_port_id: Some(String::new()), gateway: None, mask: None };
    class.configure_port(&roles["S1"], "S1", "S1/01", patch).unwrap();
    assert!(class.links.iter().any(|l| l.link_id == "PCA/01--S1/01" && !l.physically_up));
    assert!(class.mac_table.iter().all(|e| e.port_id != "S1/01"));
    assert_eq!(class.ping(&roles["PCA"], "192.168.1.11").unwrap_err(), papernet::talk::CommError::Unreachable);
}

#[test]
fn formatted_mac_addresses_read_back() {
    let bytes: [u8; 6] = [0xaa, 0x0b, 0xc0, 0x01, 0xfe, 0x10];
    let lower = format!(
        "{:02x}:{:02x}:{:02x}:{:02x}:{:02x}:{:02x}",
        bytes[0], bytes[1], bytes[2], bytes[3], bytes[4], bytes[5]
    );
    let upper = format!(
        "{:02X}:{:02X}:{:02X}:{:02X}:{:02X}:{:02X}",
        bytes[0], bytes[1], bytes[2], bytes[3], bytes[4], bytes[5]
    );
    assert_eq!(papernet::addr::parse_mac(&lower), Some(bytes));
    assert_eq!(papernet::addr::parse_mac(&upper), Some(bytes));
    assert_eq!(papernet::addr::parse_mac("aa:bb:cc:dd:ee"), None);
    assert_eq!(papernet::addr::parse_mac("aa:bb:cc:dd:ee:f"), None);
}

#[test]
fn formatted_ipv4_addresses_read_back() {
    for (a, b, c, d) in [(0u8, 0u8, 0u8, 0u8), (192, 168, 1, 10), (255, 255, 255, 255), (10, 0, 99, 100)] {
        assert_eq!(papernet::addr::parse_ipv4(&format!("{a}.{b}.{c}.{d}")), Some([a, b, c, d]));
    }
    assert_eq!(papernet::addr::parse_ipv4("192.168.01.1"), None);
    assert_eq!(papernet::addr::parse_ipv4("192.168.1"), None);
    assert_eq!(papernet::addr::parse_ipv4("1234.1.1.1"), None);
}

#[test]
fn router_ports_take_their_last_preset_and_distinct_macs() {
    let inv = Inventory {
        routers: vec![
            RouterSpec {
                id: "R1".into(),
                port_count: 2,
                ports: vec![
                    PortSpec { id: "R1/01".into(), ip: Some("192.168.1.1".into()) },
                    PortSpec { id: "R1/09".into(), ip: Some("10.0.0.1".into()) },
                    PortSpec { id: "R1/01".into(), ip: Some("192.168.1.254".into()) },
                ],
            },
            RouterSpec { id: "R2".into(), port_count: 2, ports: vec![] },
        ],
        switches: vec![SwitchSpec { id: "S1".into(), port_count: 2 }],
        pcs: vec![PcSpec { id: "PC1".into() }],
        taps: vec![TapSpec { id: "TAP1".into() }],
    };
    let mut seq: u64 = 0;
    let out = materialize_inventory(&inv, &mut seq);
    let r1 = &out[0];
    assert_eq!(r1.ports.len(), 3);
    assert_eq!(r1.ports[0].ip.as_deref(), Some("192.168.1.254"));
    assert_eq!(r1.ports[1].ip, None);
    let macs: Vec<String> = out[..2].iter().flat_map(|d| d.ports.iter().map(|p| p.mac.clone().unwrap())).collect();
    assert!(macs.iter().all(|m| papernet::addr::is_unicast_mac(m)));
    let distinct: HashSet<&String> = macs.iter().collect();
    assert_eq!(distinct.len(), macs.len());
    assert!(out[2..].iter().all(|d| d.ports.iter().all(|p| p.ip.is_none() && p.mac.is_none())));
}

#[test]
fn link_table_and_derived_tables_follow_the_cables() {
    let (class, _) = small_lab();
    let mut names: Vec<&String> = class.links.iter().map(|l| &l.link_id).collect();
    let sorted = names.clone();
    names.sort();
    assert_eq!(names, sorted);
    names.dedup();
    assert_eq!(names.len(), class.links.len());
    for l in &class.links {
        assert!(l.port_a <= l.port_b);
        assert_eq!(l.link_id, format!("{}--{}", l.port_a, l.port_b));
    }
    let keys: HashSet<(String, String)> =
        class.mac_table.iter().map(|e| (e.switch_id.clone(), e.port_id.clone())).collect();
    assert_eq!(keys.len(), class.mac_table.len());
    let arp_keys: HashSet<(String, String)> =
        class.arp_table.iter().map(|e| (e.device_id.clone(), e.ip.clone())).collect();
    assert_eq!(arp_keys.len(), class.arp_table.len());
}

#[test]
fn join_is_refused_only_for_a_teacher_or_a_bad_address() {
    let mut class = Classroom::new("c1".into(), "t".into(), Inventory::default(), 0);
    assert!(class.join(ClientKind::Teacher, None, None).is_err());
    assert!(class.join(ClientKind::StudentStandalone, None, Some("01:00:00:00:00:01".into())).is_err());
    assert!(class.join(ClientKind::StudentStandalone, None, Some("aa:bb:cc:dd:ee:10".into())).is_ok());
    assert!(class.join(ClientKind::StudentHosted, None, None).is_ok());
}

#[test]
fn link_list_ignores_port_order() {
    let (class, _) = small_lab();
    let refs = papernet::classroom::port_refs(&class.devices);
    let mut reversed = refs.clone();
    reversed.reverse();
    assert_eq!(papernet::topo::rebuild_links(&refs), papernet::topo::rebuild_links(&reversed));
    assert_eq!(papernet::topo::rebuild_links(&refs), class.links);
}

#[test]
fn more_cables_never_cut_a_path() {
    let (mut class, _) = small_lab();
    let refs = papernet::classroom::port_refs(&class.devices);
    assert!(papernet::reach::is_reachable("PCA", "192.168.1.11", &refs, &class.links));
    let mut fewer = class.links.clone();
    for l in fewer.iter_mut() {
        if l.port_a == "PCB/01" || l.port_b == "PCB/01" {
            l.physically_up = false;
        }
    }
    assert!(!papernet::reach::is_reachable("PCA", "192.168.1.11", &refs, &fewer));
    class.rebuild_tables();
    assert!(papernet::reach::is_reachable("PCA", "192.168.1.11", &refs, &class.links));
}

#[test]
fn layer_two_reach_is_symmetric_and_pcs_do_not_bridge() {
    let (class, _) = small_lab();
    let refs = papernet::classroom::port_refs(&class.devices);
    let names: Vec<String> = refs.iter().map(|p| p.port_id.clone()).collect();
    for a in &names {
        for b in &names {
            assert_eq!(
                papernet::reach::l2_reachable(a, b, &refs, &class.links),
                papernet::reach::l2_reachable(b, a, &refs, &class.links)
            );
        }
    }
    assert!(papernet::reach::l2_reachable("PCA/01", "PCB/01", &refs, &class.links));
    assert!(papernet::reach::l2_reachable("S1/01", "S1/02", &refs, &class.links));
    assert!(!papernet::reach::l2_reachable("TAP1/01", "PCA/01", &refs, &class.links));
    assert!(papernet::reach::l2_reachable("TAP1/01", "TAP1/02", &refs, &class.links));
}

#[test]
fn open_claim_grants_the_first_waiters_in_order() {
    let inv = Inventory { pcs: vec![PcSpec { id: "PC1".into() }, PcSpec { id: "PC2".into() }], ..Default::default() };
    let mut class = Classroom::new("c1".into(), "t".into(), inv, 0);
    let mut ids = Vec::new();
    for _ in 0..3 {
        if let JoinOutcome::WaitingOpen { connection_id } = class.join(ClientKind::StudentHosted, None, None).unwrap() {
            ids.push(connection_id);
        }
    }
    let order = vec![ids[2].clone(), ids[0].clone(), ids[1].clone()];
    let events = class.open_claim_in_order(order.clone());
    assert_eq!(events.len(), 3);
    use_events(&events, &order);
    assert_eq!(class.connections.len(), 2);
}

fn use_events(events: &[papernet::claims::OpenClaimEvent], order: &[String]) {
    use_event(&events[0], &order[0], true);
    use_event(&events[1], &order[1], true);
    use_event(&events[2], &order[2], false);
}

fn use_event(e: &papernet::claims::OpenClaimEvent, id: &str, granted: bool) {
    match e {
        papernet::claims::OpenClaimEvent::Granted { connection_id, .. } => {
            assert!(granted);
            assert_eq!(connection_id, id);
        }
        papernet::claims::OpenClaimEvent::Full { connection_id } => {
            assert!(!granted);
            assert_eq!(connection_id, id);
        }
    }
}

#[test]
fn open_claim_grants_as_many_as_devices_or_waiters() {
    let inv = Inventory { pcs: vec![PcSpec { id: "PC1".into() }], ..Default::default() };
    let mut class = Classroom::new("c1".into(), "t".into(), inv, 0);
    class.join(ClientKind::StudentHosted, None, None).unwrap();
    class.join(ClientKind::StudentHosted, None, None).unwrap();
    let events = class.open_claim();
    let granted = events.iter().filter(|e| matches!(e, papernet::claims::OpenClaimEvent::Granted { .. })).count();
    assert_eq!((events.len(), granted), (2, 1));
    assert!(matches!(events[0], papernet::claims::OpenClaimEvent::Granted { .. }));
}
