use papernet::claims::JoinOutcome;
use papernet::classroom::Classroom;
use papernet::inventory::{Inventory, PcSpec, PortSpec, RouterSpec, SwitchSpec, TapSpec};
use papernet::kinds::{ClaimState, ClientKind, Mode};
use papernet::sim::{SimError, SimEvent};
use papernet::talk::CommError;
use papernet::wiring::{AttachError, PortError, PortPatch};
use std::collections::HashMap;

fn scene_inventory(with_tap: bool) -> Inventory {
    Inventory {
        routers: vec![RouterSpec {
            id: "R1".into(),
            port_count: 2,
            ports: vec![
                PortSpec { id: "R1/01".into(), ip: Some("192.168.1.1".into()) },
                PortSpec { id: "R1/02".into(), ip: Some("192.168.2.1".into()) },
            ],
        }],
        switches: vec![
            SwitchSpec { id: "S1".into(), port_count: 2 },
            SwitchSpec { id: "S2".into(), port_count: 2 },
        ],
        pcs: vec![PcSpec { id: "PCA".into() }, PcSpec { id: "PCB".into() }],
        taps: if with_tap { vec![TapSpec { id: "TAP1".into() }] } else { vec![] },
    }
}

/// Every device claimed; device id to connection id.
fn claim_all(class: &mut Classroom) -> HashMap<String, String> {
    class.open_claim();
    let mut roles = HashMap::new();
    for _ in 0..class.devices.len() {
        match class.join(ClientKind::StudentHosted, None, None).expect("join") {
            JoinOutcome::Claimed { connection_id, device } => {
                roles.insert(device.id, connection_id);
            }
            other => panic!("unexpected {other:?}"),
        }
    }
    assert_eq!(class.claim_state, ClaimState::Full);
    roles
}

fn patch(ip: Option<&str>, peer: Option<&str>, gateway: Option<&str>) -> PortPatch {
    PortPatch {
        ip: ip.map(str::to_string),
        peer_port_id: peer.map(str::to_string),
        gateway: gateway.map(str::to_string),
        mask: None,
    }
}

fn put(class: &mut Classroom, roles: &HashMap<String, String>, port: &str, p: PortPatch) {
    let device = port.split('/').next().unwrap();
    class.configure_port(&roles[device], device, port, p).expect("configure");
}

fn wire(class: &mut Classroom, roles: &HashMap<String, String>, pca_gw: &str) {
    put(class, roles, "PCA/01", patch(Some("192.168.1.10"), Some("S1/01"), Some(pca_gw)));
    put(class, roles, "S1/01", patch(None, Some("PCA/01"), None));
    put(class, roles, "S1/02", patch(None, Some("R1/01"), None));
    put(class, roles, "R1/01", patch(None, Some("S1/02"), None));
    put(class, roles, "R1/02", patch(None, Some("S2/01"), None));
    put(class, roles, "S2/01", patch(None, Some("R1/02"), None));
    put(class, roles, "S2/02", patch(None, Some("PCB/01"), None));
    put(class, roles, "PCB/01", patch(Some("192.168.2.10"), Some("S2/02"), Some("192.168.2.1")));
}

fn ready(with_tap: bool, pca_gw: &str) -> (Classroom, HashMap<String, String>) {
    let mut class = Classroom::new("c1".into(), "lab".into(), scene_inventory(with_tap), 0);
    let roles = claim_all(&mut class);
    wire(&mut class, &roles, pca_gw);
    (class, roles)
}

#[test]
fn configure_port_sets_fields_and_rebuilds_tables() {
    let (class, _) = ready(false, "192.168.1.1");
    assert_eq!(class.links.len(), 4);
    assert!(class.links.iter().all(|l| l.physically_up));
    let pca = class.devices.iter().find(|d| d.id == "PCA").unwrap();
    assert_eq!(pca.ports[0].ip.as_deref(), Some("192.168.1.10"));
    assert_eq!(pca.ports[0].gateway.as_deref(), Some("192.168.1.1"));
    assert!(class.mac_table.iter().any(|e| e.switch_id == "S1" && e.port_id == "S1/01"));
    assert!(class.arp_table.iter().any(|e| e.device_id == "PCA" && e.ip == "192.168.1.1"));
}

#[test]
fn switch_takes_no_address_and_router_no_gateway() {
    let mut class = Classroom::new("c1".into(), "lab".into(), scene_inventory(false), 0);
    let roles = claim_all(&mut class);
    let up = class
        .configure_port(&roles["S1"], "S1", "S1/01", patch(Some("192.168.1.5"), None, Some("192.168.1.1")))
        .unwrap();
    assert_eq!(up.port.ip, None);
    assert_eq!(up.port.gateway, None);
    let up = class
        .configure_port(&roles["R1"], "R1", "R1/01", patch(Some("192.168.1.254"), None, Some("192.168.1.9")))
        .unwrap();
    assert_eq!(up.port.ip.as_deref(), Some("192.168.1.254"));
    assert_eq!(up.port.gateway, None);
    assert_eq!(up.port.mask, papernet::addr::MASK_C);
}

#[test]
fn empty_peer_unplugs_the_cable() {
    let (mut class, roles) = ready(false, "192.168.1.1");
    let up = class.configure_port(&roles["PCA"], "PCA", "PCA/01", patch(None, Some(""), None)).unwrap();
    assert_eq!(up.port.peer_port_id, None);
    let link = up.links.iter().find(|l| l.link_id == "PCA/01--S1/01").unwrap();
    assert!(!link.physically_up);
}

#[test]
fn port_errors() {
    let (mut class, roles) = ready(false, "192.168.1.1");
    let pca = &roles["PCA"];
    let err = |r: Result<_, PortError>| r.unwrap_err();
    assert_eq!(err(class.configure_port(&roles["PCB"], "PCA", "PCA/01", PortPatch::default())), PortError::NotOwner);
    let mut wide = PortPatch::default();
    wide.mask = Some("255.255.0.0".into());
    assert_eq!(err(class.configure_port(pca, "PCA", "PCA/01", wide)), PortError::MaskFixed);
    assert_eq!(err(class.configure_port(pca, "PCA", "PCA/01", patch(Some("300.1.1.1"), None, None))), PortError::BadIp);
    assert_eq!(err(class.configure_port(pca, "PCA", "PCA/01", patch(None, None, Some("x")))), PortError::BadIp);
    assert_eq!(err(class.configure_port(pca, "PCA", "PCA/01", patch(None, Some("ZZ/01"), None))), PortError::UnknownPeer);
    assert_eq!(err(class.configure_port(pca, "PCA", "PCA/01", patch(None, Some("R1/01"), None))), PortError::PortBusy);
    assert_eq!(err(class.configure_port(pca, "PCA", "PCA/09", PortPatch::default())), PortError::UnknownPort);
    let c = class.connections.iter().position(|c| &c.connection_id == pca).unwrap();
    class.connections[c].device_id = Some("GHOST".into());
    assert_eq!(err(class.configure_port(pca, "GHOST", "GHOST/01", PortPatch::default())), PortError::UnknownDevice);
}

#[test]
fn peer_candidates_leave_out_taps_and_are_sorted() {
    let class = Classroom::new("c1".into(), "lab".into(), scene_inventory(true), 0);
    let peers = class.peer_candidates();
    assert_eq!(peers, vec!["PCA/01", "PCB/01", "R1/01", "R1/02", "S1/01", "S1/02", "S2/01", "S2/02"]);
}



#[test]
fn comm_errors() {
    let (mut class, roles) = ready(false, "192.168.1.1");
    assert_eq!(class.send_chat(&roles["R1"], "192.168.2.10", "x").unwrap_err(), CommError::NotPc);
    assert_eq!(class.ping(&roles["S1"], "192.168.2.10").unwrap_err(), CommError::NotPcOrRouter);
    assert_eq!(class.send_chat(&roles["PCA"], "192.168.2", "x").unwrap_err(), CommError::BadIp);
    assert_eq!(class.ping("n-missing", "192.168.2.10").unwrap_err(), CommError::UnknownConn);
    assert_eq!(class.send_chat(&roles["PCA"], "192.168.9.9", "x").unwrap_err(), CommError::Unreachable);
    class.set_mode(Mode::Simulation);
    assert_eq!(class.ping(&roles["PCA"], "192.168.2.10").unwrap_err(), CommError::NeedNormal);
}

#[test]
fn chat_log_keeps_the_latest_thousand() {
    let (mut class, roles) = ready(false, "192.168.1.1");
    for i in 0..1005 {
        class.send_chat(&roles["PCA"], "192.168.2.10", &format!("m{i}")).unwrap();
    }
    assert_eq!(class.chat_log.len(), 1000);
    assert_eq!(class.chat_log[0].text, "m5");
    assert_eq!(class.chat_log[999].text, "m1004");
}

fn sim(with_tap: bool) -> (Classroom, HashMap<String, String>) {
    let (mut class, roles) = ready(with_tap, "192.168.1.1");
    class.set_mode(Mode::Simulation);
    (class, roles)
}

#[test]
fn frame_walks_to_the_far_pc() {
    let (mut class, roles) = sim(false);
    let (frame, events) = class.sim_send(&roles["PCA"], "192.168.2.10", "hello").unwrap();
    assert_eq!(frame.at_device_id, "S1");
    assert_eq!(frame.status, "inflight");
    assert!(matches!(events[0].event, SimEvent::Built { .. }));
    assert!(events.iter().any(|e| e.connection_id == roles["S1"] && matches!(e.event, SimEvent::Arrived { .. })));
    let fid = frame.frame_id.clone();
    let (f, _) = class.forward(&roles["S1"], &fid, "S1/02").unwrap();
    assert_eq!(f.at_device_id, "R1");
    let (f, _) = class.forward(&roles["R1"], &fid, "R1/02").unwrap();
    assert_eq!(f.at_device_id, "S2");
    let pcb_mac = class.devices.iter().find(|d| d.id == "PCB").unwrap().mac.clone().unwrap();
    let r1_02_mac = class.devices.iter().find(|d| d.id == "R1").unwrap().ports[1].mac.clone().unwrap();
    assert_eq!(f.dst_mac, pcb_mac);
    assert_eq!(f.src_mac, r1_02_mac);
    assert_eq!(f.src_ip, "192.168.1.10");
    assert_eq!(f.payload, "hello");
    let (f, _) = class.forward(&roles["S2"], &fid, "S2/02").unwrap();
    assert_eq!(f.at_device_id, "PCB");
    assert_eq!(f.status, "delivered");
}




#[test]
fn sim_errors() {
    let (mut class, roles) = sim(false);
    assert_eq!(class.sim_send(&roles["PCA"], "bad", "x").unwrap_err(), SimError::BadIp);
    assert_eq!(class.sim_send(&roles["PCA"], "192.168.2.10", "").unwrap_err(), SimError::BadIp);
    assert_eq!(class.sim_send("n-missing", "192.168.2.10", "x").unwrap_err(), SimError::UnknownConn);
    assert_eq!(class.sim_send(&roles["S1"], "192.168.2.10", "x").unwrap_err(), SimError::NotPc);
    assert_eq!(class.sim_send(&roles["PCA"], "192.168.7.7", "x").unwrap_err(), SimError::Unreachable);
    let (frame, _) = class.sim_send(&roles["PCA"], "192.168.2.10", "x").unwrap();
    assert_eq!(class.forward(&roles["S1"], "f-none", "S1/02").unwrap_err(), SimError::UnknownFrame);
    assert_eq!(class.forward(&roles["S2"], &frame.frame_id, "S2/01").unwrap_err(), SimError::NotHolder);
    assert_eq!(class.forward(&roles["PCB"], &frame.frame_id, "PCB/01").unwrap_err(), SimError::NotForwarder);
    assert_eq!(class.forward(&roles["S1"], &frame.frame_id, "S1/09").unwrap_err(), SimError::WrongPort);
    class.id_seq = u64::MAX;
    assert_eq!(class.sim_send(&roles["PCA"], "192.168.2.10", "x").unwrap_err(), SimError::FrameLimit);
    class.set_mode(Mode::Normal);
    assert_eq!(class.sim_send(&roles["PCA"], "192.168.2.10", "x").unwrap_err(), SimError::NeedSim);
    assert_eq!(class.forward(&roles["S1"], &frame.frame_id, "S1/02").unwrap_err(), SimError::NeedSim);
}

#[test]
fn attach_errors() {
    let (mut class, _) = ready(true, "192.168.1.1");
    assert_eq!(class.attach_tap("TAPX", "PCA/01", "S1/01").unwrap_err(), AttachError::UnknownTap);
    assert_eq!(class.attach_tap("S1", "PCA/01", "S1/01").unwrap_err(), AttachError::NotTap);
    assert_eq!(class.attach_tap("TAP1", "PCA/01", "ZZ/01").unwrap_err(), AttachError::UnknownPort);
    assert_eq!(class.attach_tap("TAP1", "PCA/01", "S2/02").unwrap_err(), AttachError::LinkNotUp);
    assert!(class.tap_attaches.is_empty());
}

fn unclaimed_lab(pcs: usize) -> Classroom {
    let inv = Inventory {
        pcs: (1..=pcs).map(|i| PcSpec { id: format!("PC{i}") }).collect(),
        switches: vec![SwitchSpec { id: "S1".into(), port_count: 2 }],
        ..Default::default()
    };
    Classroom::new("c1".into(), "t".into(), inv, 0)
}

fn bare_connection(id: &str, device: &str) -> papernet::classroom::Conn {
    papernet::classroom::Conn {
        connection_id: id.into(),
        client_kind: ClientKind::StudentHosted,
        device_id: Some(device.into()),
        nic_mac: None,
        last_seen: 0,
    }
}

#[test]
fn port_named_as_peer_elsewhere_is_busy() {
    let mut class = unclaimed_lab(2);
    class.connections.push(bare_connection("n2", "PC2"));
    let pc1 = class.devices.iter().position(|d| d.id == "PC1").unwrap();
    class.devices[pc1].ports[0].peer_port_id = Some("S1/01".into());
    let err = class.configure_port("n2", "PC2", "PC2/01", patch(None, Some("S1/01"), None)).unwrap_err();
    assert_eq!(err, PortError::PortBusy);
    let pc2 = class.devices.iter().find(|d| d.id == "PC2").unwrap();
    assert_eq!(pc2.ports[0].peer_port_id, None);
}

#[test]
fn mask_refusal_then_class_c_success() {
    let mut class = unclaimed_lab(1);
    class.connections.push(bare_connection("k", "PC1"));
    let mut wide = patch(Some("192.168.1.10"), None, None);
    wide.mask = Some("255.255.0.0".into());
    let err = class.configure_port("k", "PC1", "PC1/01", wide).unwrap_err();
    assert_eq!(err, PortError::MaskFixed);
    assert_eq!(err.reply().status, 400);
    assert_eq!(err.reply().code, "MASK_FIXED");
    assert_eq!(class.devices.iter().find(|d| d.id == "PC1").unwrap().ports[0].ip, None);
    let up = class.configure_port("k", "PC1", "PC1/01", patch(Some("192.168.1.10"), Some("S1/01"), None)).unwrap();
    assert_eq!(up.port.mask, papernet::addr::MASK_C);
}
