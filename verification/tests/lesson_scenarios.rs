use papernet::addr::{is_unicast_mac, MASK_C};
use papernet::claims::{JoinOutcome, OpenClaimEvent, MSG_CLASSROOM_FULL, MSG_WAITING_OPEN};
use papernet::classroom::{Classroom, Device};
use papernet::clock::now_millis;
use papernet::ids::new_classroom_id;
use papernet::inventory::{Inventory, PcSpec, PortSpec, RouterSpec, SwitchSpec, TapSpec};
use papernet::kinds::{ClaimState, ClientKind, DeviceKind, Mode};
use papernet::server::{last_seen, socket_step, socket_text, SocketAction, SocketEvent};
use papernet::sim::{SimError, SimEvent};
use papernet::store::{StoredDevice, StoredPort};
use papernet::talk::CommError;
use papernet::wiring::{PortError, PortPatch};
use std::collections::HashMap;

fn pcs(n: usize) -> Inventory {
    Inventory { pcs: (1..=n).map(|i| PcSpec { id: format!("PC{i}") }).collect(), ..Default::default() }
}

fn created(title: &str, inventory: Inventory) -> Classroom {
    let mut seq: u64 = 0;
    Classroom::new(new_classroom_id(&mut seq), title.into(), inventory, now_millis())
}

fn hosted(class: &mut Classroom) -> JoinOutcome {
    class.join(ClientKind::StudentHosted, None, None).expect("join")
}

fn claimed(outcome: JoinOutcome) -> (String, Device) {
    match outcome {
        JoinOutcome::Claimed { connection_id, device } => (connection_id, device),
        other => panic!("expected claimed, got {other:?}"),
    }
}

fn waiting(outcome: JoinOutcome) -> String {
    match outcome {
        JoinOutcome::WaitingOpen { connection_id } => connection_id,
        other => panic!("expected waiting, got {other:?}"),
    }
}

/// Opens claiming and lets `n` hosted students join; device id to
/// connection id.
fn claim_all(class: &mut Classroom, n: usize) -> HashMap<String, String> {
    class.open_claim();
    let mut roles = HashMap::new();
    for _ in 0..n {
        let (connection_id, device) = claimed(hosted(class));
        roles.insert(device.id, connection_id);
    }
    roles
}

fn patch(ip: Option<&str>, peer: Option<&str>, gateway: Option<&str>) -> PortPatch {
    PortPatch { ip: ip.map(str::to_string), peer_port_id: peer.map(str::to_string), gateway: gateway.map(str::to_string), mask: None }
}

fn put(class: &mut Classroom, roles: &HashMap<String, String>, device: &str, port: &str, p: PortPatch) {
    class.configure_port(&roles[device], device, port, p).expect("configure");
}

fn device<'a>(class: &'a Classroom, id: &str) -> &'a Device {
    class.devices.iter().find(|d| d.id == id).expect("device")
}

// The classroom itself.

#[test]
fn create_classroom_returns_id_without_join_code() {
    let mut seq: u64 = 0;
    let id = new_classroom_id(&mut seq);
    assert!(id.starts_with("c-"));
    let class = Classroom::new(id.clone(), "八年级1班".into(), pcs(1), now_millis());
    assert_eq!(class.classroom_id, id);
    assert_eq!(class.title, "八年级1班");
}

#[test]
fn heartbeat_updates_last_seen() {
    let mut class = created("心跳课", pcs(1));
    let conn_id = waiting(hosted(&mut class));
    let mut classes = vec![class];
    let t0 = last_seen(&classes, &conn_id).expect("last_seen after join");
    while now_millis() <= t0 {}
    let beat = SocketEvent::Text(socket_text(r#"{"event":"heartbeat"}"#));
    assert_eq!(socket_step(&beat, true), SocketAction::Touch);
    classes[0].touch(&conn_id);
    let t1 = last_seen(&classes, &conn_id).expect("last_seen after heartbeat");
    assert!(t1 > t0, "t1={t1} t0={t0}");
    classes[0].touch("n-missing");
    assert_eq!(classes[0].connections.len(), 1);
}

fn inventory_with_everything() -> Inventory {
    Inventory {
        routers: vec![RouterSpec {
            id: "R1".into(),
            port_count: 2,
            ports: vec![PortSpec { id: "R1/01".into(), ip: Some("192.168.1.1".into()) }],
        }],
        switches: vec![SwitchSpec { id: "S3".into(), port_count: 1 }],
        pcs: vec![PcSpec { id: "PC1".into() }],
        taps: vec![TapSpec { id: "TAP1".into() }],
    }
}

#[test]
fn inventory_writes_device_and_port_ids() {
    let class = created("定员", inventory_with_everything());
    let ports: Vec<String> = class.devices.iter().flat_map(|d| d.ports.iter().map(|p| p.id.clone())).collect();
    assert!(ports.contains(&"R1/01".to_string()));
    assert!(ports.contains(&"R1/02".to_string()));
    assert!(ports.contains(&"S3/01".to_string()));
    assert!(ports.contains(&"PC1/01".to_string()));
    let r1_01 = device(&class, "R1").ports.iter().find(|p| p.id == "R1/01").unwrap();
    assert_eq!(r1_01.ip.as_deref(), Some("192.168.1.1"));
}

// Claiming.

#[test]
fn join_before_open_returns_waiting_open() {
    let mut class = created("八年级1班", pcs(2));
    let connection_id = waiting(hosted(&mut class));
    assert!(connection_id.starts_with("n-"));
    assert_eq!(MSG_WAITING_OPEN, "请等待教师确定本课设备");
    assert!(class.devices.iter().all(|d| d.claimed_connection_id.is_none()));
}

#[test]
fn third_join_after_two_pcs_uses_exact_full_message() {
    let mut class = created("八年级1班", pcs(2));
    class.open_claim();
    for _ in 0..2 {
        claimed(hosted(&mut class));
    }
    assert!(matches!(hosted(&mut class), JoinOutcome::Full));
    assert_eq!(class.claim_state, ClaimState::Full);
    assert_eq!(class.connections.len(), 2);
    assert_eq!(MSG_CLASSROOM_FULL, "本课设备已领完，请看教师屏");
}

#[test]
fn two_connections_never_share_device_id() {
    let mut class = created("八年级1班", pcs(2));
    class.open_claim();
    let (_, a) = claimed(hosted(&mut class));
    let (_, b) = claimed(hosted(&mut class));
    assert_ne!(a.id, b.id);
}

#[test]
fn waiting_then_open_claim_becomes_claimed() {
    let mut class = created("八年级1班", pcs(1));
    let conn_id = waiting(hosted(&mut class));
    class.open_claim();
    let again = class.join(ClientKind::StudentHosted, Some(conn_id.clone()), None).unwrap();
    let (same, device) = claimed(again);
    assert_eq!(same, conn_id);
    assert_eq!(device.id, "PC1");
}

#[test]
fn claimed_survives_disconnect_and_reconnect() {
    let mut class = created("八年级1班", pcs(1));
    class.open_claim();
    let (conn_id, device) = claimed(hosted(&mut class));
    let closed = socket_step(&SocketEvent::Closed, true);
    assert_eq!(closed, SocketAction::Stop);
    let again = class.join(ClientKind::StudentHosted, Some(conn_id.clone()), None).unwrap();
    let (_, again_device) = claimed(again);
    assert_eq!(again_device.id, device.id);
    assert_eq!(class.connections.len(), 1);
    assert!(matches!(hosted(&mut class), JoinOutcome::Full));
}

#[test]
fn hosted_pc_gets_generated_unicast_mac() {
    let mut class = created("八年级1班", pcs(1));
    class.open_claim();
    let (_, device) = claimed(hosted(&mut class));
    let mac = device.mac.clone().unwrap();
    assert!(mac.starts_with("02:00:"));
    assert!(is_unicast_mac(&mac));
    assert_eq!(device.ports[0].mac.as_deref(), Some(mac.as_str()));
}

#[test]
fn standalone_pc_uses_nic_mac() {
    let mut class = created("八年级1班", pcs(1));
    class.open_claim();
    let nic = "aa:bb:cc:dd:ee:10";
    let out = class.join(ClientKind::StudentStandalone, None, Some(nic.into())).unwrap();
    let (_, device) = claimed(out);
    assert_eq!(device.mac.as_deref(), Some(nic));
}

#[test]
fn open_claim_pushes_granted_to_waiting_ws() {
    let mut class = created("八年级1班", pcs(1));
    let conn_id = waiting(hosted(&mut class));
    let events = class.open_claim();
    assert_eq!(events.len(), 1);
    match &events[0] {
        OpenClaimEvent::Granted { connection_id, device } => {
            assert_eq!(connection_id, &conn_id);
            assert_eq!(device.id, "PC1");
        }
        other => panic!("expected granted, got {other:?}"),
    }
    let conn = class.connections.iter().find(|c| c.connection_id == conn_id).unwrap();
    assert_eq!(conn.device_id.as_deref(), Some("PC1"));
    assert_eq!(class.claim_state, ClaimState::Full);
}

#[test]
fn join_pushes_classroom_online() {
    let mut class = created("八年级1班", pcs(2));
    waiting(hosted(&mut class));
    waiting(hosted(&mut class));
    assert_eq!(class.connections.len(), 2);
}

#[test]
fn open_claim_pushes_full_to_extra_waiter() {
    let mut class = created("八年级1班", pcs(1));
    let a = waiting(hosted(&mut class));
    let b = waiting(hosted(&mut class));
    let events = class.open_claim();
    assert_eq!(events.len(), 2);
    let granted = events.iter().filter(|e| matches!(e, OpenClaimEvent::Granted { .. })).count();
    let full: Vec<&String> = events
        .iter()
        .filter_map(|e| match e {
            OpenClaimEvent::Full { connection_id } => Some(connection_id),
            _ => None,
        })
        .collect();
    assert_eq!(granted, 1);
    assert_eq!(full.len(), 1);
    assert!(full[0] == &a || full[0] == &b);
    assert_eq!(class.connections.len(), 1);
    assert_eq!(class.claim_state, ClaimState::Full);
}

#[test]
fn standalone_and_hosted_share_pool() {
    let mut class = created("八年级1班", pcs(2));
    class.open_claim();
    let nic = "aa:bb:cc:dd:ee:10";
    let (_, standalone) = claimed(class.join(ClientKind::StudentStandalone, None, Some(nic.into())).unwrap());
    let (_, hosted_pc) = claimed(hosted(&mut class));
    assert_ne!(standalone.id, hosted_pc.id);
    assert_eq!(standalone.mac.as_deref(), Some(nic));
    let hosted_mac = hosted_pc.mac.clone().unwrap();
    assert_ne!(hosted_mac, nic);
    assert!(is_unicast_mac(&hosted_mac));
}

// Cabling.

fn topology_lab() -> Inventory {
    Inventory {
        routers: vec![RouterSpec {
            id: "R1".into(),
            port_count: 2,
            ports: vec![PortSpec { id: "R1/01".into(), ip: Some("192.168.1.1".into()) }],
        }],
        switches: vec![SwitchSpec { id: "S1".into(), port_count: 2 }],
        pcs: vec![PcSpec { id: "PC1".into() }],
        taps: vec![TapSpec { id: "TAP1".into() }],
    }
}

fn topology_roles() -> (Classroom, HashMap<String, String>) {
    let mut class = created("拓扑课", topology_lab());
    let roles = claim_all(&mut class, 4);
    (class, roles)
}

#[test]
fn one_sided_peer_keeps_link_down() {
    let (mut class, roles) = topology_roles();
    put(&mut class, &roles, "PC1", "PC1/01", patch(None, Some("S1/01"), None));
    let link = class.links.iter().find(|l| l.port_a == "PC1/01" || l.port_b == "PC1/01").expect("link");
    assert!(!link.physically_up);
}

#[test]
fn mutual_peer_fills_switch_mac_table() {
    let (mut class, roles) = topology_roles();
    let pc_mac = device(&class, "PC1").mac.clone().unwrap();
    put(&mut class, &roles, "PC1", "PC1/01", patch(Some("192.168.1.10"), Some("S1/01"), None));
    put(&mut class, &roles, "S1", "S1/01", patch(None, Some("PC1/01"), None));
    let entry = class.mac_table.iter().find(|e| e.switch_id == "S1" && e.port_id == "S1/01").expect("mac");
    assert_eq!(entry.mac, pc_mac);
    assert!(class.links.iter().any(|l| l.physically_up && (l.port_a == "PC1/01" || l.port_b == "PC1/01")));
}

#[test]
fn pc_gateway_arp_when_link_is_up() {
    let (mut class, roles) = topology_roles();
    put(&mut class, &roles, "PC1", "PC1/01", patch(Some("192.168.1.10"), Some("S1/01"), Some("192.168.1.1")));
    put(&mut class, &roles, "S1", "S1/01", patch(None, Some("PC1/01"), None));
    put(&mut class, &roles, "S1", "S1/02", patch(None, Some("R1/01"), None));
    put(&mut class, &roles, "R1", "R1/01", patch(None, Some("S1/02"), None));
    let arp = class.arp_table.iter().find(|e| e.device_id == "PC1" && e.ip == "192.168.1.1").expect("gateway arp");
    assert!(arp.mac.contains(':'));
}

#[test]
fn peers_exclude_tap_ports() {
    let class = created("拓扑课", topology_lab());
    let ports = class.peer_candidates();
    assert!(ports.contains(&"PC1/01".to_string()));
    assert!(ports.contains(&"S1/01".to_string()));
    assert!(ports.contains(&"R1/01".to_string()));
    assert!(!ports.iter().any(|p| p.starts_with("TAP")));
}

#[test]
fn mask_is_always_c_class() {
    let (mut class, roles) = topology_roles();
    let mut wide = patch(Some("192.168.1.10"), None, None);
    wide.mask = Some("255.255.0.0".into());
    let err = class.configure_port(&roles["PC1"], "PC1", "PC1/01", wide).unwrap_err();
    assert_eq!(err, PortError::MaskFixed);
    assert_eq!(err.reply().code, "MASK_FIXED");
    assert_eq!(err.reply().status, 400);
    let up = class
        .configure_port(&roles["PC1"], "PC1", "PC1/01", patch(Some("192.168.1.10"), Some("S1/01"), None))
        .unwrap();
    assert_eq!(up.port.mask, MASK_C);
}

#[test]
fn other_role_cannot_write_port() {
    let (mut class, roles) = topology_roles();
    let err = class.configure_port(&roles["PC1"], "S1", "S1/01", patch(None, Some("PC1/01"), None)).unwrap_err();
    assert_eq!(err, PortError::NotOwner);
    assert_eq!(err.reply().status, 409);
    assert_eq!(err.reply().code, "NOT_OWNER");
}

#[test]
fn tap_attach_on_up_link_and_ws_patch_under_4kb() {
    let (mut class, roles) = topology_roles();
    put(&mut class, &roles, "PC1", "PC1/01", patch(None, Some("S1/01"), None));
    put(&mut class, &roles, "S1", "S1/01", patch(None, Some("PC1/01"), None));
    let up = class
        .configure_port(&roles["PC1"], "PC1", "PC1/01", patch(Some("192.168.1.10"), Some("S1/01"), None))
        .unwrap();
    assert_eq!(up.port.ip.as_deref(), Some("192.168.1.10"));
    assert_eq!(up.links.len(), 1);
    let placed = class.attach_tap("TAP1", "PC1/01", "S1/01").unwrap();
    assert_eq!(placed.tap_id, "TAP1");
}

#[test]
fn restart_restores_inventory_and_clears_claims() {
    let (mut class, roles) = topology_roles();
    put(&mut class, &roles, "PC1", "PC1/01", patch(Some("192.168.1.10"), Some("S1/01"), None));
    put(&mut class, &roles, "S1", "S1/01", patch(None, Some("PC1/01"), None));
    assert!(class.links.iter().any(|l| l.physically_up && (l.port_a == "PC1/01" || l.port_b == "PC1/01")));

    let stored_devices: Vec<StoredDevice> =
        class.devices.iter().map(|d| StoredDevice { id: d.id.clone(), kind: d.kind, mac: d.mac.clone() }).collect();
    let stored_ports: Vec<StoredPort> = class
        .devices
        .iter()
        .flat_map(|d| d.ports.iter().map(move |p| StoredPort { device_id: d.id.clone(), port: p.clone() }))
        .collect();
    let mut back = Classroom::restore(
        class.classroom_id.clone(),
        class.title.clone(),
        class.claim_state,
        class.mode,
        class.created_at,
        stored_devices,
        stored_ports,
        vec![],
    );
    assert_eq!(back.devices.len(), 4);
    assert!(back.devices.iter().all(|d| d.claimed_connection_id.is_none()));
    let r1_01 = device(&back, "R1").ports.iter().find(|p| p.id == "R1/01").unwrap();
    assert_eq!(r1_01.ip.as_deref(), Some("192.168.1.1"));
    let pc_port = device(&back, "PC1").ports.iter().find(|p| p.id == "PC1/01").unwrap();
    assert_eq!(pc_port.peer_port_id.as_deref(), Some("S1/01"));
    assert_eq!(pc_port.ip.as_deref(), Some("192.168.1.10"));
    assert!(back.links.iter().any(|l| l.physically_up && (l.port_a == "PC1/01" || l.port_b == "PC1/01")));
    let (_, device) = claimed(hosted(&mut back));
    assert!(!device.id.is_empty());
}

// Reaching across the router.

fn scene_inventory(with_tap: bool) -> Inventory {
    Inventory {
        routers: vec![RouterSpec {
            id: "R1".into(),
            port_count: 2,
            ports: vec![
                PortSpec { id: "R1/01".into(), ip: Some("192.168.1.1".into()) },
                PortSpec { id: "R1/02".into(), ip: Some("192.168.2.1".into()) },
            ],
        }],
        switches: vec![SwitchSpec { id: "S1".into(), port_count: 2 }, SwitchSpec { id: "S2".into(), port_count: 2 }],
        pcs: vec![PcSpec { id: "PCA".into() }, PcSpec { id: "PCB".into() }],
        taps: if with_tap { vec![TapSpec { id: "TAP1".into() }] } else { vec![] },
    }
}

fn wire_scene(class: &mut Classroom, roles: &HashMap<String, String>, pca_gw: &str) {
    put(class, roles, "PCA", "PCA/01", patch(Some("192.168.1.10"), Some("S1/01"), Some(pca_gw)));
    put(class, roles, "S1", "S1/01", patch(None, Some("PCA/01"), None));
    put(class, roles, "S1", "S1/02", patch(None, Some("R1/01"), None));
    put(class, roles, "R1", "R1/01", patch(None, Some("S1/02"), None));
    put(class, roles, "R1", "R1/02", patch(None, Some("S2/01"), None));
    put(class, roles, "S2", "S2/01", patch(None, Some("R1/02"), None));
    put(class, roles, "S2", "S2/02", patch(None, Some("PCB/01"), None));
    put(class, roles, "PCB", "PCB/01", patch(Some("192.168.2.10"), Some("S2/02"), Some("192.168.2.1")));
}

fn scene(title: &str, with_tap: bool, pca_gw: &str) -> (Classroom, HashMap<String, String>) {
    let mut class = created(title, scene_inventory(with_tap));
    let n = class.devices.len();
    let roles = claim_all(&mut class, n);
    wire_scene(&mut class, &roles, pca_gw);
    (class, roles)
}

#[test]
fn correct_gateway_chat_delivers() {
    let (mut class, roles) = scene("互通课", false, "192.168.1.1");
    let delivery = class.send_chat(&roles["PCA"], "192.168.2.10", "你好").unwrap();
    assert_eq!(delivery.text, "你好");
    assert_eq!(delivery.from_connection_id, roles["PCA"]);
    assert_eq!(delivery.to_connection_id.as_deref(), Some(roles["PCB"].as_str()));
    assert_eq!(delivery.from_ip, "192.168.1.10");
    assert_eq!(delivery.to_ip, "192.168.2.10");
    assert!(class.chat_log.last().unwrap().delivered);
}

#[test]
fn wrong_gateway_ping_fails() {
    let (class, roles) = scene("互通课", false, "192.168.1.99");
    let err = class.ping(&roles["PCA"], "192.168.2.10").unwrap_err();
    assert_eq!(err, CommError::Unreachable);
    assert_eq!(err.reply().status, 409);
    assert_eq!(err.reply().code, "UNREACHABLE");
}

#[test]
fn correct_gateway_ping_succeeds() {
    let (class, roles) = scene("互通课", false, "192.168.1.1");
    let detail = class.ping(&roles["PCA"], "192.168.2.10").unwrap();
    assert!(detail.contains("192.168.2.10"));
    assert_eq!(detail, "来自 192.168.2.10 的虚拟响应");
    assert_eq!(class.ping(&roles["R1"], "192.168.2.10").unwrap(), "来自 192.168.2.10 的虚拟响应");
}

#[test]
fn wrong_gateway_chat_fails() {
    let (mut class, roles) = scene("互通课", false, "192.168.1.99");
    let err = class.send_chat(&roles["PCA"], "192.168.2.10", "你好").unwrap_err();
    assert_eq!(err, CommError::Unreachable);
    assert_eq!(err.reply().code, "UNREACHABLE");
    assert!(!class.chat_log.last().unwrap().delivered);
}

#[test]
fn p3_reach_same_segment_two_pcs_via_switch() {
    let inventory = Inventory {
        switches: vec![SwitchSpec { id: "S1".into(), port_count: 2 }],
        pcs: vec![PcSpec { id: "PC1".into() }, PcSpec { id: "PC2".into() }],
        ..Default::default()
    };
    let mut class = created("同网段", inventory);
    let roles = claim_all(&mut class, 3);
    put(&mut class, &roles, "PC1", "PC1/01", patch(Some("192.168.1.10"), Some("S1/01"), None));
    put(&mut class, &roles, "S1", "S1/01", patch(None, Some("PC1/01"), None));
    put(&mut class, &roles, "S1", "S1/02", patch(None, Some("PC2/01"), None));
    put(&mut class, &roles, "PC2", "PC2/01", patch(Some("192.168.1.11"), Some("S1/02"), None));
    let delivery = class.send_chat(&roles["PC1"], "192.168.1.11", "同网段").unwrap();
    assert_eq!(delivery.to_ip, "192.168.1.11");
}

#[test]
fn router_chat_is_rejected() {
    let (mut class, roles) = scene("互通课", false, "192.168.1.1");
    let err = class.send_chat(&roles["R1"], "192.168.2.10", "你好").unwrap_err();
    assert_eq!(err, CommError::NotPc);
    assert_eq!(err.reply().status, 409);
    assert_eq!(err.reply().code, "NOT_OWNER");
}

// Walking frames.

fn sim_scene(with_tap: bool) -> (Classroom, HashMap<String, String>) {
    let (mut class, roles) = scene("模拟课", with_tap, "192.168.1.1");
    class.set_mode(Mode::Simulation);
    (class, roles)
}

fn frame<'a>(class: &'a Classroom, frame_id: &str) -> &'a papernet::frame::SimFrame {
    class.frames.iter().find(|f| f.frame_id == frame_id).expect("frame")
}

#[test]
fn switch_wrong_port_keeps_frame() {
    let (mut class, roles) = sim_scene(false);
    let (sent, _) = class.sim_send(&roles["PCA"], "192.168.2.10", "你好").unwrap();
    assert_eq!(sent.at_device_id, "S1");
    let err = class.forward(&roles["S1"], &sent.frame_id, "S1/01").unwrap_err();
    assert_eq!(err, SimError::WrongPort);
    assert_eq!(err.reply().code, "WRONG_PORT");
    let f = frame(&class, &sent.frame_id);
    assert_eq!(f.at_device_id, "S1");
    assert_eq!(f.payload, "你好");
}

#[test]
fn router_correct_port_rewrites_mac() {
    let (mut class, roles) = sim_scene(false);
    let pcb_mac = device(&class, "PCB").mac.clone().unwrap();
    let r1_02_mac = device(&class, "R1").ports.iter().find(|p| p.id == "R1/02").unwrap().mac.clone().unwrap();
    let (sent, _) = class.sim_send(&roles["PCA"], "192.168.2.10", "你好").unwrap();
    class.forward(&roles["S1"], &sent.frame_id, "S1/02").unwrap();
    let (f, _) = class.forward(&roles["R1"], &sent.frame_id, "R1/02").unwrap();
    assert_eq!(f.at_device_id, "S2");
    assert_eq!(f.dst_mac, pcb_mac);
    assert_eq!(f.src_mac, r1_02_mac);
    assert_eq!(f.src_ip, "192.168.1.10");
    assert_eq!(f.dst_ip, "192.168.2.10");
    assert_eq!(f.payload, "你好");
}

#[test]
fn tap_log_counts_passes() {
    let (mut class, roles) = scene("模拟课", true, "192.168.1.1");
    let placed = class.attach_tap("TAP1", "PCA/01", "S1/01").unwrap();
    assert_eq!(placed.tap_id, "TAP1");
    class.set_mode(Mode::Simulation);
    let (sent, events) = class.sim_send(&roles["PCA"], "192.168.2.10", "你好").unwrap();
    assert_eq!(sent.at_device_id, "S1");
    assert!(events.iter().any(|e| e.connection_id == roles["TAP1"] && matches!(e.event, SimEvent::Logged { .. })));
    class.forward(&roles["S1"], &sent.frame_id, "S1/02").unwrap();
    class.forward(&roles["R1"], &sent.frame_id, "R1/02").unwrap();
    class.forward(&roles["S2"], &sent.frame_id, "S2/02").unwrap();
    assert_eq!(class.tap_log.len(), 1);
    assert_eq!(class.tap_log[0].tap_id, "TAP1");
    assert_eq!(class.tap_log[0].frame.at_device_id, "TAP1");

    let (back, _) = class.sim_send(&roles["PCB"], "192.168.1.10", "收到").unwrap();
    class.forward(&roles["S2"], &back.frame_id, "S2/01").unwrap();
    class.forward(&roles["R1"], &back.frame_id, "R1/01").unwrap();
    class.forward(&roles["S1"], &back.frame_id, "S1/01").unwrap();
    assert_eq!(class.tap_log.len(), 2);
    assert_eq!(frame(&class, &back.frame_id).at_device_id, "PCA");
    assert_eq!(frame(&class, &back.frame_id).status, "delivered");
}

#[test]
fn reply_frame_returns_to_source() {
    let (mut class, roles) = sim_scene(false);
    let (sent, _) = class.sim_send(&roles["PCA"], "192.168.2.10", "你好").unwrap();
    class.forward(&roles["S1"], &sent.frame_id, "S1/02").unwrap();
    class.forward(&roles["R1"], &sent.frame_id, "R1/02").unwrap();
    class.forward(&roles["S2"], &sent.frame_id, "S2/02").unwrap();
    assert_eq!(frame(&class, &sent.frame_id).at_device_id, "PCB");
    assert_eq!(frame(&class, &sent.frame_id).status, "delivered");

    let (back, _) = class.sim_send(&roles["PCB"], "192.168.1.10", "收到").unwrap();
    assert_eq!(back.at_device_id, "S2");
    class.forward(&roles["S2"], &back.frame_id, "S2/01").unwrap();
    class.forward(&roles["R1"], &back.frame_id, "R1/01").unwrap();
    let (f, _) = class.forward(&roles["S1"], &back.frame_id, "S1/01").unwrap();
    assert_eq!(f.at_device_id, "PCA");
    assert_eq!(f.status, "delivered");
    assert_eq!(f.payload, "收到");
}

#[test]
fn correct_port_pushes_frame_arrived() {
    let (mut class, roles) = sim_scene(false);
    let (sent, _) = class.sim_send(&roles["PCA"], "192.168.2.10", "你好").unwrap();
    let (_, events) = class.forward(&roles["S1"], &sent.frame_id, "S1/02").unwrap();
    let arrived = events
        .iter()
        .find_map(|e| match &e.event {
            SimEvent::Arrived { frame, at_device_id } if e.connection_id == roles["R1"] => Some((frame, at_device_id)),
            _ => None,
        })
        .expect("arrived at the router");
    assert_eq!(arrived.1, "R1");
    assert_eq!(arrived.0.frame_id, sent.frame_id);
    assert_eq!(arrived.0.payload, "你好");
}

// Capacity.

fn wire_lan(class: &mut Classroom, roles: &HashMap<String, String>, pc_count: usize) {
    for i in 1..=pc_count {
        let pc = format!("PC{i}");
        let pc_port = format!("{pc}/01");
        let sw_port = format!("S1/{i:02}");
        let ip = format!("192.168.1.{}", 10 + i);
        put(class, roles, &pc, &pc_port, patch(Some(&ip), Some(&sw_port), None));
        put(class, roles, "S1", &sw_port, patch(None, Some(&pc_port), None));
    }
}

fn lan(title: &str, pc_count: usize) -> (Classroom, HashMap<String, String>) {
    let mut inventory = pcs(pc_count);
    inventory.switches = vec![SwitchSpec { id: "S1".into(), port_count: pc_count as u32 }];
    let mut class = created(title, inventory);
    let roles = claim_all(&mut class, pc_count + 1);
    wire_lan(&mut class, &roles, pc_count);
    (class, roles)
}

#[test]
fn ws_100_heartbeat_snapshot_opens() {
    let mut class = created("百人课", pcs(100));
    let roles = claim_all(&mut class, 100);
    assert_eq!(roles.len(), 100);
    for conn_id in roles.values() {
        let beat = SocketEvent::Text(socket_text(r#"{"event":"heartbeat"}"#));
        assert_eq!(socket_step(&beat, true), SocketAction::Touch);
        class.touch(conn_id);
    }
    let snap = class.snapshot();
    assert_eq!(snap.devices.len(), 100);
    assert_eq!(snap.online, 100);
    assert!(snap.devices.iter().all(|d| d.kind == DeviceKind::Pc && d.claimed_connection_id.is_some()));
}

#[test]
fn chat_10_paths_respond() {
    let (mut class, roles) = lan("十路文字", 10);
    for i in 1..=10 {
        let to = if i == 10 { 1 } else { i + 1 };
        let to_ip = format!("192.168.1.{}", 10 + to);
        let delivery = class.send_chat(&roles[&format!("PC{i}")], &to_ip, "你好").unwrap();
        assert_eq!(delivery.text, "你好");
    }
}

#[test]
fn sim_4_frames_respond() {
    let (mut class, roles) = lan("四路模拟", 4);
    class.set_mode(Mode::Simulation);
    for (from, to) in [(1, 2), (2, 1), (3, 4), (4, 3)] {
        let to_ip = format!("192.168.1.{}", 10 + to);
        let (f, _) = class.sim_send(&roles[&format!("PC{from}")], &to_ip, "帧").unwrap();
        assert_eq!(f.at_device_id, "S1");
        assert_eq!(f.payload, "帧");
    }
}
