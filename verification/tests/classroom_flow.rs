use papernet::claims::{JoinOutcome, UnbindError};
use papernet::classroom::{Classroom, Device, MAX_INFLIGHT_FRAMES};
use papernet::frame::SimFrame;
use papernet::inventory::{Inventory, PcSpec, RouterSpec, SwitchSpec, TapSpec};
use papernet::kinds::{ClaimState, ClientKind, DeviceKind, Mode};
use papernet::sim::SimError;
use papernet::talk::CommError;
use papernet::topo::link_id_for;

fn device<'a>(class: &'a Classroom, id: &str) -> &'a Device {
    class.devices.iter().find(|d| d.id == id).expect("device")
}

fn connection_device(class: &Classroom, connection_id: &str) -> Option<String> {
    class
        .connections
        .iter()
        .find(|c| c.connection_id == connection_id)
        .expect("connection")
        .device_id
        .clone()
}

fn one_pc() -> Inventory {
    Inventory { pcs: vec![PcSpec { id: "PC1".into() }], ..Default::default() }
}

#[test]
fn chat_rejects_simulation_mode() {
    let mut class = Classroom::new("c1".into(), "t".into(), one_pc(), 0);
    class.mode = Mode::Simulation;
    class.claim_state = ClaimState::Open;
    let outcome = class.join(ClientKind::StudentHosted, None, None).expect("join");
    let JoinOutcome::Claimed { connection_id, .. } = outcome else {
        panic!("expected claimed");
    };
    let err = class.send_chat(&connection_id, "192.168.1.2", "你好").unwrap_err();
    assert!(matches!(err, CommError::NeedNormal));
}

fn dummy_frame(id: &str, status: &str) -> SimFrame {
    SimFrame {
        frame_id: id.to_string(),
        dst_mac: "aa:aa:aa:aa:aa:01".into(),
        src_mac: "aa:aa:aa:aa:aa:02".into(),
        src_ip: "192.168.1.10".into(),
        dst_ip: "192.168.1.11".into(),
        payload: "x".into(),
        at_device_id: "PC1".into(),
        status: status.into(),
    }
}

#[test]
fn inflight_cap_rejects_257th() {
    let mut class = Classroom::new("c1".into(), "t".into(), one_pc(), 0);
    class.mode = Mode::Simulation;
    for i in 0..MAX_INFLIGHT_FRAMES {
        let id = format!("f-{i}");
        class.frames.push(dummy_frame(&id, "inflight"));
    }
    let err = class.sim_send("missing", "192.168.1.2", "你好").unwrap_err();
    assert!(matches!(err, SimError::FrameLimit));
}

#[test]
fn delivered_frames_do_not_count_toward_inflight_cap() {
    let mut class = Classroom::new("c1".into(), "t".into(), one_pc(), 0);
    class.mode = Mode::Simulation;
    for i in 0..MAX_INFLIGHT_FRAMES {
        let id = format!("d-{i}");
        class.frames.push(dummy_frame(&id, "delivered"));
    }
    let err = class.sim_send("missing", "192.168.1.2", "你好").unwrap_err();
    assert!(matches!(err, SimError::UnknownConn));
}

#[test]
fn unbind_clears_claim_and_reopens_full_classroom() {
    let mut class = Classroom::new("c1".into(), "t".into(), one_pc(), 0);
    class.claim_state = ClaimState::Open;
    let outcome = class.join(ClientKind::StudentHosted, None, None).expect("join");
    let JoinOutcome::Claimed { connection_id, .. } = outcome else {
        panic!("expected claimed");
    };
    assert_eq!(class.claim_state, ClaimState::Full);
    let released = class.unbind_device("PC1").expect("unbind");
    assert_eq!(released.as_deref(), Some(connection_id.as_str()));
    assert!(device(&class, "PC1").claimed_connection_id.is_none());
    assert!(connection_device(&class, &connection_id).is_none());
    assert_eq!(class.claim_state, ClaimState::Open);
    let again = class.join(ClientKind::StudentHosted, None, None).expect("rejoin");
    assert!(matches!(again, JoinOutcome::Claimed { .. }));
}

fn set_peer(class: &mut Classroom, port_id: &str, peer: Option<&str>) {
    for device in class.devices.iter_mut() {
        if let Some(port) = device.ports.iter_mut().find(|p| p.id == port_id) {
            port.peer_port_id = peer.map(str::to_string);
        }
    }
}

fn lab() -> Inventory {
    Inventory {
        pcs: vec![PcSpec { id: "PC1".into() }],
        switches: vec![SwitchSpec { id: "S1".into(), port_count: 2 }],
        routers: vec![RouterSpec { id: "R1".into(), port_count: 2, ports: vec![] }],
        taps: vec![TapSpec { id: "TAP1".into() }],
    }
}

#[test]
fn attach_tap_overwrites_previous_link() {
    let mut class = Classroom::new("c1".into(), "t".into(), lab(), 0);
    set_peer(&mut class, "PC1/01", Some("S1/01"));
    set_peer(&mut class, "S1/01", Some("PC1/01"));
    set_peer(&mut class, "S1/02", Some("R1/01"));
    set_peer(&mut class, "R1/01", Some("S1/02"));
    class.rebuild_tables();
    class.attach_tap("TAP1", "PC1/01", "S1/01").expect("first attach");
    class.attach_tap("TAP1", "S1/02", "R1/01").expect("move attach");
    let attached = class.tap_attaches.iter().find(|t| t.tap_id == "TAP1").map(|t| t.link_id.clone());
    assert_eq!(attached, Some(link_id_for("S1/02", "R1/01")));
    assert_eq!(class.tap_attaches.len(), 1);
}

// Claiming.

fn pcs(n: usize) -> Inventory {
    Inventory { pcs: (1..=n).map(|i| PcSpec { id: format!("PC{i}") }).collect(), ..Default::default() }
}


#[test]
fn teacher_cannot_join_as_student() {
    let mut class = Classroom::new("c1".into(), "t".into(), pcs(1), 0);
    let err = class.join(ClientKind::Teacher, None, None).unwrap_err();
    assert_eq!(err, "client_kind must be a student");
    assert!(class.connections.is_empty());
}

#[test]
fn multicast_nic_is_refused() {
    let mut class = Classroom::new("c1".into(), "t".into(), pcs(1), 0);
    let err = class.join(ClientKind::StudentStandalone, None, Some("01:00:00:00:00:01".into())).unwrap_err();
    assert_eq!(err, "nic_mac must be a unicast MAC");
}

#[test]
fn exhausted_ids_refuse_new_connections() {
    let mut class = Classroom::new("c1".into(), "t".into(), pcs(1), 0);
    class.id_seq = u64::MAX;
    let err = class.join(ClientKind::StudentHosted, None, None).unwrap_err();
    assert_eq!(err, "connection ids exhausted");
}




#[test]
fn unknown_connection_id_gets_a_new_one() {
    let mut class = Classroom::new("c1".into(), "t".into(), pcs(1), 0);
    let outcome = class.join(ClientKind::StudentHosted, Some("n-gone".into()), None).unwrap();
    let JoinOutcome::WaitingOpen { connection_id } = outcome else {
        panic!("expected waiting");
    };
    assert_ne!(connection_id, "n-gone");
}




#[test]
fn unbind_errors() {
    let mut class = Classroom::new("c1".into(), "t".into(), pcs(1), 0);
    assert!(matches!(class.unbind_device("PC9"), Err(UnbindError::UnknownDevice)));
    assert!(matches!(class.unbind_device("PC1"), Err(UnbindError::NotClaimed)));
}


#[test]
fn new_classroom_starts_in_draft_and_normal() {
    let class = Classroom::new("c1".into(), "t".into(), lab(), 42);
    assert_eq!(class.claim_state, ClaimState::Draft);
    assert_eq!(class.mode, Mode::Normal);
    assert_eq!(class.created_at, 42);
    assert_eq!(class.devices.len(), 4);
    assert_eq!(device(&class, "TAP1").kind, DeviceKind::Tap);
    assert!(class.devices.iter().all(|d| d.ports.iter().all(|p| p.mask == papernet::addr::MASK_C)));
    assert!(class.links.is_empty());
}

#[test]
fn duplicate_inventory_ids_keep_the_last() {
    let inv = Inventory {
        switches: vec![SwitchSpec { id: "X".into(), port_count: 2 }],
        pcs: vec![PcSpec { id: "X".into() }],
        ..Default::default()
    };
    let class = Classroom::new("c1".into(), "t".into(), inv, 0);
    assert_eq!(class.devices.len(), 1);
    assert_eq!(class.devices[0].kind, DeviceKind::Pc);
    assert_eq!(class.devices[0].ports.len(), 1);
}

#[test]
fn device_snapshot_copies_the_device() {
    let class = Classroom::new("c1".into(), "t".into(), lab(), 0);
    let copy = class.device_snapshot("S1").expect("switch");
    assert_eq!(copy.id, "S1");
    assert_eq!(copy.ports.len(), 2);
    assert!(class.device_snapshot("nope").is_none());
}

#[test]
fn set_mode_switches_mode() {
    let mut class = Classroom::new("c1".into(), "t".into(), lab(), 0);
    class.set_mode(Mode::Simulation);
    assert_eq!(class.mode, Mode::Simulation);
    class.set_mode(Mode::Normal);
    assert_eq!(class.mode, Mode::Normal);
}

#[test]
fn touch_at_sets_last_seen_of_that_connection_only() {
    let mut class = Classroom::new("c1".into(), "t".into(), pcs(2), 0);
    class.join(ClientKind::StudentHosted, None, None).unwrap();
    class.join(ClientKind::StudentHosted, None, None).unwrap();
    let first = class.connections[0].connection_id.clone();
    let second_seen = class.connections[1].last_seen;
    class.touch_at(&first, 12345);
    assert_eq!(class.connections[0].last_seen, 12345);
    assert_eq!(class.connections[1].last_seen, second_seen);
    class.touch_at("n-missing", 7);
    assert_eq!(class.connections.len(), 2);
    assert_eq!(class.connections[0].last_seen, 12345);
}

#[test]
fn classrooms_sharing_counters_generate_distinct_macs() {
    let router = |id: &str| Inventory {
        routers: vec![RouterSpec { id: id.into(), port_count: 2, ports: vec![] }],
        pcs: vec![PcSpec { id: format!("{id}-PC") }],
        ..Default::default()
    };
    let mut first = Classroom::new_with_counters("c-a".into(), "a".into(), router("R1"), 0, 1, 1);
    assert_eq!(first.mac_seq, 3);
    assert_eq!(first.id_seq, 1);
    let second = Classroom::new_with_counters("c-b".into(), "b".into(), router("R2"), 1, 7, first.mac_seq);
    assert_eq!(second.id_seq, 7);
    let macs = |c: &Classroom| -> Vec<String> {
        c.devices.iter().flat_map(|d| d.ports.iter().filter_map(|p| p.mac.clone())).collect()
    };
    let (a, b) = (macs(&first), macs(&second));
    assert_eq!(a.len(), 2);
    assert_eq!(b.len(), 2);
    assert!(a.iter().all(|m| !b.contains(m)));
    assert_eq!(a[0], "02:00:00:00:00:01");
    assert_eq!(b[0], "02:00:00:00:00:03");
    first.open_claim();
    first.mac_seq = second.mac_seq;
    first.join(ClientKind::StudentHosted, None, None).unwrap();
    first.join(ClientKind::StudentHosted, None, None).unwrap();
    assert_eq!(device(&first, "R1-PC").mac.as_deref(), Some("02:00:00:00:00:05"));
}

#[test]
fn lent_counters_never_move_ids_back() {
    let mut class = Classroom::new("c1".into(), "t".into(), pcs(1), 0);
    class.lend_counters(40, 9);
    assert_eq!(class.id_seq, 40);
    assert_eq!(class.mac_seq, 9);
    class.lend_counters(5, 12);
    assert_eq!(class.id_seq, 40);
    assert_eq!(class.mac_seq, 12);
    assert_eq!(class.devices.len(), 1);
}
