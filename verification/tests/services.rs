use papernet::claims::{JoinOutcome, UnbindError};
use papernet::classroom::{Classroom, Port, TapAttach};
use papernet::inventory::{Inventory, PcSpec, SwitchSpec};
use papernet::kinds::{parse_claim, parse_kind, parse_mode, ClaimState, ClientKind, DeviceKind, Mode};
use papernet::server::{
    classroom_for, client_step, current_classroom, hello_mode, last_seen, socket_step, socket_text, ClientAction, ClientEvent,
    SocketAction, SocketEvent,
};
use papernet::sim::SimError;
use papernet::store::{StoredDevice, StoredPort};
use papernet::student::{has_prefix, pick_nic_mac, read_join_reply, resolve_given_mac, skip_iface, trim, ws_url, MSG_NOT_UNICAST};
use papernet::talk::CommError;
use papernet::wiring::{AttachError, PortError};

#[test]
fn ws_url_maps_http() {
    assert_eq!(
        ws_url("http://127.0.0.1:8080", Some("c-1"), "n-1"),
        "ws://127.0.0.1:8080/ws?classroom_id=c-1&connection_id=n-1"
    );
}

#[test]
fn ws_url_maps_https_and_bare_hosts() {
    assert_eq!(ws_url("https://t.example//", None, "n-2"), "wss://t.example/ws?connection_id=n-2");
    assert_eq!(ws_url("teacher:8080/", Some(""), "n-3"), "ws://teacher:8080/ws?connection_id=n-3");
}

#[test]
fn resolve_mac_rejects_multicast() {
    assert!(resolve_given_mac("01:00:00:00:00:01").is_err());
}

#[test]
fn given_mac_is_trimmed_and_lowered() {
    assert_eq!(resolve_given_mac("  AA:BB:CC:DD:EE:10\n").unwrap(), "aa:bb:cc:dd:ee:10");
    assert_eq!(resolve_given_mac("00:00:00:00:00:00").unwrap_err(), MSG_NOT_UNICAST);
}

#[test]
fn collect_skips_lo_and_zero() {
    let cards = vec![
        ("eth0".to_string(), "aa:bb:cc:dd:ee:10\n".to_string()),
        ("lo".to_string(), "00:00:00:00:00:00\n".to_string()),
    ];
    assert_eq!(pick_nic_mac(&cards).unwrap(), "aa:bb:cc:dd:ee:10");
    let only_virtual = vec![
        ("docker0".to_string(), "02:42:ac:11:00:02".to_string()),
        ("wlan0".to_string(), "00:00:00:00:00:00".to_string()),
    ];
    assert!(pick_nic_mac(&only_virtual).is_err());
}

#[test]
fn cards_are_taken_in_name_order() {
    let cards = vec![
        ("wlan0".to_string(), "aa:bb:cc:dd:ee:30".to_string()),
        ("eth1".to_string(), "AA:BB:CC:DD:EE:20".to_string()),
        ("eth0".to_string(), "01:00:00:00:00:01".to_string()),
        ("enp3s0".to_string(), "aa:bb:cc:dd:ee:40".to_string()),
    ];
    assert_eq!(pick_nic_mac(&cards).unwrap(), "aa:bb:cc:dd:ee:40");
    let later = vec![
        ("wlan0".to_string(), "aa:bb:cc:dd:ee:30".to_string()),
        ("eth1".to_string(), "AA:BB:CC:DD:EE:20".to_string()),
    ];
    assert_eq!(pick_nic_mac(&later).unwrap(), "aa:bb:cc:dd:ee:20");
}

#[test]
fn virtual_interfaces_are_skipped() {
    for name in ["lo", "lo:1", "docker0", "veth12", "br-abc", "virbr0"] {
        assert!(skip_iface(name), "{name}");
    }
    for name in ["eth0", "enp3s0", "wlan0", "lox"] {
        assert!(!skip_iface(name), "{name}");
    }
    assert!(has_prefix("docker0", "docker"));
    assert!(!has_prefix("dock", "docker"));
}

#[test]
fn trim_drops_white_space_at_both_ends() {
    assert_eq!(trim("  x y \t\n"), "x y");
    assert_eq!(trim("\u{3000}中\u{a0}"), "中");
    assert_eq!(trim("   "), "");
}

#[test]
fn error_replies_follow_the_api() {
    let r = PortError::MaskFixed.reply();
    assert_eq!((r.status, r.code), (400, "MASK_FIXED"));
    let r = PortError::PortBusy.reply();
    assert_eq!((r.status, r.code, r.message), (409, "PORT_BUSY", "端口已被占用"));
    assert_eq!(AttachError::LinkNotUp.reply().code, "LINK_NOT_UP");
    assert_eq!(AttachError::UnknownTap.reply().status, 404);
    assert_eq!(UnbindError::NotClaimed.reply().code, "NOT_CLAIMED");
    assert_eq!(CommError::Unreachable.reply().message, "目标不可达");
    assert_eq!(CommError::UnknownConn.reply().status, 404);
    assert_eq!(SimError::FrameLimit.reply().code, "FRAME_LIMIT");
    assert_eq!(SimError::NotForwarder.reply().code, "NOT_OWNER");
    assert_eq!(SimError::UnknownFrame.reply().status, 404);
}

fn class_at(id: &str, created_at: i64) -> Classroom {
    Classroom::new(id.into(), "t".into(), Inventory::default(), created_at)
}

#[test]
fn current_classroom_is_the_newest() {
    assert_eq!(current_classroom(&vec![]), None);
    let classes = vec![class_at("a", 5), class_at("b", 9), class_at("c", 9), class_at("d", 1)];
    assert_eq!(current_classroom(&classes), Some(2));
    assert_eq!(classroom_for(&classes, Some("d")), Some(3));
    assert_eq!(classroom_for(&classes, Some("zz")), Some(2));
    assert_eq!(classroom_for(&classes, None), Some(2));
}

#[test]
fn last_seen_finds_the_connection() {
    let mut a = Classroom::new("a".into(), "t".into(), Inventory { pcs: vec![PcSpec { id: "PC1".into() }], ..Default::default() }, 0);
    let JoinOutcome::WaitingOpen { connection_id } = a.join(ClientKind::StudentHosted, None, None).unwrap() else {
        panic!("expected waiting");
    };
    a.connections[0].last_seen = 77;
    let classes = vec![class_at("z", 0), a];
    assert_eq!(last_seen(&classes, &connection_id), Some(77));
    assert_eq!(last_seen(&classes, "n-none"), None);
}

#[test]
fn socket_reads_heartbeats() {
    let beat = socket_text(r#"{"event":"heartbeat"}"#);
    assert!(beat.is_json);
    assert_eq!(beat.event.as_deref(), Some("heartbeat"));
    assert_eq!(socket_step(&SocketEvent::Text(beat), true), SocketAction::Touch);
    assert_eq!(socket_step(&SocketEvent::Text(socket_text(r#"{"event":"heartbeat"}"#)), false), SocketAction::Ignore);
    let junk = socket_text("not json");
    assert!(!junk.is_json);
    assert_eq!(socket_step(&SocketEvent::Text(junk), true), SocketAction::Ignore);
    assert_eq!(socket_step(&SocketEvent::Closed, true), SocketAction::Stop);
    assert_eq!(socket_step(&SocketEvent::Outgoing, true), SocketAction::Send);
    assert_eq!(socket_step(&SocketEvent::Dropped, true), SocketAction::Stop);
    assert_eq!(socket_step(&SocketEvent::Other, true), SocketAction::Ignore);
}

#[test]
fn student_socket_stops_on_full() {
    assert_eq!(client_step(&ClientEvent::Text(socket_text(r#"{"event":"claim.full"}"#))), ClientAction::KeepAndFinish);
    assert_eq!(client_step(&ClientEvent::Text(socket_text(r#"{"event":"hello"}"#))), ClientAction::Keep);
    assert_eq!(client_step(&ClientEvent::Text(socket_text("{"))), ClientAction::Ignore);
    assert_eq!(client_step(&ClientEvent::Deadline), ClientAction::CloseAndFinish);
    assert_eq!(client_step(&ClientEvent::Closed), ClientAction::Finish);
    assert_eq!(client_step(&ClientEvent::Failed), ClientAction::Fail);
    assert_eq!(client_step(&ClientEvent::Tick), ClientAction::Heartbeat);
}

fn stored_port(device: &str, id: &str, ip: Option<&str>, peer: Option<&str>) -> StoredPort {
    StoredPort {
        device_id: device.into(),
        port: Port {
            id: id.into(),
            ip: ip.map(str::to_string),
            mask: papernet::addr::MASK_C.into(),
            gateway: None,
            peer_port_id: peer.map(str::to_string),
            mac: None,
        },
    }
}

#[test]
fn restore_rebuilds_devices_ports_and_taps() {
    let devices = vec![
        StoredDevice { id: "PC1".into(), kind: DeviceKind::Pc, mac: Some("02:00:00:00:00:05".into()) },
        StoredDevice { id: "S1".into(), kind: DeviceKind::Switch, mac: None },
    ];
    let ports = vec![
        stored_port("PC1", "PC1/01", Some("192.168.1.10"), Some("S1/01")),
        stored_port("S1", "S1/01", None, Some("PC1/01")),
        stored_port("S1", "S1/02", None, None),
        stored_port("GONE", "GONE/01", None, None),
    ];
    let taps = vec![
        TapAttach { tap_id: "TAP1".into(), link_id: "a--b".into() },
        TapAttach { tap_id: "TAP1".into(), link_id: "PC1/01--S1/01".into() },
    ];
    let class = Classroom::restore("c-1".into(), "t".into(), ClaimState::Open, Mode::Simulation, 3, devices, ports, taps);
    assert_eq!(class.devices.len(), 2);
    let s1 = class.devices.iter().find(|d| d.id == "S1").unwrap();
    assert_eq!(s1.ports.len(), 2);
    assert!(class.devices.iter().all(|d| d.claimed_connection_id.is_none()));
    assert_eq!(class.links.len(), 1);
    assert!(class.links[0].physically_up);
    assert_eq!(class.tap_attaches.len(), 1);
    assert_eq!(class.tap_attaches[0].link_id, "PC1/01--S1/01");
    assert_eq!(class.claim_state, ClaimState::Open);
    assert_eq!(class.mode, Mode::Simulation);
    assert!(class.connections.is_empty());
    assert_eq!(class.mac_table.len(), 1);
}

#[test]
fn snapshot_copies_the_classroom() {
    let mut class = Classroom::new(
        "c-1".into(),
        "t".into(),
        Inventory { switches: vec![SwitchSpec { id: "S1".into(), port_count: 2 }], pcs: vec![PcSpec { id: "PC1".into() }], ..Default::default() },
        0,
    );
    class.join(ClientKind::StudentHosted, None, None).unwrap();
    let snap = class.snapshot();
    assert_eq!(snap.classroom_id, "c-1");
    assert_eq!(snap.online, 1);
    assert_eq!(snap.devices.len(), 2);
    assert_eq!(snap.claim_state, ClaimState::Draft);
}

#[test]
fn stored_names_read_back() {
    for k in [DeviceKind::Router, DeviceKind::Switch, DeviceKind::Pc, DeviceKind::Tap] {
        assert_eq!(parse_kind(k.as_str()).unwrap(), k);
    }
    for c in [ClaimState::Draft, ClaimState::Open, ClaimState::Full] {
        assert_eq!(parse_claim(c.as_str()).unwrap(), c);
    }
    for m in [Mode::Normal, Mode::Simulation] {
        assert_eq!(parse_mode(m.as_str()).unwrap(), m);
    }
    assert_eq!(parse_kind("hub").unwrap_err(), "unknown device kind hub");
    assert_eq!(parse_claim("closed").unwrap_err(), "unknown claim_state closed");
    assert_eq!(parse_mode("x").unwrap_err(), "unknown mode x");
    assert_eq!(ClientKind::StudentStandalone.as_str(), "student-standalone");
    assert!(!ClientKind::Teacher.is_student());
}

#[test]
fn version_is_set() {
    assert_eq!(papernet::ids::version(), "0.1.0");
}

#[test]
fn join_reply_defaults() {
    let refused = read_join_reply(false, None, Some("n-1".into()), None, Some("本课设备已领完，请看教师屏".into()));
    assert!(!refused.ok);
    assert_eq!(refused.status, "full");
    assert_eq!(refused.connection_id, None);
    assert_eq!(refused.message.as_deref(), Some("本课设备已领完，请看教师屏"));
    let accepted = read_join_reply(true, Some("claimed".into()), Some("n-2".into()), None, Some("x".into()));
    assert_eq!(accepted.status, "claimed");
    assert_eq!(accepted.connection_id.as_deref(), Some("n-2"));
    assert_eq!(accepted.message, None);
    assert_eq!(read_join_reply(true, None, None, None, None).status, "");
}

#[test]
fn hello_mode_follows_the_named_classroom() {
    let mut sim = class_at("c-1", 1);
    sim.set_mode(Mode::Simulation);
    let classes = vec![sim, class_at("c-2", 2)];
    assert_eq!(hello_mode(&classes, Some("c-1")), Mode::Simulation);
    assert_eq!(hello_mode(&classes, Some("c-2")), Mode::Normal);
    assert_eq!(hello_mode(&classes, Some("c-9")), Mode::Normal);
    assert_eq!(hello_mode(&classes, None), Mode::Normal);
}
