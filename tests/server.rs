use relay::command::{command_handler, command_packet_handler};
use relay::config::TcpServerConfig;
use relay::controller::{controller_step, ControllerAction};
use relay::heartbeat::{
    heartbeat_probe, heartbeat_verdict, HeartbeatError, HeartbeatReply, HeartbeatVerdict,
};
use relay::packet::Packet;
use relay::pipe::MessagePipe;
use relay::registry::RoleContainer;
use relay::role::Role;
use relay::session::{Connection, Dispatch};

fn packet(receivers: &[&str], body: &str, id: &str) -> Packet {
    Packet::new_with_id(
        receivers.iter().map(|s| s.to_string()).collect(),
        body.to_string(),
        id.to_string(),
    )
}

fn controller(name: &str) -> Role {
    Role::Controller(name.to_string())
}

#[test]
fn list_receivers_after_register_and_remove() {
    let mut roles = RoleContainer::new();
    roles.add(controller("c1"));
    roles.add(Role::Receiver("r1".to_string()));
    assert_eq!(command_handler("list_receivers", &roles), Some(r#"["r1"]"#.to_string()));
    roles.remove(&Role::Receiver("r1".to_string()));
    assert_eq!(command_handler("list_receivers", &roles), Some("[]".to_string()));
}

#[test]
fn command_results() {
    let mut roles = RoleContainer::new();
    roles.add(controller("foo"));
    roles.add(Role::Receiver("bar".to_string()));
    roles.add(controller("baz"));
    assert_eq!(
        command_handler("list", &roles),
        Some(r#"["controller:foo","receiver:bar","controller:baz"]"#.to_string())
    );
    assert_eq!(command_handler("list_controllers", &roles), Some(r#"["foo","baz"]"#.to_string()));
    assert_eq!(command_handler("list_receivers", &roles), Some(r#"["bar"]"#.to_string()));
    assert_eq!(command_handler("LIST", &roles), None);
    assert_eq!(command_handler("list ", &roles), None);
    assert_eq!(command_handler("", &roles), None);
}

#[test]
fn command_reply_packet() {
    let mut roles = RoleContainer::new();
    roles.add(controller("c1"));
    let req = packet(&["server"], "list_controllers", "q1");
    let reply = command_packet_handler(&req, &controller("c1"), &roles).unwrap();
    assert_eq!(reply.id, "q1");
    assert_eq!(reply.receivers, vec!["c1".to_string()]);
    assert_eq!(reply.body, r#"{"from":"server","to":"c1","body":"[\"c1\"]"}"#);
    let unknown = packet(&["server"], "shutdown", "q2");
    assert!(command_packet_handler(&unknown, &controller("c1"), &roles).is_none());
}

#[test]
fn controller_list_controllers_scenario() {
    let mut roles = RoleContainer::new();
    let mut c1 = Connection::new();
    c1.identify(Some("controller:c1"), &mut roles);
    let mut c2 = Connection::new();
    c2.identify(Some("controller:c2"), &mut roles);
    let mut r1 = Connection::new();
    r1.identify(Some("receiver:r1"), &mut roles);
    let text = r#"{"receivers":["server"],"body":"list_controllers","id":"q1"}"#;
    let action = controller_step(&controller("c1"), Some(text), &roles);
    let reply = match action {
        ControllerAction::Reply(p) => p,
        _ => panic!("expected a reply"),
    };
    assert_eq!(reply.id, "q1");
    let wire = Packet::from_json(&reply.to_frame()).unwrap();
    assert_eq!(wire.id, "q1");
    let message: serde_json::Value = serde_json::from_str(&wire.body).unwrap();
    assert_eq!(message["from"], "server");
    assert_eq!(message["to"], "c1");
    let names: Vec<String> = serde_json::from_str(message["body"].as_str().unwrap()).unwrap();
    assert_eq!(names, vec!["c1".to_string(), "c2".to_string()]);
}

#[test]
fn controller_routes_to_waiting_receiver() {
    let mut roles = RoleContainer::new();
    let mut pipe = MessagePipe::new();
    let mut rconn = Connection::new();
    let name = match rconn.identify(Some("receiver:r1"), &mut roles) {
        Dispatch::Receiver(n) => n,
        _ => panic!("expected a receiver"),
    };
    let mut waiting = pipe.subscribe();
    let text = r#"{"receivers":["r1"],"body":"hello","id":"x"}"#;
    match controller_step(&controller("c1"), Some(text), &roles) {
        ControllerAction::Route(messages) => {
            assert_eq!(messages.len(), 1);
            for m in messages {
                pipe.send(m);
            }
        }
        _ => panic!("expected routing"),
    }
    let got = pipe.get(&mut waiting, &name).unwrap();
    assert_eq!(got.body().as_bytes(), b"hello");
    assert_eq!(got.from(), "c1");
}

#[test]
fn controller_fans_out_in_order() {
    let roles = RoleContainer::new();
    let text = r#"{"receivers":["r1","r2","r1"],"body":"b","id":"x"}"#;
    match controller_step(&controller("c1"), Some(text), &roles) {
        ControllerAction::Route(messages) => {
            let to: Vec<&str> = messages.iter().map(|m| m.to().as_str()).collect();
            assert_eq!(to, vec!["r1", "r2", "r1"]);
            assert!(messages.iter().all(|m| m.body() == "b" && m.from() == "c1"));
        }
        _ => panic!("expected routing"),
    }
    let none = r#"{"receivers":[],"body":"b","id":"x"}"#;
    assert!(matches!(
        controller_step(&controller("c1"), Some(none), &roles),
        ControllerAction::Route(ref v) if v.is_empty()
    ));
}

#[test]
fn controller_unknown_command_is_ignored() {
    let roles = RoleContainer::new();
    let text = r#"{"receivers":["server"],"body":"reboot","id":"x"}"#;
    assert!(matches!(
        controller_step(&controller("c1"), Some(text), &roles),
        ControllerAction::Ignore
    ));
}

#[test]
fn controller_malformed_packet_fails() {
    let roles = RoleContainer::new();
    match controller_step(&controller("c1"), Some("{oops"), &roles) {
        ControllerAction::Fail(p) => {
            assert_eq!(p.receivers, vec!["c1".to_string()]);
            assert_eq!(p.body, "Error reading packet: malformed packet");
            assert_eq!(p.id.len(), 36);
        }
        _ => panic!("expected failure"),
    }
    match controller_step(&controller("c1"), None, &roles) {
        ControllerAction::Fail(p) => {
            assert_eq!(p.body, "Error reading packet: connection closed");
        }
        _ => panic!("expected failure"),
    }
}

#[test]
fn heartbeat_timeout_closes_and_unregisters() {
    let mut roles = RoleContainer::new();
    let mut conn = Connection::new();
    conn.identify(Some("receiver:r2"), &mut roles);
    assert_eq!(roles.list_receivers(), vec!["r2".to_string()]);
    let verdict = heartbeat_verdict(&HeartbeatReply::TimedOut);
    assert_eq!(verdict, HeartbeatVerdict::Fail(HeartbeatError::Timeout));
    conn.close(&mut roles);
    assert!(roles.list_receivers().is_empty());
    assert!(!roles.contains(&Role::Receiver("r2".to_string())));
}

#[test]
fn heartbeat_verdicts() {
    assert_eq!(heartbeat_probe(), b"HEARTBEAT".to_vec());
    assert_eq!(
        heartbeat_verdict(&HeartbeatReply::Data(b"HEARTBEAT_ACK".to_vec())),
        HeartbeatVerdict::Continue
    );
    assert_eq!(heartbeat_verdict(&HeartbeatReply::Closed), HeartbeatVerdict::Stop);
    for bad in [&b"HEARTBEAT_AC"[..], b"HEARTBEAT_ACK\n", b"heartbeat_ack", b""] {
        assert_eq!(
            heartbeat_verdict(&HeartbeatReply::Data(bad.to_vec())),
            HeartbeatVerdict::Fail(HeartbeatError::Mismatch)
        );
    }
    assert_eq!(
        heartbeat_verdict(&HeartbeatReply::Failed),
        HeartbeatVerdict::Fail(HeartbeatError::ReadFailed)
    );
}

#[test]
fn config_ttl() {
    let c = TcpServerConfig { addr: "127.0.0.1:9000".to_string(), whitelist: vec![], ttl: 0 };
    assert!(!c.sets_ttl());
    let d = TcpServerConfig { addr: c.addr.clone(), whitelist: vec!["x".to_string()], ttl: 64 };
    assert!(d.sets_ttl());
}
