use relay::registry::RoleContainer;
use relay::role::{Role, RoleError};
use relay::session::{Connection, Dispatch};

fn controller(name: &str) -> Role {
    Role::Controller(name.to_string())
}

fn receiver(name: &str) -> Role {
    Role::Receiver(name.to_string())
}

#[test]
fn handshake_controller_prefix() {
    let r = Role::from_handshake("controller:c1");
    assert!(matches!(r, Role::Controller(ref n) if n == "c1"));
    let r = Role::from_handshake("controller:");
    assert!(matches!(r, Role::Controller(ref n) if n.is_empty()));
    let r = Role::from_handshake("controller:receiver:x");
    assert!(matches!(r, Role::Controller(ref n) if n == "receiver:x"));
}

#[test]
fn handshake_receiver_prefix() {
    let r = Role::from_handshake("receiver:r1");
    assert!(matches!(r, Role::Receiver(ref n) if n == "r1"));
    let r = Role::from_handshake("receiver:名前 ");
    assert!(matches!(r, Role::Receiver(ref n) if n == "名前 "));
}

#[test]
fn handshake_other_text_is_unknown() {
    for text in ["", "controller", "Controller:c1", " receiver:r1", "hello", "receiver"] {
        assert!(matches!(Role::from_handshake(text), Role::Unknown), "{}", text);
    }
}

#[test]
fn role_names() {
    assert_eq!(controller("c1").name(), Ok("c1".to_string()));
    assert_eq!(receiver("r1").name(), Ok("r1".to_string()));
    assert_eq!(Role::Unknown.name(), Err(RoleError::UnknownRole));
    assert_eq!(controller("c1").name_or_unknown(), "c1");
    assert_eq!(Role::Unknown.name_or_unknown(), "unknown_role");
}

#[test]
fn role_text_forms() {
    assert_eq!(controller("foo").to_string(), "controller:foo");
    assert_eq!(receiver("bar").to_string(), "receiver:bar");
    assert_eq!(Role::Unknown.to_string(), "unknown");
}

#[test]
fn role_equality_by_kind_and_name() {
    assert!(controller("a").same_as(&controller("a")));
    assert!(!controller("a").same_as(&receiver("a")));
    assert!(!controller("a").same_as(&controller("b")));
    assert!(!Role::Unknown.same_as(&Role::Unknown));
}

#[test]
fn registry_add_twice_is_refused() {
    let mut roles = RoleContainer::new();
    assert!(roles.add(controller("c1")));
    assert_eq!(roles.len(), 1);
    assert!(!roles.add(controller("c1")));
    assert_eq!(roles.len(), 1);
    assert!(roles.add(receiver("c1")));
    assert_eq!(roles.len(), 2);
}

#[test]
fn registry_remove_of_absent_role() {
    let mut roles = RoleContainer::new();
    assert!(!roles.remove(&controller("c1")));
    roles.add(receiver("r1"));
    assert!(!roles.remove(&controller("r1")));
    assert!(!roles.remove(&Role::Unknown));
    assert!(roles.remove(&receiver("r1")));
    assert_eq!(roles.len(), 0);
    assert!(!roles.remove(&receiver("r1")));
}

#[test]
fn registry_never_holds_unknown() {
    let mut roles = RoleContainer::new();
    assert!(!roles.add(Role::Unknown));
    assert_eq!(roles.len(), 0);
    assert!(!roles.contains(&Role::Unknown));
}

#[test]
fn registry_lists_in_order() {
    let mut roles = RoleContainer::new();
    roles.add(receiver("r2"));
    roles.add(controller("c1"));
    roles.add(receiver("r1"));
    roles.add(controller("c0"));
    let texts: Vec<String> = roles.list().iter().map(|r| r.to_string()).collect();
    assert_eq!(texts, vec!["receiver:r2", "controller:c1", "receiver:r1", "controller:c0"]);
    assert_eq!(roles.list_controllers(), vec!["c1".to_string(), "c0".to_string()]);
    assert_eq!(roles.list_receivers(), vec!["r2".to_string(), "r1".to_string()]);
    roles.remove(&controller("c1"));
    assert_eq!(roles.list_controllers(), vec!["c0".to_string()]);
}

#[test]
fn registry_empty_lists() {
    let roles = RoleContainer::new();
    assert!(roles.list().is_empty());
    assert!(roles.list_controllers().is_empty());
    assert!(roles.list_receivers().is_empty());
}

#[test]
fn connection_registers_and_unregisters() {
    let mut roles = RoleContainer::new();
    let mut conn = Connection::new();
    let d = conn.identify(Some("receiver:r1"), &mut roles);
    assert!(matches!(d, Dispatch::Receiver(ref n) if n == "r1"));
    assert!(conn.role().is_some());
    assert!(roles.contains(&receiver("r1")));
    conn.close(&mut roles);
    assert!(conn.role().is_none());
    assert!(!roles.contains(&receiver("r1")));
    assert_eq!(roles.len(), 0);
}

#[test]
fn connection_rejects_unknown_handshake() {
    let mut roles = RoleContainer::new();
    let mut conn = Connection::new();
    let d = conn.identify(Some("observer:o1"), &mut roles);
    assert!(matches!(d, Dispatch::Rejected));
    assert_eq!(roles.len(), 0);
    conn.close(&mut roles);
    assert_eq!(roles.len(), 0);
}

#[test]
fn connection_rejects_failed_first_read() {
    let mut roles = RoleContainer::new();
    roles.add(controller("c1"));
    let mut conn = Connection::new();
    assert!(matches!(conn.identify(None, &mut roles), Dispatch::Rejected));
    conn.close(&mut roles);
    assert_eq!(roles.len(), 1);
}

#[test]
fn connection_controller_dispatch() {
    let mut roles = RoleContainer::new();
    let mut conn = Connection::new();
    let d = conn.identify(Some("controller:c1"), &mut roles);
    assert!(matches!(d, Dispatch::Controller(ref n) if n == "c1"));
    assert_eq!(roles.list_controllers(), vec!["c1".to_string()]);
}
