use relay::message::Message;
use relay::pipe::MessagePipe;

fn msg(from: &str, to: &str, body: &str) -> Message {
    Message::new(from.to_string(), to.to_string(), body.to_string())
}

#[test]
fn router_starts_with_empty_message() {
    let pipe = MessagePipe::new();
    assert_eq!(pipe.version(), 0);
    assert_eq!(pipe.current().to_json(), r#"{"from":"none","to":"none","body":"none"}"#);
    let mut sub = pipe.subscribe();
    assert!(pipe.get(&mut sub, "none").is_none());
}

#[test]
fn router_latest_wins() {
    let mut pipe = MessagePipe::new();
    let mut sub = pipe.subscribe();
    pipe.send(msg("c1", "r1", "first"));
    pipe.send(msg("c1", "r1", "second"));
    let got = pipe.get(&mut sub, "r1").unwrap();
    assert_eq!(got.body(), "second");
    assert!(pipe.get(&mut sub, "r1").is_none());
}

#[test]
fn router_latest_wins_across_targets() {
    let mut pipe = MessagePipe::new();
    let mut a = pipe.subscribe();
    let mut b = pipe.subscribe();
    pipe.send(msg("c1", "r1", "for r1"));
    pipe.send(msg("c1", "r2", "for r2"));
    assert!(pipe.get(&mut a, "r1").is_none());
    assert_eq!(pipe.get(&mut b, "r2").unwrap().body(), "for r2");
}

#[test]
fn router_filters_by_addressee() {
    let mut pipe = MessagePipe::new();
    let mut sub = pipe.subscribe();
    pipe.send(msg("c1", "r2", "not yours"));
    assert!(pipe.get(&mut sub, "r1").is_none());
    pipe.send(msg("c1", "r1", "yours"));
    let got = pipe.get(&mut sub, "r1").unwrap();
    assert_eq!(got.to(), "r1");
    assert_eq!(got.from(), "c1");
}

#[test]
fn router_broadcast_marker_matches_everyone() {
    let mut pipe = MessagePipe::new();
    let mut a = pipe.subscribe();
    let mut b = pipe.subscribe();
    pipe.send(msg("c1", "all", "everyone"));
    assert_eq!(pipe.get(&mut a, "r1").unwrap().body(), "everyone");
    assert_eq!(pipe.get(&mut b, "r2").unwrap().body(), "everyone");
}

#[test]
fn router_subscription_sees_only_later_sends() {
    let mut pipe = MessagePipe::new();
    pipe.send(msg("c1", "r1", "before"));
    let mut sub = pipe.subscribe();
    assert!(pipe.get(&mut sub, "r1").is_none());
    pipe.send(msg("c1", "r1", "after"));
    assert_eq!(pipe.get(&mut sub, "r1").unwrap().body(), "after");
    assert_eq!(pipe.version(), 2);
}

#[test]
fn message_text_forms() {
    let m = msg("a", "b", "say \"hi\"\n");
    assert_eq!(m.to_json(), "{\"from\":\"a\",\"to\":\"b\",\"body\":\"say \\\"hi\\\"\\n\"}");
    assert_eq!(m.to_string(), "[a -> b]: say \"hi\"\n");
    assert!(m.is_for("b"));
    assert!(!m.is_for("a"));
    assert!(msg("a", "all", "x").is_for("anyone"));
}

#[test]
fn message_empty_is_none() {
    let m = Message::empty();
    assert_eq!(m.from(), "none");
    assert_eq!(m.to(), "none");
    assert_eq!(m.body(), "none");
}

#[test]
fn router_never_hands_out_the_placeholder() {
    let pipe = MessagePipe::new();
    let mut sub = pipe.subscribe();
    assert!(pipe.get(&mut sub, "none").is_none());
    assert!(pipe.get(&mut sub, "all").is_none());
    let mut pipe = MessagePipe::new();
    let mut early = pipe.subscribe();
    pipe.send(msg("c1", "none", "real"));
    assert_eq!(pipe.get(&mut early, "none").unwrap().body(), "real");
    assert!(pipe.get(&mut early, "none").is_none());
}
