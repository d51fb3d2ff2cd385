use relay::packet::{Packet, PacketError};
use relay::role::Role;

fn packet(receivers: &[&str], body: &str, id: &str) -> Packet {
    Packet::new_with_id(
        receivers.iter().map(|s| s.to_string()).collect(),
        body.to_string(),
        id.to_string(),
    )
}

fn same(a: &Packet, b: &Packet) -> bool {
    a.receivers == b.receivers && a.body == b.body && a.id == b.id
}

#[test]
fn packet_canonical_text() {
    let p = packet(&["r1", "r2"], "hello", "x");
    assert_eq!(p.to_json(), r#"{"receivers":["r1","r2"],"body":"hello","id":"x"}"#);
    assert_eq!(p.to_frame(), "{\"receivers\":[\"r1\",\"r2\"],\"body\":\"hello\",\"id\":\"x\"}\n");
    let empty = packet(&[], "", "");
    assert_eq!(empty.to_json(), r#"{"receivers":[],"body":"","id":""}"#);
}

#[test]
fn packet_text_matches_serde_json() {
    let p = packet(&["a\"b", "c\\d"], "line\nnext\ttab\u{1}\u{7f}é", "i\u{8}\u{c}\r");
    let v: serde_json::Value = serde_json::from_str(&p.to_json()).unwrap();
    assert_eq!(v["receivers"][0], "a\"b");
    assert_eq!(v["receivers"][1], "c\\d");
    assert_eq!(v["body"], "line\nnext\ttab\u{1}\u{7f}é");
    assert_eq!(v["id"], "i\u{8}\u{c}\r");
    assert_eq!(serde_json::to_string(&p.body).unwrap(), "\"line\\nnext\\ttab\\u0001\u{7f}é\"");
    assert!(p.to_json().contains("\\u0001"));
}

#[test]
fn packet_round_trip() {
    let cases = vec![
        packet(&["r1"], "hello", "x"),
        packet(&[], "", ""),
        packet(&["r1", "r1", ""], "dup", "id-1"),
        packet(&["ü", "日本"], "{\"nested\": [1, 2]}", "\\\"/"),
        packet(&["ctl\u{0}\u{1f}"], "\u{8}\u{c}\n\r\t", "q"),
    ];
    for p in cases {
        let back = Packet::from_json(&p.to_json()).unwrap();
        assert!(same(&p, &back), "{:?}", p);
        let framed = Packet::from_json(&p.to_frame()).unwrap();
        assert!(same(&p, &framed), "{:?}", p);
    }
}

#[test]
fn packet_read_with_whitespace_and_other_order() {
    let text = " {\n \"id\" : \"q1\" ,\t\"body\":\"list\", \"receivers\" : [ \"server\" ] }\r\n";
    let p = Packet::from_json(text).unwrap();
    assert!(same(&p, &packet(&["server"], "list", "q1")));
}

#[test]
fn packet_read_escapes() {
    let text = r#"{"receivers":["Aé日"],"body":"a\/b\\c\"d","id":"\n"}"#;
    let p = Packet::from_json(text).unwrap();
    assert_eq!(p.receivers, vec!["Aé日".to_string()]);
    assert_eq!(p.body, "a/b\\c\"d");
    assert_eq!(p.id, "\n");
}

#[test]
fn packet_malformed_inputs() {
    let bad = [
        "",
        "   ",
        "not json",
        "[]",
        "{}",
        r#"{"receivers":["r1"],"body":"x"}"#,
        r#"{"receivers":["r1"],"id":"x"}"#,
        r#"{"body":"b","id":"x"}"#,
        r#"{"receivers":"r1","body":"b","id":"x"}"#,
        r#"{"receivers":[1],"body":"b","id":"x"}"#,
        r#"{"receivers":[],"body":3,"id":"x"}"#,
        r#"{"receivers":[],"body":"b","id":"x","id":"y"}"#,
        r#"{"receivers":[],"body":"b","id":"x"} trailing"#,
        r#"{"receivers":[],"body":"b","id":"x""#,
        r#"{"receivers":[],"body":"b","id":"x",}"#,
        r#"{"receivers":["a",],"body":"b","id":"x"}"#,
        r#"{"receivers":[],"body":"bad \q escape","id":"x"}"#,
        r#"{"receivers":[],"body":"\ud800","id":"x"}"#,
        r#"{"receivers":[],"body":"\u00g1","id":"x"}"#,
        "{\"receivers\":[],\"body\":\"raw\u{1}control\",\"id\":\"x\"}",
    ];
    for text in bad {
        assert_eq!(Packet::from_json(text).unwrap_err(), PacketError::MalformedPacket, "{}", text);
    }
}

#[test]
fn packet_fresh_ids() {
    let a = Packet::new(vec!["r1".to_string()], "b".to_string());
    let b = Packet::new(vec!["r1".to_string()], "b".to_string());
    assert_eq!(a.id.chars().count(), 36);
    assert_eq!(a.id.chars().filter(|c| *c == '-').count(), 4);
    assert_ne!(a.id, b.id);
    assert_eq!(a.receivers, vec!["r1".to_string()]);
}

#[test]
fn role_packets() {
    let r = Role::Controller("c1".to_string());
    let p = r.new_packet_with_id("body".to_string(), "id7".to_string());
    assert!(same(&p, &packet(&["c1"], "body", "id7")));
    let q = Role::Unknown.new_packet("b".to_string());
    assert_eq!(q.receivers, vec!["unknown_role".to_string()]);
    assert_eq!(q.id.len(), 36);
}

#[test]
fn command_packet_detection() {
    assert!(packet(&["server"], "list", "1").is_command());
    assert!(!packet(&["server", "server"], "list", "1").is_command());
    assert!(!packet(&["r1"], "list", "1").is_command());
    assert!(!packet(&[], "list", "1").is_command());
}

#[test]
fn packet_read_unicode_escapes() {
    let text = r#"{"receivers":["Aé"],"body":"日\u001f","id":"�"}"#;
    let p = Packet::from_json(text).unwrap();
    assert_eq!(p.receivers, vec!["Aé".to_string()]);
    assert_eq!(p.body, "日\u{1f}");
    assert_eq!(p.id, "\u{fffd}");
    assert_eq!(p.to_json(), "{\"receivers\":[\"Aé\"],\"body\":\"日\\u001f\",\"id\":\"\u{fffd}\"}");
}

#[test]
fn packet_refuses_text_that_is_not_one_object() {
    let bad = [
        r#"{"receivers":["r1"],"body":"hello","id":"x""#,
        r#"{"receivers":["r1"],"body":"hello","id":"x"}}"#,
        r#"{"receivers":["r1"],"body":"hello","id":"x"} {}"#,
        r#"x{"receivers":["r1"],"body":"hello","id":"x"}"#,
        r#"{"receivers":["r1"] "body":"hello","id":"x"}"#,
        r#"{"receivers":["r1"],"body":"hello"}"#,
    ];
    for text in bad {
        assert_eq!(Packet::from_json(text).unwrap_err(), PacketError::MalformedPacket, "{}", text);
    }
    let p = Packet::from_json(r#"{"id":"x","body":"hello","receivers":["r1"]}"#).unwrap();
    assert_eq!(p.receivers, vec!["r1".to_string()]);
    assert_eq!(p.body, "hello");
    assert_eq!(p.id, "x");
}

#[test]
fn packet_read_surrogate_pairs() {
    let text = r#"{"receivers":["\ud83d\ude00"],"body":"a\uD834\uDD1Eb","id":"x"}"#;
    let p = Packet::from_json(text).unwrap();
    assert_eq!(p.receivers, vec!["\u{1F600}".to_string()]);
    assert_eq!(p.body, "a\u{1D11E}b");
    for bad in [
        r#"{"receivers":[],"body":"\ud83d","id":"x"}"#,
        r#"{"receivers":[],"body":"\ud83dx","id":"x"}"#,
        r#"{"receivers":[],"body":"\ud83dA","id":"x"}"#,
        r#"{"receivers":[],"body":"\ude00","id":"x"}"#,
    ] {
        assert_eq!(Packet::from_json(bad).unwrap_err(), PacketError::MalformedPacket, "{}", bad);
    }
}

#[test]
fn packet_read_members_in_any_order_with_whitespace() {
    let texts = [
        r#"{"id":"x","body":"hello","receivers":["r1"]}"#,
        "\t{ \"body\" :\"hello\",\n\"receivers\": [\"r1\"] , \"id\":\"x\" }\n",
        r#"{"receivers":["r1"],"id":"x","body":"hello"}"#,
    ];
    for text in texts {
        let p = Packet::from_json(text).unwrap();
        assert_eq!(p.receivers, vec!["r1".to_string()]);
        assert_eq!(p.body, "hello");
        assert_eq!(p.id, "x");
    }
}


#[test]
fn packet_skips_members_of_other_keys() {
    let texts = [
        r#"{"receivers":[],"body":"b","id":"x","extra":"z"}"#,
        r#"{"extra":1,"receivers":[],"body":"b","id":"x"}"#,
        r#"{"receivers":[],"n":-12.5e+3,"body":"b","t":true,"f":false,"z":null,"id":"x"}"#,
        "{\"receivers\":[],\"body\":\"b\",\"o\":{\"a\":[1,{\"b\":\"\u{5d}\u{7d}\"}],\"c\":{}},\"id\":\"x\",\"l\":[]}",
        "{ \"receivers\" : [ ] ,\n \"x\" : \"\\\"\u{7d}\" , \"body\":\"b\",\"id\":\"x\" }",
    ];
    for text in texts {
        let p = Packet::from_json(text).unwrap();
        assert!(p.receivers.is_empty(), "{}", text);
        assert_eq!(p.body, "b");
        assert_eq!(p.id, "x");
    }
}

#[test]
fn packet_refuses_bad_values_of_other_keys() {
    let bad = [
        r#"{"receivers":[],"body":"b","id":"x","extra":}"#,
        r#"{"receivers":[],"body":"b","id":"x","extra":tru}"#,
        r#"{"receivers":[],"body":"b","id":"x","extra":01}"#,
        "{\"receivers\":[],\"body\":\"b\",\"id\":\"x\",\"extra\":\u{5b}1,}",
        r#"{"receivers":[],"body":"b","id":"x","extra":{"a"}}"#,
        "{\"receivers\":[],\"body\":\"b\",\"id\":\"x\",\"extra\":\u{5b}}",
        r#"{"receivers":[],"body":"b","id":"x",extra:1}"#,
        r#"{"receivers":[],"body":"b","id":"x","body":"c"}"#,
    ];
    for text in bad {
        assert_eq!(Packet::from_json(text).unwrap_err(), PacketError::MalformedPacket, "{}", text);
    }
}
