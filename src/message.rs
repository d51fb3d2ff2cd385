use vstd::prelude::*;

use crate::json::{quoted, write_quoted};
use crate::text::push_char;

verus! {

/// The routing unit: one sender, one addressee (a receiver's name, or
/// `all` for every receiver) and an opaque body.
#[derive(Debug, Clone)]
pub struct Message {
    from: String,
    to: String,
    body: String,
}

/// The mathematical value of a `Message`.
pub struct MessageSpec {
    pub from: Seq<char>,
    pub to: Seq<char>,
    pub body: Seq<char>,
}

impl View for Message {
    type V = MessageSpec;

    closed spec fn view(&self) -> MessageSpec {
        MessageSpec { from: self.from@, to: self.to@, body: self.body@ }
    }
}

/// The addressee that matches every receiver.
pub open spec fn broadcast_marker() -> Seq<char> {
    "all"@
}

/// The placeholder that the router's empty slot carries in every field.
pub open spec fn none_text() -> Seq<char> {
    "none"@
}

/// Whether a message is for the receiver called `name`.
pub open spec fn addressed_to(m: MessageSpec, name: Seq<char>) -> bool {
    m.to == name || m.to == broadcast_marker()
}

/// `key: value` with both as JSON strings.
pub open spec fn string_member(key: Seq<char>, value: Seq<char>) -> Seq<char> {
    quoted(key) + seq![':'] + quoted(value)
}

/// A message as a JSON object with the members `from`, `to` and `body`, in
/// that order.
pub open spec fn message_text(m: MessageSpec) -> Seq<char> {
    seq!['{'] + string_member("from"@, m.from) + seq![','] + string_member("to"@, m.to) + seq![',']
        + string_member("body"@, m.body) + seq!['}']
}

/// Appends `key: value` with both as JSON strings.
pub fn write_string_member(out: &mut String, key: &str, value: &str)
    ensures
        final(out)@ == old(out)@ + string_member(key@, value@),
{
    write_quoted(out, key);
    push_char(out, ':');
    write_quoted(out, value);
    assert(out@ =~= old(out)@ + string_member(key@, value@));
}

impl Message {
    pub fn new(from: String, to: String, body: String) -> (r: Message)
        ensures
            r@ == (MessageSpec { from: from@, to: to@, body: body@ }),
    {
        Message { from, to, body }
    }

    pub fn from(&self) -> (r: &String)
        ensures
            r@ == self@.from,
    {
        &self.from
    }

    pub fn to(&self) -> (r: &String)
        ensures
            r@ == self@.to,
    {
        &self.to
    }

    pub fn body(&self) -> (r: &String)
        ensures
            r@ == self@.body,
    {
        &self.body
    }

    /// The value the router holds before anything was sent: `none` in every
    /// field, addressed to no real receiver.
    pub fn empty() -> (r: Message)
        ensures
            r@ == (MessageSpec { from: none_text(), to: none_text(), body: none_text() }),
    {
        Message::new(String::from_str("none"), String::from_str("none"), String::from_str("none"))
    }

    /// A copy of the message.
    pub fn copied(&self) -> (r: Message)
        ensures
            r@ == self@,
    {
        Message { from: self.from.clone(), to: self.to.clone(), body: self.body.clone() }
    }

    /// Whether the message is for the receiver called `name`: addressed to it
    /// by name or to `all`.
    pub fn is_for(&self, name: &str) -> (r: bool)
        ensures
            r == addressed_to(self@, name@),
    {
        let all = String::from_str("all");
        let n = String::from_str(name);
        self.to == n || self.to == all
    }

    /// The message as JSON text: `{"from":...,"to":...,"body":...}`.
    pub fn to_json(&self) -> (r: String)
        ensures
            r@ == message_text(self@),
    {
        let mut out = String::new();
        push_char(&mut out, '{');
        write_string_member(&mut out, "from", self.from.as_str());
        push_char(&mut out, ',');
        write_string_member(&mut out, "to", self.to.as_str());
        push_char(&mut out, ',');
        write_string_member(&mut out, "body", self.body.as_str());
        push_char(&mut out, '}');
        assert(out@ =~= message_text(self@));
        out
    }

    /// The message as a log line: `[<from> -> <to>]: <body>`.
    pub fn to_string(&self) -> (r: String)
        ensures
            r@ == seq!['['] + self@.from + " -> "@ + self@.to + "]: "@ + self@.body,
    {
        let mut out = String::new();
        push_char(&mut out, '[');
        out.append(self.from.as_str());
        out.append(" -> ");
        out.append(self.to.as_str());
        out.append("]: ");
        out.append(self.body.as_str());
        assert(out@ =~= seq!['['] + self@.from + " -> "@ + self@.to + "]: "@ + self@.body);
        out
    }
}

} // verus!
