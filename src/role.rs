use vstd::prelude::*;

use crate::packet::{Packet, PacketSpec};
use crate::text::{is_prefix, starts_with_chars, suffix_from};

verus! {

/// A connected peer's role, resolved once from its handshake.
#[derive(Debug, Clone)]
pub enum Role {
    Controller(String),
    Receiver(String),
    Unknown,
}

/// The mathematical value of a `Role`.
pub enum RoleSpec {
    Controller(Seq<char>),
    Receiver(Seq<char>),
    Unknown,
}

impl View for Role {
    type V = RoleSpec;

    open spec fn view(&self) -> RoleSpec {
        match self {
            Role::Controller(n) => RoleSpec::Controller(n@),
            Role::Receiver(n) => RoleSpec::Receiver(n@),
            Role::Unknown => RoleSpec::Unknown,
        }
    }
}

/// The error of asking an unidentified peer for its name.
#[derive(Debug, Clone, Copy, PartialEq, Eq)]
pub enum RoleError {
    UnknownRole,
}

/// Role equality: by kind and name; `Unknown` equals nothing, itself included.
pub open spec fn same_role(a: RoleSpec, b: RoleSpec) -> bool {
    match (a, b) {
        (RoleSpec::Controller(x), RoleSpec::Controller(y)) => x == y,
        (RoleSpec::Receiver(x), RoleSpec::Receiver(y)) => x == y,
        _ => false,
    }
}

/// The name of a role, or `None` for `Unknown`.
pub open spec fn role_name(r: RoleSpec) -> Option<Seq<char>> {
    match r {
        RoleSpec::Controller(n) => Some(n),
        RoleSpec::Receiver(n) => Some(n),
        RoleSpec::Unknown => None,
    }
}

/// The placeholder name given to a role without one.
pub open spec fn unknown_role_name() -> Seq<char> {
    "unknown_role"@
}

/// The name of a role, with the placeholder for `Unknown`.
pub open spec fn role_name_or_unknown(r: RoleSpec) -> Seq<char> {
    match role_name(r) {
        Some(n) => n,
        None => unknown_role_name(),
    }
}

pub open spec fn controller_tag() -> Seq<char> {
    "controller:"@
}

pub open spec fn receiver_tag() -> Seq<char> {
    "receiver:"@
}

pub open spec fn unknown_text() -> Seq<char> {
    "unknown"@
}

/// The text form of a role: `controller:<name>`, `receiver:<name>` or `unknown`.
pub open spec fn role_text(r: RoleSpec) -> Seq<char> {
    match r {
        RoleSpec::Controller(n) => controller_tag() + n,
        RoleSpec::Receiver(n) => receiver_tag() + n,
        RoleSpec::Unknown => unknown_text(),
    }
}

/// The role that a handshake announces.
pub open spec fn handshake_role(msg: Seq<char>) -> RoleSpec {
    if is_prefix(controller_tag(), msg) {
        RoleSpec::Controller(msg.skip(controller_tag().len() as int))
    } else if is_prefix(receiver_tag(), msg) {
        RoleSpec::Receiver(msg.skip(receiver_tag().len() as int))
    } else {
        RoleSpec::Unknown
    }
}

impl Role {
    /// Resolves the role that a peer announces in its first message:
    /// `controller:<name>`, `receiver:<name>`, or anything else for `Unknown`.
    pub fn from_handshake(msg: &str) -> (r: Role)
        ensures
            r@ == handshake_role(msg@),
    {
        proof {
            reveal_strlit("controller:");
            reveal_strlit("receiver:");
        }
        if starts_with_chars(msg, "controller:") {
            Role::Controller(suffix_from(msg, 11))
        } else if starts_with_chars(msg, "receiver:") {
            Role::Receiver(suffix_from(msg, 9))
        } else {
            Role::Unknown
        }
    }

    /// The role's name; `Unknown` has none.
    pub fn name(&self) -> (r: Result<String, RoleError>)
        ensures
            match role_name(self@) {
                Some(n) => r matches Ok(s) && s@ == n,
                None => r == Err::<String, RoleError>(RoleError::UnknownRole),
            },
    {
        match self {
            Role::Controller(name) => Ok(name.clone()),
            Role::Receiver(name) => Ok(name.clone()),
            Role::Unknown => Err(RoleError::UnknownRole),
        }
    }

    /// The role's name, or `unknown_role` for `Unknown`.
    pub fn name_or_unknown(&self) -> (r: String)
        ensures
            r@ == role_name_or_unknown(self@),
    {
        match self.name() {
            Ok(n) => n,
            Err(_) => {
                proof {
                    reveal_strlit("unknown_role");
                }
                String::from_str("unknown_role")
            },
        }
    }

    /// The role as text: `controller:<name>`, `receiver:<name>` or `unknown`.
    pub fn to_string(&self) -> (r: String)
        ensures
            r@ == role_text(self@),
    {
        match self {
            Role::Controller(name) => {
                let mut s = String::from_str("controller:");
                s.append(name.as_str());
                s
            },
            Role::Receiver(name) => {
                let mut s = String::from_str("receiver:");
                s.append(name.as_str());
                s
            },
            Role::Unknown => String::from_str("unknown"),
        }
    }

    /// Role equality: same kind and same name; `Unknown` equals nothing.
    pub fn same_as(&self, other: &Role) -> (r: bool)
        ensures
            r == same_role(self@, other@),
    {
        match self {
            Role::Controller(a) => match other {
                Role::Controller(b) => a.eq(b),
                _ => false,
            },
            Role::Receiver(a) => match other {
                Role::Receiver(b) => a.eq(b),
                _ => false,
            },
            Role::Unknown => false,
        }
    }

    /// A copy of the role.
    pub fn copied(&self) -> (r: Role)
        ensures
            r@ == self@,
    {
        match self {
            Role::Controller(name) => Role::Controller(name.clone()),
            Role::Receiver(name) => Role::Receiver(name.clone()),
            Role::Unknown => Role::Unknown,
        }
    }
}

/// The packet addressed to a role: to its name alone, or to `unknown_role`.
pub open spec fn packet_for(r: RoleSpec, body: Seq<char>, id: Seq<char>) -> PacketSpec {
    PacketSpec { receivers: seq![role_name_or_unknown(r)], body, id }
}

impl Role {
    /// A packet to this role with a freshly generated id.
    pub fn new_packet(&self, body: String) -> (r: Packet)
        ensures
            r@.receivers == seq![role_name_or_unknown(self@)],
            r@.body == body@,
            r@.id.len() == 36,
    {
        let r = Packet::new(vec![self.name_or_unknown()], body);
        assert(r@.receivers =~= seq![role_name_or_unknown(self@)]);
        r
    }

    /// A packet to this role with the given id.
    pub fn new_packet_with_id(&self, body: String, id: String) -> (r: Packet)
        ensures
            r@ == packet_for(self@, body@, id@),
    {
        let r = Packet::new_with_id(vec![self.name_or_unknown()], body, id);
        assert(r@.receivers =~= seq![role_name_or_unknown(self@)]);
        r
    }
}

/// Building packets addressed to a peer.
pub trait RoleExt {
    fn new_packet(&self, body: String) -> Packet;

    fn new_packet_with_id(&self, body: String, id: String) -> Packet;
}

impl RoleExt for Role {
    fn new_packet(&self, body: String) -> Packet {
        Role::new_packet(self, body)
    }

    fn new_packet_with_id(&self, body: String, id: String) -> Packet {
        Role::new_packet_with_id(self, body, id)
    }
}

/// The handshake resolves `controller:<s>` and `receiver:<s>` to the role of
/// that kind named `s`, and any text with neither prefix to `Unknown`.
pub proof fn lemma_handshake(s: Seq<char>)
    ensures
        handshake_role(controller_tag() + s) == RoleSpec::Controller(s),
        handshake_role(receiver_tag() + s) == RoleSpec::Receiver(s),
        !is_prefix(controller_tag(), s) && !is_prefix(receiver_tag(), s) ==> handshake_role(s)
            is Unknown,
{
    reveal_strlit("controller:");
    reveal_strlit("receiver:");
    let c = controller_tag() + s;
    let r = receiver_tag() + s;
    assert(c.subrange(0, 11) =~= controller_tag());
    assert(c.skip(11) =~= s);
    assert(r.subrange(0, 9) =~= receiver_tag());
    assert(r.skip(9) =~= s);
    if is_prefix(controller_tag(), r) {
        assert(r[0] == controller_tag()[0]);
    }
}

} // verus!
