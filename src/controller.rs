//! What a controller connection does with each read: answer a directory
//! command, route a packet to its receivers, or give up on a bad read.
use vstd::prelude::*;

use crate::command::{command_packet_handler, command_reply, command_result};
use crate::message::{Message, MessageSpec};
use crate::packet::{is_packet_text, packet_object, packet_text_in_any_order, Packet, PacketSpec};
use crate::registry::RoleContainer;
use crate::role::{role_name_or_unknown, Role, RoleSpec};

verus! {

/// The next thing a controller connection does.
pub enum ControllerAction {
    /// Send each message through the router, and read on.
    Route(Vec<Message>),
    /// Write this reply to the controller, and read on.
    Reply(Packet),
    /// An unknown command: nothing to do; read on.
    Ignore,
    /// The read gave no packet: write this error packet (best effort) and
    /// close the connection.
    Fail(Packet),
}

/// The message routed to `to` for a packet from the controller `from`.
pub open spec fn routed(from: Seq<char>, to: Seq<char>, body: Seq<char>) -> MessageSpec {
    MessageSpec { from, to, body }
}

/// The body of the error packet for a read that failed with `reason`.
pub open spec fn read_error_text(reason: Seq<char>) -> Seq<char> {
    "Error reading packet: "@ + reason
}

/// Whether `p` is a directory command: addressed to `server` alone.
pub open spec fn is_command(p: PacketSpec) -> bool {
    p.receivers.len() == 1 && p.receivers[0] == "server"@
}

/// The messages that route `packet` from the controller `name`: one per
/// entry of `receivers`, in order.
pub fn route_packet(name: &String, packet: &Packet) -> (r: Vec<Message>)
    ensures
        r@.len() == packet@.receivers.len(),
        forall|i: int|
            0 <= i < r@.len() ==> #[trigger] r@[i]@ == routed(
                name@,
                packet@.receivers[i],
                packet@.body,
            ),
{
    let mut out: Vec<Message> = Vec::new();
    let mut i: usize = 0;
    while i < packet.receivers.len()
        invariant
            i <= packet.receivers@.len(),
            out@.len() == i,
            forall|j: int|
                0 <= j < i ==> #[trigger] out@[j]@ == routed(
                    name@,
                    packet@.receivers[j],
                    packet@.body,
                ),
        decreases packet.receivers@.len() - i,
    {
        out.push(Message::new(name.clone(), packet.receivers[i].clone(), packet.body.clone()));
        i = i + 1;
    }
    out
}

/// What the controller `role` does with the packet `p` while the registry
/// holds `roles`: a command is answered (or ignored when unknown), anything
/// else is routed to each of its receivers.
pub open spec fn packet_action(
    role: RoleSpec,
    p: PacketSpec,
    roles: Seq<RoleSpec>,
    a: ControllerAction,
) -> bool {
    if is_command(p) {
        match command_result(p.body, roles) {
            Some(result) => a matches ControllerAction::Reply(q) && q@ == command_reply(
                role,
                result,
                p.id,
            ),
            None => a is Ignore,
        }
    } else {
        a matches ControllerAction::Route(v) && v@.len() == p.receivers.len() && forall|i: int|
            0 <= i < v@.len() ==> #[trigger] v@[i]@ == routed(
                role_name_or_unknown(role),
                p.receivers[i],
                p.body,
            )
    }
}

/// Decides what the controller `role` does with a packet it sent.
pub fn controller_packet_step(role: &Role, packet: &Packet, others: &RoleContainer) -> (r:
    ControllerAction)
    ensures
        packet_action(role@, packet@, others@, r),
{
    if packet.is_command() {
        match command_packet_handler(packet, role, others) {
            Some(reply) => ControllerAction::Reply(reply),
            None => ControllerAction::Ignore,
        }
    } else {
        let name = role.name_or_unknown();
        ControllerAction::Route(route_packet(&name, packet))
    }
}

/// Decides what the controller `role` does with one read: `read` is the
/// text that was read, or `None` where the read failed or found the
/// connection closed. A read that is not a packet fails the connection with
/// an error packet to the controller.
pub fn controller_step(role: &Role, read: Option<&str>, others: &RoleContainer) -> (r:
    ControllerAction)
    ensures
        read is None ==> (r matches ControllerAction::Fail(p) && p@.body == read_error_text(
            "connection closed"@,
        )),
        read matches Some(text) ==> forall|p: PacketSpec| #[trigger]
            is_packet_text(text@, p) ==> packet_action(role@, p, others@, r),
        read matches Some(text) ==> forall|p: PacketSpec| #[trigger]
            packet_text_in_any_order(text@, p) ==> packet_action(role@, p, others@, r),
        read is Some ==> (r matches ControllerAction::Fail(p) ==> p@.body == read_error_text(
            "malformed packet"@,
        )),
        read matches Some(text) ==> (!(r is Fail) ==> exists|q: PacketSpec|
            packet_object(text@, q) && packet_action(role@, q, others@, r)),
        r matches ControllerAction::Fail(p) ==> p@.receivers == seq![role_name_or_unknown(role@)]
            && p@.id.len() == 36,
{
    let text = match read {
        Some(t) => t,
        None => {
            let mut body = String::from_str("Error reading packet: ");
            body.append("connection closed");
            return ControllerAction::Fail(role.new_packet(body));
        },
    };
    match Packet::from_json(text) {
        Ok(packet) => controller_packet_step(role, &packet, others),
        Err(_) => {
            let mut body = String::from_str("Error reading packet: ");
            body.append("malformed packet");
            ControllerAction::Fail(role.new_packet(body))
        },
    }
}

} // verus!
