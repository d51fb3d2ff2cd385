//! Directory queries: a controller's packet addressed to `server` alone is a
//! command, answered from the role registry.
use vstd::prelude::*;

use crate::json::{string_array, string_views, write_string_array};
use crate::message::{message_text, Message, MessageSpec};
use crate::packet::{Packet, PacketSpec};
use crate::registry::{controller_names, receiver_names, roles_view, RoleContainer};
use crate::role::{packet_for, role_name_or_unknown, role_text, Role, RoleSpec};

verus! {

/// The text forms of `roles`, in order.
pub open spec fn role_texts(roles: Seq<RoleSpec>) -> Seq<Seq<char>> {
    roles.map_values(|r: RoleSpec| role_text(r))
}

/// The answer to a command over the registry `roles`: a JSON array of the
/// roles (`list`), of the controllers' names (`list_controllers`) or of the
/// receivers' names (`list_receivers`); no answer to anything else.
pub open spec fn command_result(command: Seq<char>, roles: Seq<RoleSpec>) -> Option<Seq<char>> {
    if command == "list"@ {
        Some(string_array(role_texts(roles)))
    } else if command == "list_controllers"@ {
        Some(string_array(controller_names(roles)))
    } else if command == "list_receivers"@ {
        Some(string_array(receiver_names(roles)))
    } else {
        None
    }
}

/// The reply to a command from the controller `role`: a message from
/// `server` to it carrying `result`, in a packet to it with the request's id.
pub open spec fn command_reply(role: RoleSpec, result: Seq<char>, id: Seq<char>) -> PacketSpec {
    packet_for(
        role,
        message_text(
            MessageSpec { from: "server"@, to: role_name_or_unknown(role), body: result },
        ),
        id,
    )
}

/// Runs a directory command against `others`; `None` for an unknown command.
pub fn command_handler(command: &str, others: &RoleContainer) -> (r: Option<String>)
    ensures
        r matches Some(s) ==> command_result(command@, others@) == Some(s@),
        r is None ==> command_result(command@, others@) is None,
{
    let c = String::from_str(command);
    let names: Vec<String>;
    if c == String::from_str("list") {
        let roles = others.list();
        let mut texts: Vec<String> = Vec::new();
        let mut i: usize = 0;
        while i < roles.len()
            invariant
                i <= roles@.len(),
                roles_view(roles@) == others@,
                texts@.len() == i,
                forall|j: int| 0 <= j < i ==> #[trigger] texts@[j]@ == role_text(others@[j]),
            decreases roles@.len() - i,
        {
            texts.push(roles[i].to_string());
            i = i + 1;
        }
        assert(string_views(texts@) =~= role_texts(others@));
        names = texts;
    } else if c == String::from_str("list_controllers") {
        names = others.list_controllers();
    } else if c == String::from_str("list_receivers") {
        names = others.list_receivers();
    } else {
        return None;
    }
    let mut out = String::new();
    write_string_array(&mut out, &names);
    assert(out@ =~= string_array(string_views(names@)));
    Some(out)
}

/// Answers the command packet `packet` from the controller `role`: the reply
/// packet, or `None` for an unknown command.
pub fn command_packet_handler(packet: &Packet, role: &Role, others: &RoleContainer) -> (r: Option<
    Packet,
>)
    ensures
        match command_result(packet@.body, others@) {
            Some(result) => r matches Some(q) && q@ == command_reply(role@, result, packet@.id),
            None => r is None,
        },
{
    match command_handler(packet.body.as_str(), others) {
        Some(resp) => {
            let message = Message::new(String::from_str("server"), role.name_or_unknown(), resp);
            let reply = role.new_packet_with_id(message.to_json(), packet.id.clone());
            Some(reply)
        },
        None => None,
    }
}

} // verus!
