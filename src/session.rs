//! The connection lifecycle: `Connecting`, then `Active` under the role that
//! the handshake resolved, then `Closed`. The role is held in the registry
//! while the connection is active, and taken out when it closes.
use vstd::prelude::*;

use crate::registry::{after_add, can_add, has_role, RoleContainer};
use crate::role::{handshake_role, same_role, Role, RoleSpec};

verus! {

/// Where a connection stands.
pub enum ConnState {
    Connecting,
    Active(Role),
    Closed,
}

/// The mathematical value of a `ConnState`.
pub enum ConnSpec {
    Connecting,
    Active(RoleSpec),
    Closed,
}

impl View for ConnState {
    type V = ConnSpec;

    open spec fn view(&self) -> ConnSpec {
        match self {
            ConnState::Connecting => ConnSpec::Connecting,
            ConnState::Active(r) => ConnSpec::Active(r@),
            ConnState::Closed => ConnSpec::Closed,
        }
    }
}

/// What the connection goes on to do after its handshake.
pub enum Dispatch {
    /// Serve a controller of this name.
    Controller(String),
    /// Serve a receiver of this name.
    Receiver(String),
    /// Close: the handshake failed or named no role.
    Rejected,
}

/// One peer's connection.
pub struct Connection {
    state: ConnState,
}

impl View for Connection {
    type V = ConnSpec;

    closed spec fn view(&self) -> ConnSpec {
        self.state@
    }
}

impl Connection {
    /// A connection that awaits its handshake.
    pub fn new() -> (r: Connection)
        ensures
            r@ == ConnSpec::Connecting,
    {
        Connection { state: ConnState::Connecting }
    }

    /// The role of an active connection.
    pub fn role(&self) -> (r: Option<&Role>)
        ensures
            self@ matches ConnSpec::Active(role) ==> (r matches Some(x) && x@ == role),
            !(self@ is Active) ==> r is None,
    {
        match &self.state {
            ConnState::Active(role) => Some(role),
            _ => None,
        }
    }

    /// Takes the handshake: `first` is the text of the connection's first
    /// read, or `None` where that read failed. A controller or receiver is
    /// registered (unless an equal role already is) and the connection
    /// becomes active; anything else closes it, with the registry unchanged.
    pub fn identify(&mut self, first: Option<&str>, roles: &mut RoleContainer) -> (r: Dispatch)
        requires
            old(self)@ is Connecting,
            old(roles).wf(),
        ensures
            final(roles).wf(),
            match first {
                None => r is Rejected && final(self)@ is Closed && final(roles)@ == old(roles)@,
                Some(text) => match handshake_role(text@) {
                    RoleSpec::Controller(n) => (r matches Dispatch::Controller(s) && s@ == n)
                        && final(self)@ == ConnSpec::Active(handshake_role(text@))
                        && final(roles)@ == after_add(old(roles)@, handshake_role(text@)),
                    RoleSpec::Receiver(n) => (r matches Dispatch::Receiver(s) && s@ == n)
                        && final(self)@ == ConnSpec::Active(handshake_role(text@))
                        && final(roles)@ == after_add(old(roles)@, handshake_role(text@)),
                    RoleSpec::Unknown => r is Rejected && final(self)@ is Closed
                        && final(roles)@ == old(roles)@,
                },
            },
    {
        let text = match first {
            Some(t) => t,
            None => {
                self.state = ConnState::Closed;
                return Dispatch::Rejected;
            },
        };
        let role = Role::from_handshake(text);
        match &role {
            Role::Controller(name) => {
                let d = Dispatch::Controller(name.clone());
                roles.add(role.copied());
                self.state = ConnState::Active(role);
                d
            },
            Role::Receiver(name) => {
                let d = Dispatch::Receiver(name.clone());
                roles.add(role.copied());
                self.state = ConnState::Active(role);
                d
            },
            Role::Unknown => {
                self.state = ConnState::Closed;
                Dispatch::Rejected
            },
        }
    }

    /// Closes the connection; an active one takes its role out of the
    /// registry.
    pub fn close(&mut self, roles: &mut RoleContainer)
        requires
            old(roles).wf(),
        ensures
            final(roles).wf(),
            final(self)@ is Closed,
            old(self)@ matches ConnSpec::Active(role) ==> !has_role(final(roles)@, role),
            old(self)@ matches ConnSpec::Active(role) ==> (has_role(old(roles)@, role)
                ==> exists|i: int|
                0 <= i < old(roles)@.len() && same_role(old(roles)@[i], role) && final(roles)@
                    == old(roles)@.remove(i)),
            old(self)@ matches ConnSpec::Active(role) ==> (!has_role(old(roles)@, role)
                ==> final(roles)@ == old(roles)@),
            !(old(self)@ is Active) ==> final(roles)@ == old(roles)@,
    {
        if let ConnState::Active(role) = &self.state {
            roles.remove(role);
            proof {
                crate::registry::lemma_removed_absent(old(roles)@, final(roles)@, role@);
            }
        }
        self.state = ConnState::Closed;
    }
}

} // verus!
