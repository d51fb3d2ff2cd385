//! The broadcast router: one slot holding the latest message, and a version
//! that counts the sends. Each consumer keeps the version it saw last; it
//! is woken by every send but reads only what the slot holds then, so of two
//! sends between its reads it sees the second alone. Nothing is queued.
use vstd::prelude::*;

use crate::message::{addressed_to, none_text, Message, MessageSpec};

verus! {

/// The mathematical value of a `MessagePipe`.
pub struct PipeSpec {
    pub current: MessageSpec,
    pub version: u64,
    /// Whether anything was sent yet: until then the slot holds the
    /// placeholder, which no consumer reads.
    pub live: bool,
}

/// The slot after `m` was sent: it holds `m`, and the version moves on by one
/// (wrapping).
pub open spec fn sent(s: PipeSpec, m: MessageSpec) -> PipeSpec {
    PipeSpec {
        current: m,
        version: (if s.version == u64::MAX { 0 } else { s.version + 1 }) as u64,
        live: true,
    }
}

/// What a consumer called `name` that last saw version `seen` reads: the
/// message that the latest send put in the slot, if there was a send since
/// and the message is for it.
pub open spec fn delivered(s: PipeSpec, seen: u64, name: Seq<char>) -> Option<MessageSpec> {
    if s.live && s.version != seen && addressed_to(s.current, name) {
        Some(s.current)
    } else {
        None
    }
}

/// The single-slot router.
pub struct MessagePipe {
    current: Message,
    version: u64,
    live: bool,
}

impl View for MessagePipe {
    type V = PipeSpec;

    closed spec fn view(&self) -> PipeSpec {
        PipeSpec { current: self.current@, version: self.version, live: self.live }
    }
}

/// A consumer's place in the router: the version it saw last. Only
/// `subscribe` makes one.
pub struct Subscription {
    seen: u64,
}

impl View for Subscription {
    type V = u64;

    closed spec fn view(&self) -> u64 {
        self.seen
    }
}

impl MessagePipe {
    /// A router whose slot holds the empty message, at version 0.
    pub fn new() -> (r: MessagePipe)
        ensures
            r@.current == (MessageSpec { from: none_text(), to: none_text(), body: none_text() }),
            r@.version == 0,
            !r@.live,
    {
        MessagePipe { current: Message::empty(), version: 0, live: false }
    }

    /// The number of sends so far, wrapping.
    pub fn version(&self) -> (r: u64)
        ensures
            r == self@.version,
    {
        self.version
    }

    /// The message in the slot.
    pub fn current(&self) -> (r: &Message)
        ensures
            r@ == self@.current,
    {
        &self.current
    }

    /// Overwrites the slot with `item`. Never fails: a send with nobody
    /// listening is not an error.
    pub fn send(&mut self, item: Message)
        ensures
            final(self)@ == sent(old(self)@, item@),
    {
        self.current = item;
        self.version = self.version.wrapping_add(1);
        self.live = true;
    }

    /// One look at the router by the consumer called `name` through `sub`:
    /// the slot's message if it changed since the consumer's last look and is
    /// addressed to `name` or to `all`; `None` means wait for the next send.
    /// The look marks the current version as seen either way.
    pub fn get(&self, sub: &mut Subscription, name: &str) -> (r: Option<Message>)
        ensures
            r matches Some(m) ==> Some(m@) == delivered(self@, old(sub)@, name@),
            r is None ==> delivered(self@, old(sub)@, name@) is None,
            final(sub)@ == self@.version,
    {
        let changed = sub.seen != self.version;
        sub.seen = self.version;
        if self.live && changed && self.current.is_for(name) {
            Some(self.current.copied())
        } else {
            None
        }
    }

    /// A consumer that will see only what is sent from now on.
    pub fn subscribe(&self) -> (r: Subscription)
        ensures
            r@ == self@.version,
    {
        Subscription { seen: self.version }
    }
}

/// Latest wins: after two sends with no look between them, a consumer's next
/// look finds the second message or nothing, never the first (unless the two
/// are the same message).
pub proof fn lemma_latest_wins(s: PipeSpec, m1: MessageSpec, m2: MessageSpec, seen: u64, name: Seq<char>)
    ensures
        delivered(sent(sent(s, m1), m2), seen, name) matches Some(m) ==> m == m2,
        addressed_to(m2, name) && sent(sent(s, m1), m2).version != seen ==> delivered(
            sent(sent(s, m1), m2),
            seen,
            name,
        ) == Some(m2),
{
}

/// Nothing is read before the first send: the placeholder that a new router
/// holds never reaches a consumer.
pub proof fn lemma_nothing_before_send(s: PipeSpec, seen: u64, name: Seq<char>)
    requires
        !s.live,
    ensures
        delivered(s, seen, name) is None,
{
}

/// Filtering: a consumer only ever reads a message addressed to it by name
/// or to `all`.
pub proof fn lemma_only_addressed(s: PipeSpec, seen: u64, name: Seq<char>)
    ensures
        delivered(s, seen, name) matches Some(m) ==> addressed_to(m, name),
{
}

} // verus!
