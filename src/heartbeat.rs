//! The receiver-side liveness probe: every few seconds the server writes
//! `HEARTBEAT` and waits a bounded time for `HEARTBEAT_ACK`.
use vstd::prelude::*;

verus! {

/// Seconds between two probes.
pub const HEARTBEAT_INTERVAL_SECS: u64 = 5;

/// Seconds a probe waits for its reply.
pub const HEARTBEAT_TIMEOUT_SECS: u64 = 1;

/// How the read after a probe ended.
pub enum HeartbeatReply {
    /// The read found the connection closed (zero bytes).
    Closed,
    /// The bytes that were read.
    Data(Vec<u8>),
    /// No reply within the timeout.
    TimedOut,
    /// The read failed.
    Failed,
}

/// Why a receiver's liveness check failed.
#[derive(Debug, Clone, Copy, PartialEq, Eq)]
pub enum HeartbeatError {
    Timeout,
    Mismatch,
    ReadFailed,
}

/// What the heartbeat loop does after a probe.
#[derive(Debug, Clone, Copy, PartialEq, Eq)]
pub enum HeartbeatVerdict {
    /// The peer acknowledged: probe again after the interval.
    Continue,
    /// The peer closed the connection: end without error.
    Stop,
    /// End the connection with a liveness failure.
    Fail(HeartbeatError),
}

/// The probe's bytes: `HEARTBEAT`.
pub open spec fn probe_bytes() -> Seq<u8> {
    seq![72u8, 69, 65, 82, 84, 66, 69, 65, 84]
}

/// The expected reply's bytes: `HEARTBEAT_ACK`.
pub open spec fn ack_bytes() -> Seq<u8> {
    probe_bytes() + seq![95u8, 65, 67, 75]
}

/// The verdict on a probe's reply.
pub open spec fn verdict_of(reply: HeartbeatReply) -> HeartbeatVerdict {
    match reply {
        HeartbeatReply::Closed => HeartbeatVerdict::Stop,
        HeartbeatReply::Data(b) => if b@ == ack_bytes() {
            HeartbeatVerdict::Continue
        } else {
            HeartbeatVerdict::Fail(HeartbeatError::Mismatch)
        },
        HeartbeatReply::TimedOut => HeartbeatVerdict::Fail(HeartbeatError::Timeout),
        HeartbeatReply::Failed => HeartbeatVerdict::Fail(HeartbeatError::ReadFailed),
    }
}

/// The bytes of a probe.
pub fn heartbeat_probe() -> (r: Vec<u8>)
    ensures
        r@ == probe_bytes(),
{
    let r = vec![72u8, 69, 65, 82, 84, 66, 69, 65, 84];
    assert(r@ =~= probe_bytes());
    r
}

/// Judges the reply to a probe: the exact bytes `HEARTBEAT_ACK` go on, a
/// closed connection ends cleanly, anything else is a liveness failure.
pub fn heartbeat_verdict(reply: &HeartbeatReply) -> (r: HeartbeatVerdict)
    ensures
        r == verdict_of(*reply),
{
    match reply {
        HeartbeatReply::Closed => HeartbeatVerdict::Stop,
        HeartbeatReply::Data(b) => {
            let ack: Vec<u8> = vec![72u8, 69, 65, 82, 84, 66, 69, 65, 84, 95, 65, 67, 75];
            assert(ack@ =~= ack_bytes());
            let mut same = b.len() == ack.len();
            let mut i: usize = 0;
            while same && i < ack.len()
                invariant
                    ack@ == ack_bytes(),
                    i <= ack@.len(),
                    same ==> b@.len() == ack@.len(),
                    same ==> forall|k: int| 0 <= k < i ==> b@[k] == ack@[k],
                    !same ==> b@ != ack@,
                decreases ack@.len() - i,
            {
                if b[i] != ack[i] {
                    same = false;
                }
                i = i + 1;
            }
            if same {
                assert(b@ =~= ack@);
                HeartbeatVerdict::Continue
            } else {
                HeartbeatVerdict::Fail(HeartbeatError::Mismatch)
            }
        },
        HeartbeatReply::TimedOut => HeartbeatVerdict::Fail(HeartbeatError::Timeout),
        HeartbeatReply::Failed => HeartbeatVerdict::Fail(HeartbeatError::ReadFailed),
    }
}

} // verus!
