use vstd::prelude::*;

verus! {

/// The server's settings: the address to listen on, the peers it admits,
/// and the time-to-live of its packets (0 leaves the system's default).
pub struct TcpServerConfig {
    pub addr: String,
    pub whitelist: Vec<String>,
    pub ttl: u32,
}

impl TcpServerConfig {
    /// Whether the listener's time-to-live is to be set.
    pub fn sets_ttl(&self) -> (r: bool)
        ensures
            r == (self.ttl != 0),
    {
        self.ttl != 0
    }
}

} // verus!
