//! Events: one write to, or read from, a TLS connection.

use vstd::prelude::*;

verus! {

/// What was seen, when, and in which process.
pub struct Event {
    pub timestamp: u64,
    pub source: String,
    pub pid: u32,
    pub comm: String,
    /// The payload, as JSON text.
    pub data: String,
}

impl Event {
    pub fn new_with_timestamp(
        timestamp: u64,
        source: String,
        pid: u32,
        comm: String,
        data: String,
    ) -> (r: Event)
        ensures
            r == (Event { timestamp, source, pid, comm, data }),
    {
        Event { timestamp, source, pid, comm, data }
    }
}

impl Clone for Event {
    fn clone(&self) -> (r: Self)
        ensures
            r == *self,
    {
        Event {
            timestamp: self.timestamp,
            source: self.source.clone(),
            pid: self.pid,
            comm: self.comm.clone(),
            data: self.data.clone(),
        }
    }
}

} // verus!
