//! The scan request: a target address and a worker count.
//!
//! The address is held as plain numeric fields, so a request can be built
//! and compared without touching the platform's socket types; the program
//! around the library converts to and from its own address representation.

use vstd::prelude::*;

verus! {

/// An IP address: the four octets of a v4 address, or the eight segments of
/// a v6 address.
#[derive(Clone, Copy, PartialEq, Eq, Structural, Debug)]
pub enum IpAddress {
    V4(u8, u8, u8, u8),
    V6(u16, u16, u16, u16, u16, u16, u16, u16),
}

/// A validated scan request. Invariant: at least one worker.
#[derive(Clone, Copy, PartialEq, Eq, Structural, Debug)]
pub struct ScanRequest {
    pub address: IpAddress,
    pub threads: u16,
}

impl ScanRequest {
    /// The request's invariant: the port range is shared by at least one
    /// worker.
    pub open spec fn well_formed(self) -> bool {
        self.threads >= 1
    }

    pub fn new(address: IpAddress, threads: u16) -> (r: ScanRequest)
        requires
            threads >= 1,
        ensures
            r.address == address,
            r.threads == threads,
            r.well_formed(),
    {
        ScanRequest { address, threads }
    }

    /// The ports worker `i` of this request visits, in visiting order.
    pub fn ports_for_worker(&self, i: u16) -> (r: Vec<u16>)
        requires
            self.well_formed(),
            i < self.threads,
        ensures
            r@.len() == crate::ports::worker_count(i as int, self.threads as int),
            forall|k: int|
                0 <= k < r@.len() ==> r@[k] as int == crate::ports::worker_seq(
                    i as int,
                    self.threads as int,
                )[k],
    {
        crate::ports::worker_ports(i, self.threads)
    }
}

} // verus!
