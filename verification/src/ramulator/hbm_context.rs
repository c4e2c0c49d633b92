//! Off-chip memory traffic.

use vstd::prelude::*;

verus! {

/// Addresses that are sent to memory together.
#[derive(Debug, PartialEq, Eq)]
pub struct ParAddrs {
    pub addrs: Vec<u64>,
}

impl ParAddrs {
    pub fn new(addrs: Vec<u64>) -> (res: Self)
        ensures
            res == (ParAddrs { addrs }),
    {
        ParAddrs { addrs }
    }
}

/// The addresses that memory has received so far. Each counts as
/// `addr_offset` bytes: repeated accesses count again, and partially used
/// requests count at their full request size.
#[derive(Debug, Clone, Copy, PartialEq, Eq)]
pub struct HBMTrafficStats {
    pub addr_offset: u64,
    pub read_addrs: u64,
    pub write_addrs: u64,
}

impl HBMTrafficStats {
    /// The totals can be computed.
    pub open spec fn fits(&self) -> bool {
        (self.read_addrs + self.write_addrs) * self.addr_offset <= u64::MAX
    }

    pub fn new(addr_offset: u64) -> (res: Self)
        ensures
            res == (HBMTrafficStats { addr_offset, read_addrs: 0, write_addrs: 0 }),
    {
        HBMTrafficStats { addr_offset, read_addrs: 0, write_addrs: 0 }
    }

    /// Counts a read request.
    pub fn record_read(&mut self, request: &ParAddrs)
        requires
            old(self).read_addrs + request.addrs@.len() <= u64::MAX,
        ensures
            *final(self) == (HBMTrafficStats {
                read_addrs: (old(self).read_addrs + request.addrs@.len()) as u64,
                ..*old(self)
            }),
    {
        self.read_addrs = self.read_addrs + request.addrs.len() as u64;
    }

    /// Counts a write request.
    pub fn record_write(&mut self, request: &ParAddrs)
        requires
            old(self).write_addrs + request.addrs@.len() <= u64::MAX,
        ensures
            *final(self) == (HBMTrafficStats {
                write_addrs: (old(self).write_addrs + request.addrs@.len()) as u64,
                ..*old(self)
            }),
    {
        self.write_addrs = self.write_addrs + request.addrs.len() as u64;
    }

    /// Bytes read.
    pub fn read_bytes(&self) -> (res: u64)
        requires
            self.fits(),
        ensures
            res == self.read_addrs * self.addr_offset,
    {
        proof {
            self.lemma_parts();
        }
        self.read_addrs * self.addr_offset
    }

    /// Bytes written.
    pub fn write_bytes(&self) -> (res: u64)
        requires
            self.fits(),
        ensures
            res == self.write_addrs * self.addr_offset,
    {
        proof {
            self.lemma_parts();
        }
        self.write_addrs * self.addr_offset
    }

    /// Bytes read and written.
    pub fn total_bytes(&self) -> (res: u64)
        requires
            self.fits(),
        ensures
            res == self.read_addrs * self.addr_offset + self.write_addrs * self.addr_offset,
    {
        proof {
            self.lemma_parts();
        }
        self.read_addrs * self.addr_offset + self.write_addrs * self.addr_offset
    }

    proof fn lemma_parts(&self)
        ensures
            0 <= self.read_addrs * self.addr_offset,
            0 <= self.write_addrs * self.addr_offset,
            self.read_addrs * self.addr_offset + self.write_addrs * self.addr_offset == (
            self.read_addrs + self.write_addrs) * self.addr_offset,
    {
        let r = self.read_addrs as int;
        let w = self.write_addrs as int;
        let a = self.addr_offset as int;
        assert(0 <= r * a && 0 <= w * a && r * a + w * a == (r + w) * a) by (nonlinear_arith)
            requires
                0 <= r,
                0 <= w,
                0 <= a,
        ;
    }
}

/// Traffic is counted by addresses: every address that is read or written moves
/// as many bytes as lie between two addresses, and the total is that of both.
pub proof fn law_traffic_adds_up(stats: HBMTrafficStats, request: ParAddrs, total: u64)
    requires
        call_ensures(HBMTrafficStats::total_bytes, (&stats,), total),
    ensures
        total == (stats.read_addrs + stats.write_addrs) * stats.addr_offset,
        forall|after: &mut HBMTrafficStats|
            after.read_addrs + request.addrs@.len() <= u64::MAX && #[trigger] call_ensures(
                HBMTrafficStats::record_read,
                (after, &request),
                (),
            ) ==> {
                &&& final(after).read_addrs == after.read_addrs + request.addrs@.len()
                &&& final(after).write_addrs == after.write_addrs
                &&& final(after).addr_offset == after.addr_offset
            },
        forall|after: &mut HBMTrafficStats|
            after.write_addrs + request.addrs@.len() <= u64::MAX && #[trigger] call_ensures(
                HBMTrafficStats::record_write,
                (after, &request),
                (),
            ) ==> {
                &&& final(after).write_addrs == after.write_addrs + request.addrs@.len()
                &&& final(after).read_addrs == after.read_addrs
                &&& final(after).addr_offset == after.addr_offset
            },
{
    assert((stats.read_addrs + stats.write_addrs) * stats.addr_offset == stats.read_addrs
        * stats.addr_offset + stats.write_addrs * stats.addr_offset) by (nonlinear_arith);
}

} // verus!
