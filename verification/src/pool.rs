//! A fixed-capacity byte pool that keeps count of what was asked of it.

use vstd::prelude::*;

verus! {

#[derive(Clone, Copy, Debug, PartialEq, Eq, Structural)]
pub struct PoolStats {
    pub capacity: usize,
    pub high_water: usize,
    pub allocations: usize,
    pub allocation_failures: usize,
    pub bytes_in_use: usize,
}

impl Default for PoolStats {
    fn default() -> (res: Self)
        ensures
            res == PoolStats::empty(0),
    {
        PoolStats {
            capacity: 0,
            high_water: 0,
            allocations: 0,
            allocation_failures: 0,
            bytes_in_use: 0,
        }
    }
}

impl PoolStats {
    pub open spec fn empty(capacity: usize) -> PoolStats {
        PoolStats {
            capacity,
            high_water: 0,
            allocations: 0,
            allocation_failures: 0,
            bytes_in_use: 0,
        }
    }

    /// Never more in use than the high-water mark says, nor more than there is.
    pub open spec fn bounded(self) -> bool {
        self.bytes_in_use <= self.high_water <= self.capacity
    }

    pub open spec fn has_room(self, bytes: int) -> bool {
        self.bytes_in_use + bytes <= self.capacity
    }

    pub open spec fn allocated(self, bytes: int) -> PoolStats {
        if self.has_room(bytes) {
            PoolStats {
                bytes_in_use: (self.bytes_in_use + bytes) as usize,
                allocations: (self.allocations + 1) as usize,
                high_water: if self.bytes_in_use + bytes > self.high_water {
                    (self.bytes_in_use + bytes) as usize
                } else {
                    self.high_water
                },
                ..self
            }
        } else {
            PoolStats { allocation_failures: (self.allocation_failures + 1) as usize, ..self }
        }
    }

    pub open spec fn released(self, bytes: int) -> PoolStats {
        if bytes <= self.bytes_in_use {
            PoolStats { bytes_in_use: (self.bytes_in_use - bytes) as usize, ..self }
        } else {
            self
        }
    }
}

#[derive(Debug)]
pub struct FixedPool {
    stats: PoolStats,
}

impl View for FixedPool {
    type V = PoolStats;

    closed spec fn view(&self) -> PoolStats {
        self.stats
    }
}

impl FixedPool {
    pub fn new(capacity: usize) -> (res: Self)
        ensures
            res@ == PoolStats::empty(capacity),
    {
        FixedPool {
            stats: PoolStats {
                capacity,
                high_water: 0,
                allocations: 0,
                allocation_failures: 0,
                bytes_in_use: 0,
            },
        }
    }

    pub fn allocate(&mut self, bytes: usize) -> (res: bool)
        requires
            old(self)@.bounded(),
            old(self)@.allocations < usize::MAX,
            old(self)@.allocation_failures < usize::MAX,
        ensures
            res == old(self)@.has_room(bytes as int),
            final(self)@ == old(self)@.allocated(bytes as int),
            final(self)@.bounded(),
    {
        if bytes > self.stats.capacity - self.stats.bytes_in_use {
            self.stats.allocation_failures = self.stats.allocation_failures + 1;
            return false;
        }
        self.stats.bytes_in_use = self.stats.bytes_in_use + bytes;
        self.stats.allocations = self.stats.allocations + 1;
        if self.stats.bytes_in_use > self.stats.high_water {
            self.stats.high_water = self.stats.bytes_in_use;
        }
        true
    }

    pub fn release(&mut self, bytes: usize) -> (res: bool)
        requires
            old(self)@.bounded(),
        ensures
            res == (bytes <= old(self)@.bytes_in_use),
            final(self)@ == old(self)@.released(bytes as int),
            final(self)@.bounded(),
    {
        if bytes > self.stats.bytes_in_use {
            return false;
        }
        self.stats.bytes_in_use = self.stats.bytes_in_use - bytes;
        true
    }

    pub fn stats(&self) -> (res: PoolStats)
        ensures
            res == self@,
    {
        self.stats
    }
}

/// Releasing what was just allocated leaves as much in use as before.
pub proof fn law_release_undoes_allocate(stats: PoolStats, bytes: usize)
    requires
        stats.bounded(),
        stats.has_room(bytes as int),
    ensures
        stats.allocated(bytes as int).released(bytes as int).bytes_in_use == stats.bytes_in_use,
{
}

/// Whatever is asked of it, a pool never hands out more than it has, and a
/// refusal changes nothing but the count of refusals.
pub proof fn law_pool_never_overcommits(stats: PoolStats, bytes: usize)
    requires
        stats.bounded(),
    ensures
        stats.allocated(bytes as int).bounded(),
        stats.released(bytes as int).bounded(),
        stats.allocated(bytes as int).capacity == stats.capacity,
        !stats.has_room(bytes as int) ==> stats.allocated(bytes as int).bytes_in_use
            == stats.bytes_in_use,
{
}

/// A pool hands out what it is asked for exactly where that is left, to the
/// last byte; it counts what it handed out and what it refused, and remembers
/// the most that was in use. More than is in use is never taken back.
pub proof fn law_pools_keep_account(stats: PoolStats, bytes: usize)
    requires
        stats.bounded(),
        stats.allocations < usize::MAX,
        stats.allocation_failures < usize::MAX,
    ensures
        ({
            let after = stats.allocated(bytes as int);
            let back = stats.released(bytes as int);
            &&& stats.has_room(bytes as int) <==> bytes <= stats.capacity - stats.bytes_in_use
            &&& bytes <= stats.capacity - stats.bytes_in_use ==> {
                &&& after.bytes_in_use == stats.bytes_in_use + bytes
                &&& after.allocations == stats.allocations + 1
                &&& after.allocation_failures == stats.allocation_failures
                &&& after.high_water >= stats.high_water
                &&& after.high_water >= after.bytes_in_use
                &&& after.high_water == stats.high_water || after.high_water == after.bytes_in_use
            }
            &&& bytes > stats.capacity - stats.bytes_in_use ==> {
                &&& after.bytes_in_use == stats.bytes_in_use
                &&& after.allocations == stats.allocations
                &&& after.allocation_failures == stats.allocation_failures + 1
                &&& after.high_water == stats.high_water
            }
            &&& bytes <= stats.bytes_in_use ==> back.bytes_in_use + bytes == stats.bytes_in_use
            &&& bytes > stats.bytes_in_use ==> back == stats
            &&& back.high_water == stats.high_water && back.allocations == stats.allocations
                && back.allocation_failures == stats.allocation_failures
            &&& after.capacity == stats.capacity && back.capacity == stats.capacity
        }),
        PoolStats::empty(bytes).capacity == bytes,
        PoolStats::empty(bytes).bytes_in_use == 0,
        PoolStats::empty(bytes).high_water == 0,
        PoolStats::empty(bytes).allocations == 0,
        PoolStats::empty(bytes).allocation_failures == 0,
{
}

} // verus!
