//! Model of one worker's private connection pool.
//!
//! A pool hands out at most `cap` leases at a time; a lease is exclusive use
//! of one connection for the duration of one unit of work and is always
//! returned before the worker takes its next unit of work.

use vstd::prelude::*;

verus! {

/// Why the pool could not produce a connection for a unit of work.
#[derive(Clone, Copy, Debug, PartialEq, Eq, Structural)]
pub enum PoolError {
    /// Every connection allowed by the configured maximum is already leased.
    Exhausted,
}

/// Exclusive use of one connection from a `ResourcePool`, held for one unit
/// of work and then given back with `ResourcePool::release`.
pub struct LeasedConnection {
    handle: (),
}

/// A bounded pool of database connections.  `leases()` counts the
/// connections currently out on lease; it never exceeds `cap()`.
pub struct ResourcePool {
    max_size: u32,
    min_idle: u32,
    leased: u32,
}

impl ResourcePool {
    /// Number of connections currently leased out.
    pub closed spec fn leases(&self) -> nat {
        self.leased as nat
    }

    /// Configured maximum number of simultaneously leased connections.
    pub closed spec fn cap(&self) -> nat {
        self.max_size as nat
    }

    /// Configured minimum number of idle connections kept open.
    pub closed spec fn idle_floor(&self) -> nat {
        self.min_idle as nat
    }

    /// Pool invariant: at no point are more connections leased than the
    /// configured maximum allows.
    pub open spec fn wf(&self) -> bool {
        self.leases() <= self.cap() && 1 <= self.cap()
    }

    /// A fresh pool with nothing leased.  The backing pool library refuses a
    /// maximum of zero, so the same bound is demanded here.
    pub fn new(max_size: u32, min_idle: u32) -> (p: ResourcePool)
        requires
            1 <= max_size,
        ensures
            p.wf(),
            p.cap() == max_size,
            p.idle_floor() == min_idle,
            p.leases() == 0,
    {
        ResourcePool { max_size, min_idle, leased: 0 }
    }

    /// Lease one connection.  Fails fast, without blocking, exactly when the
    /// configured maximum is already out on lease.
    pub fn acquire(&mut self) -> (r: Result<LeasedConnection, PoolError>)
        requires
            old(self).wf(),
        ensures
            final(self).wf(),
            final(self).cap() == old(self).cap(),
            final(self).idle_floor() == old(self).idle_floor(),
            (r is Ok) <==> old(self).leases() < old(self).cap(),
            r is Ok ==> final(self).leases() == old(self).leases() + 1,
            r is Err ==> final(self).leases() == old(self).leases(),
            r matches Err(e) ==> e == PoolError::Exhausted,
            final(self).leases() <= final(self).cap(),
    {
        if self.leased < self.max_size {
            self.leased = self.leased + 1;
            Ok(LeasedConnection { handle: () })
        } else {
            Err(PoolError::Exhausted)
        }
    }

    /// Return a leased connection to the pool's free set.
    pub fn release(&mut self, conn: LeasedConnection)
        requires
            old(self).wf(),
            1 <= old(self).leases(),
        ensures
            final(self).wf(),
            final(self).cap() == old(self).cap(),
            final(self).idle_floor() == old(self).idle_floor(),
            final(self).leases() == old(self).leases() - 1,
            final(self).leases() <= final(self).cap(),
    {
        let LeasedConnection { handle: _ } = conn;
        self.leased = self.leased - 1;
    }
}

/// Law: a well-formed pool with maximum size `cap` never has more than `cap`
/// leased connections outstanding, and `acquire` and `release` keep it that
/// way (their contracts restate the bound on the state they leave behind).
pub proof fn lemma_leases_bounded(p: &ResourcePool)
    requires
        p.wf(),
    ensures
        p.leases() <= p.cap(),
{
}

} // verus!
