//! The executor: a fixed group of workers sharing one inbox.
//!
//! `dispatch` enqueues a typed unit of work and hands back a fresh reply
//! ticket — the model of a single-use reply channel.  Workers take the
//! oldest unit of work, serve it with their private pool, and resolve its
//! ticket with exactly one reply.  The inbox is unbounded: a dispatch never
//! fails for want of an idle worker; the work waits until one frees up.

use vstd::prelude::*;

use crate::executor::{DbError, DbExecutor, TypedRequest, TypedResult, WriteOp};
use crate::pool::ResourcePool;
use crate::table::{rows_matching, rows_updated, rows_without, views_of, RowView, SessionTable};

verus! {

/// One queued unit of work and the ticket its reply will resolve.
struct Envelope {
    ticket: u32,
    req: TypedRequest,
}

/// What serving `req` does, given whether the chosen worker's pool had a
/// connection to spare: how the table moves from `t0` to `t1` and which
/// reply the ticket resolves with.
pub open spec fn served(
    req: TypedRequest,
    avail: bool,
    t0: SessionTable,
    t1: SessionTable,
    reply: TypedResult,
) -> bool {
    match req {
        TypedRequest::Select(q) => {
            &&& t1.rows() == t0.rows()
            &&& t1.next_id() == t0.next_id()
            &&& if avail {
                reply matches TypedResult::Rows(Ok(rows)) && views_of(rows@) == rows_matching(
                    t0.rows(),
                    q.filter_key@,
                )
            } else {
                reply matches TypedResult::Rows(Ok(rows)) && rows@.len() == 0
            }
        },
        TypedRequest::Write(q) => {
            if avail {
                match q.write {
                    WriteOp::Insert { skey, sdata } => {
                        &&& t1.rows() == t0.rows().push(
                            RowView { id: t0.next_id(), skey: skey@, sdata: Some(sdata@) },
                        )
                        &&& t1.next_id() == t0.next_id() + 1
                        &&& reply matches TypedResult::Rows(Ok(rows)) && views_of(rows@) == seq![
                            RowView { id: t0.next_id(), skey: skey@, sdata: Some(sdata@) },
                        ]
                    },
                    WriteOp::UpdateByKey { skey, sdata } => {
                        &&& t1.rows() == rows_updated(t0.rows(), skey@, sdata@)
                        &&& t1.next_id() == t0.next_id()
                        &&& reply matches TypedResult::Rows(Ok(rows)) && views_of(rows@)
                            == rows_matching(t1.rows(), skey@)
                    },
                }
            } else {
                &&& t1.rows() == t0.rows()
                &&& t1.next_id() == t0.next_id()
                &&& reply matches TypedResult::Rows(Ok(rows)) && rows@.len() == 0
            }
        },
        TypedRequest::Delete(q) => {
            &&& t1.next_id() == t0.next_id()
            &&& if avail {
                &&& t1.rows() == rows_without(t0.rows(), q.delete_key@)
                &&& reply matches TypedResult::Count(Ok(n)) && n == rows_matching(
                    t0.rows(),
                    q.delete_key@,
                ).len()
            } else {
                &&& t1.rows() == t0.rows()
                &&& reply == TypedResult::Count(Err(DbError::NotFound))
            }
        },
        TypedRequest::Lease(_) => {
            &&& t1.rows() == t0.rows()
            &&& t1.next_id() == t0.next_id()
            &&& if avail {
                reply matches TypedResult::Connection(Ok(_))
            } else {
                reply matches TypedResult::Connection(Err(e)) && e == DbError::NotFound
            }
        },
    }
}

/// A fixed group of workers sharing one inbox and one connection string.
pub struct WorkerGroup {
    workers: Vec<DbExecutor>,
    inbox: Vec<Envelope>,
    resolved: Vec<(u32, TypedResult)>,
    next_ticket: u32,
    turn: usize,
    url: String,
}

impl WorkerGroup {
    /// The workers, each with its private pool.
    pub closed spec fn workers(&self) -> Seq<DbExecutor> {
        self.workers@
    }

    /// How many workers serve the inbox.
    pub open spec fn n_workers(&self) -> nat {
        self.workers().len()
    }

    /// Leases out of worker `i`'s pool.
    pub open spec fn pool_leases(&self, i: int) -> nat {
        self.workers()[i].pool.leases()
    }

    /// Capacity of worker `i`'s pool.
    pub open spec fn pool_cap(&self, i: int) -> nat {
        self.workers()[i].pool.cap()
    }

    /// Idle floor of worker `i`'s pool.
    pub open spec fn pool_idle_floor(&self, i: int) -> nat {
        self.workers()[i].pool.idle_floor()
    }

    /// The queued units of work: ticket and request, oldest first.
    pub closed spec fn pending(&self) -> Seq<(u32, TypedRequest)> {
        self.inbox@.map_values(|e: Envelope| (e.ticket, e.req))
    }

    /// The resolved reply channels: ticket and the one reply each received,
    /// in resolution order, until the caller consumes the reply.
    pub closed spec fn resolved(&self) -> Seq<(u32, TypedResult)> {
        self.resolved@
    }

    /// The next fresh reply ticket.
    pub closed spec fn next_ticket(&self) -> nat {
        self.next_ticket as nat
    }

    /// The worker whose turn it is to take the next unit of work.
    pub closed spec fn turn(&self) -> nat {
        self.turn as nat
    }

    /// The connection string every worker's pool connects with.
    pub closed spec fn url(&self) -> Seq<char> {
        self.url@
    }

    /// Every worker's pool has a connection to spare.
    pub open spec fn all_available(&self) -> bool {
        forall|i: int| 0 <= i < self.n_workers() ==> self.pool_leases(i) < self.pool_cap(i)
    }

    /// Group invariant: at least one worker, all pools within bounds, and
    /// every ticket — queued or resolved — issued once: tickets are below
    /// the fresh-ticket counter, distinct among the queued, distinct among
    /// the resolved, and never both queued and resolved.
    pub open spec fn wf(&self) -> bool {
        &&& 1 <= self.n_workers()
        &&& self.turn() < self.n_workers()
        &&& forall|i: int| 0 <= i < self.n_workers() ==> (#[trigger] self.workers()[i]).wf()
        &&& forall|i: int|
            0 <= i < self.pending().len() ==> (#[trigger] self.pending()[i]).0 < self.next_ticket()
        &&& forall|i: int, j: int|
            0 <= i < j < self.pending().len() ==> self.pending()[i].0 != self.pending()[j].0
        &&& forall|i: int|
            0 <= i < self.resolved().len() ==> (#[trigger] self.resolved()[i]).0
                < self.next_ticket()
        &&& forall|i: int, j: int|
            0 <= i < j < self.resolved().len() ==> self.resolved()[i].0 != self.resolved()[j].0
        &&& forall|i: int, j: int|
            0 <= i < self.pending().len() && 0 <= j < self.resolved().len() ==> self.pending()[i].0
                != self.resolved()[j].0
    }

    /// Relation between a group and the table before and after one worker
    /// has served the oldest queued unit of work: the reply resolves exactly
    /// that ticket, the table moves as `served` says, and no pool but the
    /// serving worker's — and that only for a connection lease — changes.
    pub open spec fn step_serves(
        pre: WorkerGroup,
        post: WorkerGroup,
        t0: SessionTable,
        t1: SessionTable,
    ) -> bool {
        let tk = pre.pending()[0].0;
        let req = pre.pending()[0].1;
        let w = pre.turn() as int;
        let avail = pre.pool_leases(w) < pre.pool_cap(w);
        &&& post.pending() == pre.pending().subrange(1, pre.pending().len() as int)
        &&& post.next_ticket() == pre.next_ticket()
        &&& post.n_workers() == pre.n_workers()
        &&& post.url() == pre.url()
        &&& post.resolved().len() == pre.resolved().len() + 1
        &&& forall|i: int|
            0 <= i < pre.resolved().len() ==> post.resolved()[i] == pre.resolved()[i]
        &&& post.resolved().last().0 == tk
        &&& served(req, avail, t0, t1, post.resolved().last().1)
        &&& forall|i: int|
            0 <= i < pre.n_workers() ==> #[trigger] post.pool_cap(i) == pre.pool_cap(i)
                && post.pool_idle_floor(i) == pre.pool_idle_floor(i)
        &&& (!(req matches TypedRequest::Lease(_)) ==> forall|i: int|
            0 <= i < pre.n_workers() ==> #[trigger] post.pool_leases(i) == pre.pool_leases(i))
        &&& ((req matches TypedRequest::Lease(_)) ==> forall|i: int|
            0 <= i < pre.n_workers() && i != w ==> #[trigger] post.pool_leases(i)
                == pre.pool_leases(i))
        &&& ((req matches TypedRequest::Lease(_)) ==> post.pool_leases(w) == (
        if avail {
            pre.pool_leases(w) + 1
        } else {
            pre.pool_leases(w)
        }))
    }

    /// Start a group: `count` workers, each with a fresh private pool of
    /// capacity `max_size`, all serving one empty inbox.
    pub fn new(count: u32, max_size: u32, min_idle: u32, url: String) -> (g: WorkerGroup)
        requires
            1 <= count,
            1 <= max_size,
        ensures
            g.wf(),
            g.n_workers() == count,
            forall|i: int|
                0 <= i < g.n_workers() ==> g.pool_cap(i) == max_size && g.pool_leases(i) == 0
                    && g.pool_idle_floor(i) == min_idle,
            g.pending().len() == 0,
            g.resolved().len() == 0,
            g.next_ticket() == 0,
            g.turn() == 0,
            g.url() == url@,
            g.all_available(),
    {
        let mut workers: Vec<DbExecutor> = Vec::new();
        let mut i: u32 = 0;
        while i < count
            invariant
                i <= count,
                workers@.len() == i,
                1 <= max_size,
                forall|j: int|
                    0 <= j < i ==> (#[trigger] workers@[j]).pool.cap() == max_size
                        && workers@[j].pool.leases() == 0 && workers@[j].pool.idle_floor()
                        == min_idle && workers@[j].wf(),
            decreases count - i,
        {
            workers.push(DbExecutor { pool: ResourcePool::new(max_size, min_idle) });
            i = i + 1;
        }
        let g = WorkerGroup {
            workers,
            inbox: Vec::new(),
            resolved: Vec::new(),
            next_ticket: 0,
            turn: 0,
            url,
        };
        proof {
            assert(g.pending() =~= Seq::<(u32, TypedRequest)>::empty());
        }
        g
    }

    /// Enqueue a unit of work on the shared inbox and hand back the fresh
    /// single-use ticket its reply will resolve.  The inbox is unbounded:
    /// enqueueing succeeds no matter how busy the workers are.
    pub fn dispatch(&mut self, req: TypedRequest) -> (t: u32)
        requires
            old(self).wf(),
            old(self).next_ticket() < 0xffff_ffff,
        ensures
            final(self).wf(),
            t as nat == old(self).next_ticket(),
            final(self).next_ticket() == old(self).next_ticket() + 1,
            final(self).pending() == old(self).pending().push((t, req)),
            final(self).resolved() == old(self).resolved(),
            final(self).workers() == old(self).workers(),
            final(self).turn() == old(self).turn(),
            final(self).url() == old(self).url(),
    {
        let t = self.next_ticket;
        self.next_ticket = self.next_ticket + 1;
        self.inbox.push(Envelope { ticket: t, req });
        proof {
            assert(self.pending() =~= old(self).pending().push((t, req)));
            assert forall|i: int|
                0 <= i < self.pending().len() implies (#[trigger] self.pending()[i]).0
                < self.next_ticket() by {
                if i < old(self).pending().len() {
                    assert(old(self).pending()[i].0 < old(self).next_ticket());
                }
            }
            assert forall|i: int, j: int|
                0 <= i < j < self.pending().len() implies self.pending()[i].0
                != self.pending()[j].0 by {
                if j == old(self).pending().len() as int {
                    assert(old(self).pending()[i].0 < old(self).next_ticket());
                }
            }
            assert forall|i: int, j: int|
                0 <= i < self.pending().len() && 0 <= j < self.resolved().len() implies self
                .pending()[i].0 != self.resolved()[j].0 by {
                assert(old(self).resolved()[j].0 < old(self).next_ticket());
                if i < old(self).pending().len() {
                    assert(old(self).pending()[i].0 < old(self).next_ticket());
                }
            }
        }
        t
    }

    /// Let the next worker serve the oldest queued unit of work, if any:
    /// the served ticket is returned, and its reply is kept until the
    /// caller consumes it with `take_reply`.
    #[verifier::rlimit(50)]
    pub fn step(&mut self, table: &mut SessionTable) -> (t: Option<u32>)
        requires
            old(self).wf(),
            old(table).wf(),
            old(table).next_id() < 0x7fff_ffff,
        ensures
            final(self).wf(),
            final(table).wf(),
            final(table).next_id() <= old(table).next_id() + 1,
            old(self).pending().len() == 0 ==> (t is None && *final(self) == *old(self)
                && *final(table) == *old(table)),
            old(self).pending().len() > 0 ==> t == Some(old(self).pending()[0].0)
                && WorkerGroup::step_serves(*old(self), *final(self), *old(table), *final(table)),
    {
        if self.inbox.len() == 0 {
            return None;
        }
        let env = self.inbox.remove(0);
        let Envelope { ticket, req } = env;
        let w = self.turn;
        let ghost pre_pending = old(self).pending();
        proof {
            assert(pre_pending[0] == (ticket, req));
            assert(self.pending() =~= pre_pending.subrange(1, pre_pending.len() as int));
        }
        let reply = match req {
            TypedRequest::Select(q) => {
                let worker = &mut self.workers[w];
                TypedResult::Rows(worker.handle_select(&q, table))
            },
            TypedRequest::Write(q) => {
                let worker = &mut self.workers[w];
                TypedResult::Rows(worker.handle_write(&q, table))
            },
            TypedRequest::Delete(q) => {
                let worker = &mut self.workers[w];
                TypedResult::Count(worker.handle_delete(&q, table))
            },
            TypedRequest::Lease(c) => {
                let worker = &mut self.workers[w];
                TypedResult::Connection(worker.handle_conn(c))
            },
        };
        self.resolved.push((ticket, reply));
        let n = self.workers.len();
        proof {
            assert(w < n);
        }
        self.turn = if w + 1 < n {
            w + 1
        } else {
            0
        };
        proof {
            assert forall|i: int| 0 <= i < self.n_workers() implies (#[trigger] self.workers()[i]).wf() by {
                if i != w as int {
                    assert(self.workers()[i] == old(self).workers()[i]);
                }
            }
            assert forall|i: int, j: int|
                0 <= i < j < self.pending().len() implies self.pending()[i].0
                != self.pending()[j].0 by {
                assert(pre_pending[i + 1].0 != pre_pending[j + 1].0);
            }
            assert forall|i: int|
                0 <= i < self.pending().len() implies (#[trigger] self.pending()[i]).0
                < self.next_ticket() by {
                assert(pre_pending[i + 1].0 < old(self).next_ticket());
            }
            assert forall|i: int|
                0 <= i < self.resolved().len() implies (#[trigger] self.resolved()[i]).0
                < self.next_ticket() by {
                if i == self.resolved().len() - 1 {
                    assert(self.resolved()[i].0 == pre_pending[0].0);
                    assert(pre_pending[0].0 < old(self).next_ticket());
                } else {
                    assert(self.resolved()[i] == old(self).resolved()[i]);
                }
            }
            assert forall|i: int, j: int|
                0 <= i < j < self.resolved().len() implies self.resolved()[i].0
                != self.resolved()[j].0 by {
                if j == self.resolved().len() - 1 {
                    assert(self.resolved()[i].0 == old(self).resolved()[i].0);
                    assert(self.resolved()[j].0 == pre_pending[0].0);
                    assert(old(self).resolved()[i].0 != pre_pending[0].0);
                } else {
                    assert(self.resolved()[i].0 == old(self).resolved()[i].0);
                    assert(self.resolved()[j].0 == old(self).resolved()[j].0);
                }
            }
            assert forall|i: int, j: int|
                0 <= i < self.pending().len() && 0 <= j < self.resolved().len() implies self
                .pending()[i].0 != self.resolved()[j].0 by {
                assert(self.pending()[i].0 == pre_pending[i + 1].0);
                if j == self.resolved().len() - 1 {
                    assert(self.resolved()[j].0 == pre_pending[0].0);
                    assert(pre_pending[0].0 != pre_pending[i + 1].0);
                } else {
                    assert(old(self).resolved()[j].0 != pre_pending[i + 1].0);
                }
            }
        }
        Some(ticket)
    }

    /// How many units of work are still queued.
    pub fn pending_len(&self) -> (n: usize)
        ensures
            n == self.pending().len(),
    {
        self.inbox.len()
    }

    /// Let the workers serve until the inbox is empty.  Every ticket that
    /// was queued is resolved exactly once, in queue order, behind the
    /// replies that were already resolved; none is dropped, none is
    /// resolved twice.
    #[verifier::loop_isolation(false)]
    #[verifier::rlimit(50)]
    pub fn run_pending(&mut self, table: &mut SessionTable)
        requires
            old(self).wf(),
            old(table).wf(),
            old(table).next_id() + old(self).pending().len() <= 0x7fff_ffff,
        ensures
            final(self).wf(),
            final(table).wf(),
            final(self).pending().len() == 0,
            final(self).next_ticket() == old(self).next_ticket(),
            final(self).n_workers() == old(self).n_workers(),
            final(self).url() == old(self).url(),
            forall|i: int|
                0 <= i < old(self).n_workers() ==> #[trigger] final(self).pool_cap(i) == old(
                    self,
                ).pool_cap(i) && final(self).pool_idle_floor(i) == old(self).pool_idle_floor(i),
            final(table).next_id() <= old(table).next_id() + old(self).pending().len(),
            final(self).resolved().len() == old(self).resolved().len() + old(
                self,
            ).pending().len(),
            forall|i: int|
                0 <= i < old(self).resolved().len() ==> #[trigger] final(self).resolved()[i]
                    == old(self).resolved()[i],
            forall|i: int|
                0 <= i < old(self).pending().len() ==> (#[trigger] final(self).resolved()[old(
                    self,
                ).resolved().len() + i]).0 == old(self).pending()[i].0,
            old(self).pending().len() == 0 ==> (*final(self) == *old(self) && *final(table)
                == *old(table)),
    {
        let ghost g0 = *old(self);
        let ghost t0 = *old(table);
        let ghost n0 = g0.pending().len();
        let ghost r0 = g0.resolved().len();
        proof {
            assert(g0.pending().subrange(0, n0 as int) =~= g0.pending());
        }
        while self.pending_len() > 0
            invariant
                self.wf(),
                table.wf(),
                t0.next_id() + n0 <= 0x7fff_ffff,
                self.pending().len() <= n0,
                self.pending() == g0.pending().subrange(
                    n0 - self.pending().len(),
                    n0 as int,
                ),
                self.resolved().len() == r0 + (n0 - self.pending().len()),
                self.next_ticket() == g0.next_ticket(),
                self.n_workers() == g0.n_workers(),
                self.url() == g0.url(),
                forall|i: int|
                    0 <= i < g0.n_workers() ==> #[trigger] self.pool_cap(i) == g0.pool_cap(i)
                        && self.pool_idle_floor(i) == g0.pool_idle_floor(i),
                forall|i: int|
                    0 <= i < r0 ==> #[trigger] self.resolved()[i] == g0.resolved()[i],
                forall|i: int|
                    0 <= i < n0 - self.pending().len() ==> (#[trigger] self.resolved()[r0 + i]).0
                        == g0.pending()[i].0,
                table.next_id() + self.pending().len() <= t0.next_id() + n0,
                self.pending().len() == n0 ==> (*self == g0 && *table == t0),
            decreases self.pending().len(),
        {
            let ghost before = *self;
            let ghost done = n0 - before.pending().len();
            let ghost cur_len = before.pending().len() as int;
            let served_ticket = self.step(table);
            proof {
                assert(before.pending() == g0.pending().subrange(done, n0 as int));
                assert(g0.pending().subrange(done, n0 as int)[0] == g0.pending()[done]);
                assert(before.pending()[0] == g0.pending()[done]);
                assert(self.pending() == before.pending().subrange(1, cur_len));
                assert forall|j: int| 0 <= j < self.pending().len() implies #[trigger] self
                    .pending()[j] == g0.pending()[done + 1 + j] by {
                    assert(self.pending()[j] == before.pending().subrange(1, cur_len)[j]);
                    assert(before.pending()[j + 1] == g0.pending().subrange(done, n0 as int)[j
                        + 1]);
                }
                assert(self.pending() =~= g0.pending().subrange(
                    n0 - self.pending().len(),
                    n0 as int,
                ));
                assert(self.resolved().last().0 == g0.pending()[done].0);
                assert forall|i: int|
                    0 <= i < n0 - self.pending().len() implies (#[trigger] self.resolved()[r0
                    + i]).0 == g0.pending()[i].0 by {
                    if i < done {
                        assert(self.resolved()[r0 + i] == before.resolved()[r0 + i]);
                    } else {
                        assert(r0 + i == self.resolved().len() - 1);
                    }
                }
            }
        }
        proof {
            assert(self.pending() =~= Seq::<(u32, TypedRequest)>::empty());
            assert forall|i: int|
                0 <= i < old(self).n_workers() implies #[trigger] self.pool_cap(i) == old(
                self,
            ).pool_cap(i) && self.pool_idle_floor(i) == old(self).pool_idle_floor(i) by {
                assert(g0.pool_cap(i) == old(self).pool_cap(i));
                assert(g0.pool_idle_floor(i) == old(self).pool_idle_floor(i));
            }
        }
    }

    /// Consume the reply a ticket resolved with, if it has: a reply channel
    /// is single-use, so the reply leaves the group's hands.  `None` means
    /// the ticket is still queued, already consumed, or never issued.
    #[verifier::loop_isolation(false)]
    #[verifier::rlimit(50)]
    pub fn take_reply(&mut self, ticket: u32) -> (r: Option<TypedResult>)
        requires
            old(self).wf(),
        ensures
            final(self).wf(),
            final(self).pending() == old(self).pending(),
            final(self).next_ticket() == old(self).next_ticket(),
            final(self).workers() == old(self).workers(),
            final(self).turn() == old(self).turn(),
            final(self).url() == old(self).url(),
            (exists|i: int|
                0 <= i < old(self).resolved().len() && (#[trigger] old(self).resolved()[i]).0
                    == ticket) ==> (r matches Some(res) && exists|i: int|
                0 <= i < old(self).resolved().len() && #[trigger] old(self).resolved()[i] == (
                ticket,
                res,
                ) && final(self).resolved() == old(self).resolved().remove(i)),
            !(exists|i: int|
                0 <= i < old(self).resolved().len() && (#[trigger] old(self).resolved()[i]).0
                    == ticket) ==> (r is None && final(self).resolved() == old(self).resolved()),
    {
        let n = self.resolved.len();
        let mut i: usize = 0;
        while i < n
            invariant
                n == self.resolved@.len(),
                i <= n,
                *self == *old(self),
                forall|j: int| 0 <= j < i ==> (#[trigger] self.resolved()[j]).0 != ticket,
            decreases n - i,
        {
            if self.resolved[i].0 == ticket {
                let entry = self.resolved.remove(i);
                proof {
                    old(self).resolved().remove_ensures(i as int);
                    assert(old(self).resolved()[i as int] == (ticket, entry.1));
                    assert(self.resolved() == old(self).resolved().remove(i as int));
                    assert forall|a: int|
                        0 <= a < self.resolved().len() implies (#[trigger] self.resolved()[a]).0
                        < self.next_ticket() by {
                        if a < i {
                            assert(old(self).resolved().remove(i as int)[a] == old(
                                self,
                            ).resolved()[a]);
                            assert(self.resolved()[a] == old(self).resolved()[a]);
                            assert((old(self).resolved()[a]).0 < old(self).next_ticket());
                        } else {
                            assert(old(self).resolved().remove(i as int)[a] == old(
                                self,
                            ).resolved()[a + 1]);
                            assert(self.resolved()[a] == old(self).resolved()[a + 1]);
                            assert((old(self).resolved()[a + 1]).0 < old(self).next_ticket());
                        }
                    }
                    assert forall|a: int, b: int|
                        0 <= a < b < self.resolved().len() implies self.resolved()[a].0
                        != self.resolved()[b].0 by {
                        let a0 = if a < i { a } else { a + 1 };
                        let b0 = if b < i { b } else { b + 1 };
                        assert(old(self).resolved().remove(i as int)[a] == old(self).resolved()[a0]);
                        assert(old(self).resolved().remove(i as int)[b] == old(self).resolved()[b0]);
                        assert(self.resolved()[a] == old(self).resolved()[a0]);
                        assert(self.resolved()[b] == old(self).resolved()[b0]);
                    }
                    assert forall|a: int, b: int|
                        0 <= a < self.pending().len() && 0 <= b < self.resolved().len() implies self
                        .pending()[a].0 != self.resolved()[b].0 by {
                        let b0 = if b < i { b } else { b + 1 };
                        assert(old(self).resolved().remove(i as int)[b] == old(self).resolved()[b0]);
                        assert(self.resolved()[b] == old(self).resolved()[b0]);
                        assert(self.pending()[a] == old(self).pending()[a]);
                    }
                    assert forall|a: int|
                        0 <= a < self.pending().len() implies (#[trigger] self.pending()[a]).0
                        < self.next_ticket() by {
                        assert(self.pending()[a] == old(self).pending()[a]);
                    }
                    assert forall|a: int, b: int|
                        0 <= a < b < self.pending().len() implies self.pending()[a].0
                        != self.pending()[b].0 by {
                        assert(self.pending()[a] == old(self).pending()[a]);
                        assert(self.pending()[b] == old(self).pending()[b]);
                    }
                }
                return Some(entry.1);
            }
            i = i + 1;
        }
        None
    }

    /// Dispatch one unit of work and wait for its reply: the queued backlog
    /// is served first (each backlog ticket resolving exactly once, in queue
    /// order), then this request, whose reply is consumed and returned.  On
    /// a group with an empty inbox the reply is exactly what `served` says
    /// of the request, the worker whose turn it is, and the table.
    #[verifier::rlimit(50)]
    pub fn dispatch_and_await(&mut self, req: TypedRequest, table: &mut SessionTable) -> (r:
        TypedResult)
        requires
            old(self).wf(),
            old(table).wf(),
            old(self).next_ticket() < 0xffff_ffff,
            old(table).next_id() + old(self).pending().len() + 1 <= 0x7fff_ffff,
        ensures
            final(self).wf(),
            final(table).wf(),
            final(self).pending().len() == 0,
            final(self).next_ticket() == old(self).next_ticket() + 1,
            final(self).n_workers() == old(self).n_workers(),
            final(self).url() == old(self).url(),
            forall|i: int|
                0 <= i < old(self).n_workers() ==> #[trigger] final(self).pool_cap(i) == old(
                    self,
                ).pool_cap(i) && final(self).pool_idle_floor(i) == old(self).pool_idle_floor(i),
            final(table).next_id() <= old(table).next_id() + old(self).pending().len() + 1,
            final(self).resolved().len() == old(self).resolved().len() + old(
                self,
            ).pending().len(),
            forall|i: int|
                0 <= i < old(self).resolved().len() ==> #[trigger] final(self).resolved()[i]
                    == old(self).resolved()[i],
            forall|i: int|
                0 <= i < old(self).pending().len() ==> (#[trigger] final(self).resolved()[old(
                    self,
                ).resolved().len() + i]).0 == old(self).pending()[i].0,
            old(self).pending().len() == 0 ==> served(
                req,
                old(self).pool_leases(old(self).turn() as int) < old(self).pool_cap(
                    old(self).turn() as int,
                ),
                *old(table),
                *final(table),
                r,
            ),
            old(self).pending().len() == 0 ==> final(self).resolved() == old(self).resolved(),
            (old(self).pending().len() == 0 && !(req matches TypedRequest::Lease(_)))
                ==> forall|i: int|
                0 <= i < old(self).n_workers() ==> #[trigger] final(self).pool_leases(i) == old(
                    self,
                ).pool_leases(i),
            (old(self).pending().len() == 0 && (req matches TypedRequest::Lease(_)))
                ==> forall|i: int|
                0 <= i < old(self).n_workers() && i != old(self).turn() as int
                    ==> #[trigger] final(self).pool_leases(i) == old(self).pool_leases(i),
            (req matches TypedRequest::Select(_)) ==> (r matches TypedResult::Rows(Ok(_))),
            (req matches TypedRequest::Write(_)) ==> (r matches TypedResult::Rows(_)),
            (req matches TypedRequest::Delete(_)) ==> (r matches TypedResult::Count(_)),
            (req matches TypedRequest::Lease(_)) ==> (r matches TypedResult::Connection(_)),
    {
        self.run_pending(table);
        let ghost drained = *self;
        let ghost greq = req;
        let t = self.dispatch(req);
        proof {
            assert(self.pending() == drained.pending().push((t, greq)));
            assert(self.pending().len() == 1);
            assert(self.pending()[0] == (t, greq));
        }
        let ghost queued = *self;
        let ghost mid_table = *table;
        let stepped = self.step(table);
        proof {
            assert(WorkerGroup::step_serves(queued, *self, mid_table, *table));
            assert(self.resolved().last().0 == t);
            assert(served(
                greq,
                queued.pool_leases(queued.turn() as int) < queued.pool_cap(queued.turn() as int),
                mid_table,
                *table,
                self.resolved().last().1,
            ));
        }
        let ghost ready = *self;
        let got = self.take_reply(t);
        match got {
            Some(reply) => {
                proof {
                    let j = choose|j: int|
                        0 <= j < ready.resolved().len() && ready.resolved()[j] == (t, reply)
                            && self.resolved() == ready.resolved().remove(j);
                    assert(ready.resolved()[ready.resolved().len() - 1].0 == t);
                    if j < ready.resolved().len() - 1 {
                        assert(ready.resolved()[j].0 != ready.resolved()[ready.resolved().len()
                            - 1].0);
                        assert(false);
                    }
                    assert(reply == ready.resolved().last().1);
                    ready.resolved().remove_ensures(j);
                    assert(self.resolved() =~= ready.resolved().subrange(
                        0,
                        ready.resolved().len() - 1,
                    ));
                    assert forall|i: int|
                        0 <= i < old(self).resolved().len() implies #[trigger] self.resolved()[i]
                        == old(self).resolved()[i] by {
                        assert(ready.resolved()[i] == drained.resolved()[i]);
                    }
                    assert forall|i: int|
                        0 <= i < old(self).pending().len() implies (#[trigger] self.resolved()[old(
                        self,
                        ).resolved().len() + i]).0 == old(self).pending()[i].0 by {
                        assert(ready.resolved()[old(self).resolved().len() + i]
                            == drained.resolved()[old(self).resolved().len() + i]);
                    }
                    assert forall|i: int|
                        0 <= i < old(self).n_workers() implies #[trigger] self.pool_cap(i) == old(
                        self,
                        ).pool_cap(i) && self.pool_idle_floor(i) == old(self).pool_idle_floor(
                        i,
                    ) by {
                        assert(drained.pool_cap(i) == old(self).pool_cap(i));
                        assert(drained.pool_idle_floor(i) == old(self).pool_idle_floor(i));
                        assert(queued.workers() == drained.workers());
                        assert(ready.pool_cap(i) == queued.pool_cap(i));
                        assert(ready.pool_idle_floor(i) == queued.pool_idle_floor(i));
                        assert(self.workers() == ready.workers());
                    }
                    if old(self).pending().len() == 0 {
                        assert(self.resolved() =~= old(self).resolved());
                        assert(mid_table == *old(table));
                        assert(queued.turn() == old(self).turn());
                        if !(greq matches TypedRequest::Lease(_)) {
                            assert forall|i: int|
                                0 <= i < old(self).n_workers() implies #[trigger] self.pool_leases(
                                i,
                            ) == old(self).pool_leases(i) by {
                                assert(drained == *old(self));
                                assert(queued.workers() == drained.workers());
                                assert(ready.pool_leases(i) == queued.pool_leases(i));
                                assert(self.workers() == ready.workers());
                            }
                        } else {
                            assert forall|i: int|
                                0 <= i < old(self).n_workers() && i != old(self).turn()
                                    as int implies #[trigger] self.pool_leases(i) == old(
                                self,
                            ).pool_leases(i) by {
                                assert(drained == *old(self));
                                assert(queued.workers() == drained.workers());
                                assert(ready.pool_leases(i) == queued.pool_leases(i));
                                assert(self.workers() == ready.workers());
                            }
                        }
                    }
                }
                reply
            },
            None => {
                proof {
                    assert(ready.resolved()[ready.resolved().len() - 1].0 == t);
                    assert(false);
                }
                TypedResult::Count(Err(DbError::NotFound))
            },
        }
    }
}

/// Law: no reply channel is ever resolved more than once — the resolved
/// tickets of a well-formed group are pairwise distinct.
pub proof fn lemma_no_double_reply(g: &WorkerGroup)
    requires
        g.wf(),
    ensures
        forall|i: int, j: int|
            0 <= i < j < g.resolved().len() ==> g.resolved()[i].0 != g.resolved()[j].0,
{
}

} // verus!
