//! The typed units of work and the worker that executes them.
//!
//! A `DbExecutor` is one worker: it privately owns one `ResourcePool`, and
//! for each unit of work it leases a connection, runs the work against the
//! session relation, releases the connection, and shapes the reply.  A pool
//! failure is never propagated as such: a rows-shaped unit of work gets an
//! empty success and a count- or connection-shaped one a NotFound error —
//! a deliberate, documented quirk of the bridge.

use vstd::prelude::*;

use crate::pool::{LeasedConnection, PoolError, ResourcePool};
use crate::table::{
    rows_matching, rows_updated, rows_without, views_of, RowView, SessionTable, UserSession,
};

verus! {

/// A failure the storage itself reported for a unit of work.
#[derive(Clone, Copy, Debug, PartialEq, Eq, Structural)]
pub enum DbError {
    /// No row or connection was there to act on.
    NotFound,
    /// The storage rejected the unit of work, as on a constraint violation.
    QueryFailed,
}

/// Failure of a reply channel: the worker side of a dispatch disappeared
/// before the reply arrived.
#[derive(Clone, Copy, Debug, PartialEq, Eq, Structural)]
pub enum MailboxError {
    /// The inbox was gone before the request could be delivered.
    Closed,
    /// No reply arrived within the caller's patience.
    Timeout,
}

/// Everything that can go wrong between a caller and the storage.
#[derive(Clone, Copy, Debug, PartialEq, Eq, Structural)]
pub enum DbExecutorError {
    /// The storage reported a failure; it is passed on verbatim.
    DatabaseError(DbError),
    /// The reply channel failed before a reply arrived.
    MailBoxError(MailboxError),
    /// A failure nothing else describes.
    Unknown,
}

impl From<DbError> for DbExecutorError {
    fn from(error: DbError) -> (r: Self) {
        DbExecutorError::DatabaseError(error)
    }
}

impl vstd::std_specs::convert::FromSpecImpl<DbError> for DbExecutorError {
    open spec fn obeys_from_spec() -> bool {
        true
    }

    open spec fn from_spec(error: DbError) -> Self {
        DbExecutorError::DatabaseError(error)
    }
}

impl From<MailboxError> for DbExecutorError {
    fn from(error: MailboxError) -> (r: Self) {
        DbExecutorError::MailBoxError(error)
    }
}

impl vstd::std_specs::convert::FromSpecImpl<MailboxError> for DbExecutorError {
    open spec fn obeys_from_spec() -> bool {
        true
    }

    open spec fn from_spec(error: MailboxError) -> Self {
        DbExecutorError::MailBoxError(error)
    }
}

/// A select unit of work: read the rows whose key is `filter_key`.
pub struct SQuery {
    pub filter_key: String,
}

/// What a write unit of work does to the session relation.
pub enum WriteOp {
    /// Insert a fresh row for `skey` carrying `sdata`.
    Insert { skey: String, sdata: String },
    /// Set the data of every row whose key is `skey` to `sdata`.
    UpdateByKey { skey: String, sdata: String },
}

/// A write unit of work; the storage reports back the rows it touched.
pub struct WQuery {
    pub write: WriteOp,
}

/// A delete unit of work: remove the rows whose key is `delete_key`; the
/// storage reports back how many went.
pub struct DQuery {
    pub delete_key: String,
}

/// A request for a raw connection lease.  Generally, try to avoid it: the
/// connection leaves the worker's pool until the caller gives it back.
pub struct Conn;

/// One typed unit of work, tagged with the shape of its reply.
pub enum TypedRequest {
    /// Replied to with rows.
    Select(SQuery),
    /// Replied to with the rows touched.
    Write(WQuery),
    /// Replied to with a count.
    Delete(DQuery),
    /// Replied to with a leased connection.
    Lease(Conn),
}

/// The one reply a dispatch eventually receives.
pub enum TypedResult {
    /// Reply to a select or write unit of work.
    Rows(Result<Vec<UserSession>, DbError>),
    /// Reply to a delete unit of work.
    Count(Result<usize, DbError>),
    /// Reply to a connection-lease request.
    Connection(Result<LeasedConnection, DbError>),
}

/// The reply for a rows-shaped unit of work whose connection could not be
/// leased: the pool failure is swallowed into an empty success, so a caller
/// cannot tell a busy pool from an absent row.
pub fn pool_failure_rows_reply(failure: PoolError) -> (r: Result<Vec<UserSession>, DbError>)
    ensures
        r matches Ok(rows) && rows@.len() == 0,
{
    match failure {
        PoolError::Exhausted => Ok(Vec::new()),
    }
}

/// The reply for a count- or connection-shaped unit of work whose connection
/// could not be leased: a NotFound-shaped error.
pub fn pool_failure_not_found(failure: PoolError) -> (r: DbError)
    ensures
        r == DbError::NotFound,
{
    match failure {
        PoolError::Exhausted => DbError::NotFound,
    }
}

/// One worker.  It owns exactly one connection pool, which it shares with
/// nobody, and serves one unit of work at a time.
pub struct DbExecutor {
    pub pool: ResourcePool,
}

impl DbExecutor {
    /// Worker invariant: its private pool is within bounds.
    pub open spec fn wf(&self) -> bool {
        self.pool.wf()
    }

    /// Serve a select: lease, read, release.  With the pool exhausted the
    /// caller gets an empty success, not an error.
    pub fn handle_select(&mut self, msg: &SQuery, table: &SessionTable) -> (r: Result<
        Vec<UserSession>,
        DbError,
    >)
        requires
            old(self).wf(),
        ensures
            final(self).wf(),
            final(self).pool.cap() == old(self).pool.cap(),
            final(self).pool.idle_floor() == old(self).pool.idle_floor(),
            final(self).pool.leases() == old(self).pool.leases(),
            old(self).pool.leases() < old(self).pool.cap() ==> (r matches Ok(rows)
                && views_of(rows@) == rows_matching(table.rows(), msg.filter_key@)),
            old(self).pool.leases() >= old(self).pool.cap() ==> (r matches Ok(rows) && rows@.len()
                == 0),
    {
        match self.pool.acquire() {
            Ok(conn) => {
                let rows = table.select_by_key(&msg.filter_key);
                self.pool.release(conn);
                Ok(rows)
            },
            Err(failure) => pool_failure_rows_reply(failure),
        }
    }

    /// Serve a write: lease, insert or update, release.  With the pool
    /// exhausted the caller gets an empty success and nothing is written.
    pub fn handle_write(&mut self, msg: &WQuery, table: &mut SessionTable) -> (r: Result<
        Vec<UserSession>,
        DbError,
    >)
        requires
            old(self).wf(),
            old(table).wf(),
            old(table).next_id() < 0x7fff_ffff,
        ensures
            final(self).wf(),
            final(table).wf(),
            final(self).pool.cap() == old(self).pool.cap(),
            final(self).pool.idle_floor() == old(self).pool.idle_floor(),
            final(self).pool.leases() == old(self).pool.leases(),
            final(table).next_id() <= old(table).next_id() + 1,
            old(self).pool.leases() >= old(self).pool.cap() ==> (r matches Ok(rows) && rows@.len()
                == 0 && final(table).rows() == old(table).rows() && final(table).next_id() == old(
                table,
            ).next_id()),
            old(self).pool.leases() < old(self).pool.cap() ==> match msg.write {
                WriteOp::Insert { skey, sdata } => {
                    &&& final(table).rows() == old(table).rows().push(
                        RowView { id: old(table).next_id(), skey: skey@, sdata: Some(sdata@) },
                    )
                    &&& final(table).next_id() == old(table).next_id() + 1
                    &&& r matches Ok(rows) && views_of(rows@) == seq![
                        RowView { id: old(table).next_id(), skey: skey@, sdata: Some(sdata@) },
                    ]
                },
                WriteOp::UpdateByKey { skey, sdata } => {
                    &&& final(table).rows() == rows_updated(old(table).rows(), skey@, sdata@)
                    &&& final(table).next_id() == old(table).next_id()
                    &&& r matches Ok(rows) && views_of(rows@) == rows_matching(
                        final(table).rows(),
                        skey@,
                    )
                },
            },
    {
        match self.pool.acquire() {
            Ok(conn) => {
                let rows = match &msg.write {
                    WriteOp::Insert { skey, sdata } => {
                        let row = table.insert_row(skey.clone(), sdata.clone());
                        let mut rows: Vec<UserSession> = Vec::new();
                        rows.push(row);
                        proof {
                            assert(views_of(rows@) =~= seq![
                                RowView {
                                    id: old(table).next_id(),
                                    skey: skey@,
                                    sdata: Some(sdata@),
                                },
                            ]);
                        }
                        rows
                    },
                    WriteOp::UpdateByKey { skey, sdata } => table.update_by_key(skey, sdata),
                };
                self.pool.release(conn);
                Ok(rows)
            },
            Err(failure) => pool_failure_rows_reply(failure),
        }
    }

    /// Serve a delete: lease, delete, release.  With the pool exhausted the
    /// caller gets a NotFound-shaped error — unlike a select or a write.
    pub fn handle_delete(&mut self, msg: &DQuery, table: &mut SessionTable) -> (r: Result<
        usize,
        DbError,
    >)
        requires
            old(self).wf(),
            old(table).wf(),
        ensures
            final(self).wf(),
            final(table).wf(),
            final(self).pool.cap() == old(self).pool.cap(),
            final(self).pool.idle_floor() == old(self).pool.idle_floor(),
            final(self).pool.leases() == old(self).pool.leases(),
            final(table).next_id() == old(table).next_id(),
            old(self).pool.leases() >= old(self).pool.cap() ==> (r == Err::<usize, DbError>(
                DbError::NotFound,
            ) && final(table).rows() == old(table).rows()),
            old(self).pool.leases() < old(self).pool.cap() ==> (r matches Ok(n) && n
                == rows_matching(old(table).rows(), msg.delete_key@).len() && final(table).rows()
                == rows_without(old(table).rows(), msg.delete_key@)),
    {
        match self.pool.acquire() {
            Ok(conn) => {
                let n = table.delete_by_key(&msg.delete_key);
                self.pool.release(conn);
                Ok(n)
            },
            Err(failure) => Err(pool_failure_not_found(failure)),
        }
    }

    /// Serve a raw-connection request: the lease itself is handed to the
    /// caller, and the pool stays one connection short until it comes back.
    /// With the pool exhausted the caller gets a NotFound-shaped error.
    pub fn handle_conn(&mut self, _msg: Conn) -> (r: Result<LeasedConnection, DbError>)
        requires
            old(self).wf(),
        ensures
            final(self).wf(),
            final(self).pool.cap() == old(self).pool.cap(),
            final(self).pool.idle_floor() == old(self).pool.idle_floor(),
            (r is Ok) <==> old(self).pool.leases() < old(self).pool.cap(),
            r is Ok ==> final(self).pool.leases() == old(self).pool.leases() + 1,
            r is Err ==> final(self).pool.leases() == old(self).pool.leases(),
            r matches Err(e) ==> e == DbError::NotFound,
    {
        match self.pool.acquire() {
            Ok(conn) => Ok(conn),
            Err(failure) => Err(pool_failure_not_found(failure)),
        }
    }
}

} // verus!
