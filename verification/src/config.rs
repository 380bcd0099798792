//! Configuration of the bridge.
//!
//! Two connection strings are required — one read-oriented, one
//! write-oriented — and the pool sizing is explicit: worker count, maximum
//! connections per pool, minimum idle connections.  The configuration
//! variables' names are fixed here; reading them from the environment is
//! the caller's affair.

use vstd::prelude::*;

use crate::group::WorkerGroup;

verus! {

/// Which of the two connection strings a group is for: `Read` for the
/// read-only replica, `Write` for the writeable database.
#[derive(Clone, Copy, Debug, PartialEq, Eq, Structural)]
pub enum ConnectionType {
    Read,
    Write,
}

/// Explicit configuration for the bridge's startup: the two required
/// connection strings and the pool sizing.
pub struct DbConfig {
    pub read_url: String,
    pub write_url: String,
    pub worker_count: u32,
    pub max_pool_size: u32,
    pub min_idle: u32,
}

impl DbConfig {
    /// A configuration is usable with at least one worker and room for at
    /// least one connection per pool.
    pub open spec fn wf(&self) -> bool {
        1 <= self.worker_count && 1 <= self.max_pool_size
    }

    /// A configuration with the default sizing: three workers, at most
    /// three connections per pool, none kept idle.
    pub fn new(read_url: String, write_url: String) -> (c: DbConfig)
        ensures
            c.wf(),
            c.read_url@ == read_url@,
            c.write_url@ == write_url@,
            c.worker_count == 3,
            c.max_pool_size == 3,
            c.min_idle == 0,
    {
        DbConfig { read_url, write_url, worker_count: 3, max_pool_size: 3, min_idle: 0 }
    }
}

/// The configuration variable that must hold each connection string; its
/// absence is a fatal startup error, decided by the caller that reads the
/// environment.
pub fn config_var_name(conn_type: ConnectionType) -> (s: &'static str)
    ensures
        conn_type is Read ==> s@ == "DB_READ_URL"@,
        conn_type is Write ==> s@ == "DB_WRITE_URL"@,
{
    match conn_type {
        ConnectionType::Read => "DB_READ_URL",
        ConnectionType::Write => "DB_WRITE_URL",
    }
}

/// Start one executor group for the chosen connection string: the
/// configured number of workers, each with its own fresh pool capped at the
/// configured maximum, all idle over an empty inbox.
pub fn db_setup(conn_type: ConnectionType, config: &DbConfig) -> (g: WorkerGroup)
    requires
        config.wf(),
    ensures
        g.wf(),
        g.n_workers() == config.worker_count,
        forall|i: int|
            0 <= i < g.n_workers() ==> #[trigger] g.pool_cap(i) == config.max_pool_size
                && g.pool_leases(i) == 0 && g.pool_idle_floor(i) == config.min_idle,
        g.pending().len() == 0,
        g.resolved().len() == 0,
        g.next_ticket() == 0,
        g.turn() == 0,
        g.all_available(),
        conn_type is Read ==> g.url() == config.read_url@,
        conn_type is Write ==> g.url() == config.write_url@,
{
    let url = match conn_type {
        ConnectionType::Read => config.read_url.clone(),
        ConnectionType::Write => config.write_url.clone(),
    };
    WorkerGroup::new(config.worker_count, config.max_pool_size, config.min_idle, url)
}

/// The two executor groups an application holds: one dispatching to the
/// read-oriented database, one to the write-oriented one.
pub struct AppState {
    pub rdb: WorkerGroup,
    pub wdb: WorkerGroup,
}

impl AppState {
    /// Both groups, from one configuration.
    pub fn new(config: &DbConfig) -> (s: AppState)
        requires
            config.wf(),
        ensures
            s.rdb.wf(),
            s.wdb.wf(),
            s.rdb.url() == config.read_url@,
            s.wdb.url() == config.write_url@,
            s.rdb.pending().len() == 0,
            s.wdb.pending().len() == 0,
            s.rdb.all_available(),
            s.wdb.all_available(),
    {
        AppState {
            rdb: db_setup(ConnectionType::Read, config),
            wdb: db_setup(ConnectionType::Write, config),
        }
    }
}

} // verus!
