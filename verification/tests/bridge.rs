use db_bridge::config::{db_setup, config_var_name, AppState, ConnectionType, DbConfig};
use db_bridge::executor::{
    Conn, DQuery, DbError, DbExecutor, DbExecutorError, MailboxError, SQuery, TypedRequest,
    TypedResult, WQuery, WriteOp,
};
use db_bridge::group::WorkerGroup;
use db_bridge::pool::{PoolError, ResourcePool};
use db_bridge::table::SessionTable;

fn select(key: &str) -> TypedRequest {
    TypedRequest::Select(SQuery {
        filter_key: key.to_string(),
    })
}

fn insert(key: &str, data: &str) -> TypedRequest {
    TypedRequest::Write(WQuery {
        write: WriteOp::Insert {
            skey: key.to_string(),
            sdata: data.to_string(),
        },
    })
}

#[test]
fn pool_enforces_cap() {
    let mut pool = ResourcePool::new(2, 0);
    let a = pool.acquire().unwrap();
    let b = pool.acquire().unwrap();
    match pool.acquire() {
        Err(PoolError::Exhausted) => {}
        Ok(_) => panic!("a third lease must not exist for a pool of two"),
    }
    pool.release(a);
    let c = pool.acquire().unwrap();
    pool.release(b);
    pool.release(c);
}

#[test]
fn select_empty_success_on_exhausted_pool() {
    let mut table = SessionTable::new();
    table.insert_row("alice".to_string(), "data".to_string());
    let mut worker = DbExecutor {
        pool: ResourcePool::new(1, 0),
    };
    let lease = worker.handle_conn(Conn).unwrap();
    let q = SQuery {
        filter_key: "alice".to_string(),
    };
    let rows = worker.handle_select(&q, &table).unwrap();
    assert_eq!(rows.len(), 0);
    worker.pool.release(lease);
    let rows = worker.handle_select(&q, &table).unwrap();
    assert_eq!(rows.len(), 1);
    assert_eq!(rows[0].skey, "alice".to_string());
    assert_eq!(rows[0].sdata, Some("data".to_string()));
}

#[test]
fn write_empty_success_on_exhausted_pool() {
    let mut table = SessionTable::new();
    let mut worker = DbExecutor {
        pool: ResourcePool::new(1, 0),
    };
    let lease = worker.handle_conn(Conn).unwrap();
    let q = WQuery {
        write: WriteOp::Insert {
            skey: "alice".to_string(),
            sdata: "data".to_string(),
        },
    };
    let rows = worker.handle_write(&q, &mut table).unwrap();
    assert_eq!(rows.len(), 0);
    assert_eq!(table.select_by_key(&"alice".to_string()).len(), 0);
    worker.pool.release(lease);
    let rows = worker.handle_write(&q, &mut table).unwrap();
    assert_eq!(rows.len(), 1);
    assert_eq!(rows[0].id, 1);
    assert_eq!(table.select_by_key(&"alice".to_string()).len(), 1);
}

#[test]
fn delete_not_found_on_exhausted_pool() {
    let mut table = SessionTable::new();
    table.insert_row("alice".to_string(), "data".to_string());
    let mut worker = DbExecutor {
        pool: ResourcePool::new(1, 0),
    };
    let lease = worker.handle_conn(Conn).unwrap();
    let q = DQuery {
        delete_key: "alice".to_string(),
    };
    assert_eq!(worker.handle_delete(&q, &mut table), Err(DbError::NotFound));
    assert_eq!(table.select_by_key(&"alice".to_string()).len(), 1);
    worker.pool.release(lease);
    assert_eq!(worker.handle_delete(&q, &mut table), Ok(1));
    assert_eq!(table.select_by_key(&"alice".to_string()).len(), 0);
}

#[test]
fn conn_not_found_on_exhausted_pool() {
    let mut worker = DbExecutor {
        pool: ResourcePool::new(1, 0),
    };
    let lease = worker.handle_conn(Conn).unwrap();
    match worker.handle_conn(Conn) {
        Err(DbError::NotFound) => {}
        _ => panic!("an exhausted pool must yield NotFound for a lease"),
    }
    worker.pool.release(lease);
    assert!(worker.handle_conn(Conn).is_ok());
}

#[test]
fn dispatch_resolves_each_ticket_once() {
    let mut table = SessionTable::new();
    let mut group = WorkerGroup::new(3, 3, 0, "postgres://w".to_string());
    let mut tickets = Vec::new();
    for i in 0..5 {
        tickets.push(group.dispatch(select(&format!("id{}", i))));
    }
    assert_eq!(group.pending_len(), 5);
    group.run_pending(&mut table);
    assert_eq!(group.pending_len(), 0);
    for t in tickets {
        match group.take_reply(t) {
            Some(TypedResult::Rows(Ok(rows))) => assert_eq!(rows.len(), 0),
            other => panic!("ticket {} must resolve once with rows, got {:?}", t, other.is_some()),
        }
        assert!(group.take_reply(t).is_none(), "a reply channel is single-use");
    }
}

#[test]
fn saturated_dispatches_all_complete() {
    let mut table = SessionTable::new();
    let mut group = WorkerGroup::new(3, 3, 0, "postgres://w".to_string());
    let mut tickets = Vec::new();
    for i in 0..5 {
        tickets.push(group.dispatch(insert(&format!("id{}", i), "d")));
    }
    group.run_pending(&mut table);
    for t in tickets {
        assert!(group.take_reply(t).is_some(), "no dispatch may be dropped");
    }
    for i in 0..5 {
        let key = format!("id{}", i);
        assert_eq!(table.select_by_key(&key).len(), 1);
    }
}

#[test]
fn group_swallows_pool_failure_per_request_shape() {
    let mut table = SessionTable::new();
    table.insert_row("alice".to_string(), "data".to_string());
    let mut group = WorkerGroup::new(3, 1, 0, "postgres://w".to_string());
    for _ in 0..3 {
        match group.dispatch_and_await(TypedRequest::Lease(Conn), &mut table) {
            TypedResult::Connection(Ok(_)) => {}
            _ => panic!("a fresh pool must lease"),
        }
    }
    match group.dispatch_and_await(select("alice"), &mut table) {
        TypedResult::Rows(Ok(rows)) => assert_eq!(rows.len(), 0),
        _ => panic!("an exhausted pool must yield an empty success for a select"),
    }
    match group.dispatch_and_await(
        TypedRequest::Delete(DQuery {
            delete_key: "alice".to_string(),
        }),
        &mut table,
    ) {
        TypedResult::Count(Err(DbError::NotFound)) => {}
        _ => panic!("an exhausted pool must yield NotFound for a delete"),
    }
    assert_eq!(table.select_by_key(&"alice".to_string()).len(), 1);
}

#[test]
fn delete_counts_matching_rows() {
    let mut table = SessionTable::new();
    table.insert_row("alice".to_string(), "a".to_string());
    table.insert_row("alice".to_string(), "b".to_string());
    table.insert_row("bob".to_string(), "c".to_string());
    let mut group = WorkerGroup::new(3, 3, 0, "postgres://w".to_string());
    match group.dispatch_and_await(
        TypedRequest::Delete(DQuery {
            delete_key: "alice".to_string(),
        }),
        &mut table,
    ) {
        TypedResult::Count(Ok(n)) => assert_eq!(n, 2),
        _ => panic!("a delete on a fresh pool must report its count"),
    }
    assert_eq!(table.select_by_key(&"alice".to_string()).len(), 0);
    assert_eq!(table.select_by_key(&"bob".to_string()).len(), 1);
}

#[test]
fn executor_error_wraps_each_source() {
    match DbExecutorError::from(DbError::NotFound) {
        DbExecutorError::DatabaseError(DbError::NotFound) => {}
        other => panic!("wrong wrapping: {:?}", other),
    }
    match DbExecutorError::from(MailboxError::Closed) {
        DbExecutorError::MailBoxError(MailboxError::Closed) => {}
        other => panic!("wrong wrapping: {:?}", other),
    }
    assert_ne!(
        DbExecutorError::from(MailboxError::Timeout),
        DbExecutorError::Unknown
    );
}

#[test]
fn config_defaults_and_variable_names() {
    let cfg = DbConfig::new("postgres://r".to_string(), "postgres://w".to_string());
    assert_eq!(cfg.worker_count, 3);
    assert_eq!(cfg.max_pool_size, 3);
    assert_eq!(cfg.min_idle, 0);
    assert_eq!(config_var_name(ConnectionType::Read), "DB_READ_URL");
    assert_eq!(config_var_name(ConnectionType::Write), "DB_WRITE_URL");
}

#[test]
fn db_setup_starts_idle_groups() {
    let cfg = DbConfig::new("postgres://r".to_string(), "postgres://w".to_string());
    let mut group = db_setup(ConnectionType::Write, &cfg);
    assert_eq!(group.pending_len(), 0);
    let mut table = SessionTable::new();
    match group.dispatch_and_await(select("nobody"), &mut table) {
        TypedResult::Rows(Ok(rows)) => assert_eq!(rows.len(), 0),
        _ => panic!("a fresh group must serve a select"),
    }
    let state = AppState::new(&cfg);
    assert_eq!(state.rdb.pending_len(), 0);
    assert_eq!(state.wdb.pending_len(), 0);
}
