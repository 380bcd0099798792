use db_bridge::group::WorkerGroup;
use db_bridge::session::{DbSession, DbSessionBackend, SessionLoadError};
use db_bridge::table::SessionTable;

fn fresh_backend() -> DbSessionBackend {
    DbSessionBackend {
        wdb: WorkerGroup::new(3, 3, 0, "postgres://w".to_string()),
    }
}

#[test]
fn it_works() {
    assert_eq!(2 + 2, 4);
}

#[test]
fn session_get_set_remove_clear() {
    let mut s = DbSession::new("alice".to_string());
    assert_eq!(s.get("color"), None);
    s.set("color", "green".to_string());
    assert_eq!(s.get("color"), Some(&"green".to_string()));
    s.set("color", "blue".to_string());
    assert_eq!(s.get("color"), Some(&"blue".to_string()));
    s.set("lang", "en".to_string());
    s.remove("color");
    assert_eq!(s.get("color"), None);
    assert_eq!(s.get("lang"), Some(&"en".to_string()));
    s.clear();
    assert_eq!(s.get("lang"), None);
}

#[test]
fn session_round_trip() {
    let mut table = SessionTable::new();
    let mut backend = fresh_backend();
    let mut s = DbSession::new("alice".to_string());
    s.set("color", "green".to_string());
    s.write(&mut backend.wdb, &mut table).unwrap();
    assert_eq!(table.select_by_key(&"alice".to_string()).len(), 1);
    let reloaded = backend
        .from_identity(&mut table, "alice".to_string())
        .unwrap();
    assert_eq!(reloaded.get("color"), Some(&"green".to_string()));
    assert_eq!(reloaded.get("lang"), None);
}

#[test]
fn insert_then_update_keeps_one_row() {
    let mut table = SessionTable::new();
    let mut backend = fresh_backend();
    let mut s = DbSession::new("alice".to_string());
    s.set("count", "1".to_string());
    s.write(&mut backend.wdb, &mut table).unwrap();
    let first = table.select_by_key(&"alice".to_string());
    assert_eq!(first.len(), 1);

    let mut s2 = backend
        .from_identity(&mut table, "alice".to_string())
        .unwrap();
    s2.set("count", "2".to_string());
    s2.write(&mut backend.wdb, &mut table).unwrap();
    let second = table.select_by_key(&"alice".to_string());
    assert_eq!(second.len(), 1, "a second flush must update, not insert");
    assert_eq!(second[0].id, first[0].id, "the same row must be rewritten");
    assert_ne!(second[0].sdata, first[0].sdata);

    let reloaded = backend
        .from_identity(&mut table, "alice".to_string())
        .unwrap();
    assert_eq!(reloaded.get("count"), Some(&"2".to_string()));
}

#[test]
fn load_zero_rows_is_empty_and_unchanged() {
    let mut table = SessionTable::new();
    let mut backend = fresh_backend();
    let s = backend
        .from_identity(&mut table, "nobody".to_string())
        .unwrap();
    assert_eq!(s.get("anything"), None);
    s.write(&mut backend.wdb, &mut table).unwrap();
    assert_eq!(
        table.select_by_key(&"nobody".to_string()).len(),
        0,
        "an unchanged session must not be flushed"
    );
}

#[test]
fn load_two_rows_is_inconclusive() {
    let mut table = SessionTable::new();
    table.insert_row("alice".to_string(), "{}".to_string());
    table.insert_row("alice".to_string(), "{}".to_string());
    let mut backend = fresh_backend();
    match backend.from_identity(&mut table, "alice".to_string()) {
        Err(SessionLoadError::InconclusiveState) => {}
        Ok(_) => panic!("two rows for one identity must not produce a session"),
    }
}

#[test]
fn unreadable_data_yields_empty_map() {
    let mut table = SessionTable::new();
    table.insert_row("alice".to_string(), "not a session value".to_string());
    let mut backend = fresh_backend();
    let s = backend
        .from_identity(&mut table, "alice".to_string())
        .unwrap();
    assert_eq!(s.get("color"), None);
}

#[test]
fn handwritten_pairs_decode_last_wins() {
    let mut table = SessionTable::new();
    table.insert_row(
        "alice".to_string(),
        "[[\"k\",\"first\"],[\"k\",\"second\"]]".to_string(),
    );
    let mut backend = fresh_backend();
    let s = backend
        .from_identity(&mut table, "alice".to_string())
        .unwrap();
    assert_eq!(s.get("k"), Some(&"second".to_string()));
}

#[test]
fn empty_map_still_flushes_when_changed() {
    let mut table = SessionTable::new();
    let mut backend = fresh_backend();
    let mut s = DbSession::new("alice".to_string());
    s.set("tmp", "x".to_string());
    s.remove("tmp");
    s.write(&mut backend.wdb, &mut table).unwrap();
    assert_eq!(table.select_by_key(&"alice".to_string()).len(), 1);
    let reloaded = backend
        .from_identity(&mut table, "alice".to_string())
        .unwrap();
    assert_eq!(reloaded.get("tmp"), None);
}
