//! The server-side session store.
//!
//! A `DbSession` is the in-memory key/value state of one logical session:
//! loaded from the rows stored for an identity, mutated in memory only, and
//! flushed back — insert or update, decided by re-querying the store — when
//! anything changed.  A `DbSessionBackend` owns the executor group the
//! store dispatches through.

use vstd::prelude::*;

use crate::codec::{decode_pairs, encode_pairs, json_of, pairs_view, parsed_pairs};
use crate::executor::{DbExecutorError, SQuery, TypedRequest, TypedResult, WQuery, WriteOp};
use crate::group::WorkerGroup;
use crate::table::{rows_matching, rows_updated, views_of, RowView, SessionTable, UserSession};

verus! {

/// The map a sequence of key/value entries holds, later entries winning.
pub open spec fn kv(entries: Seq<(Seq<char>, Seq<char>)>) -> Map<Seq<char>, Seq<char>>
    decreases entries.len(),
{
    if entries.len() == 0 {
        Map::empty()
    } else {
        kv(entries.drop_last()).insert(entries.last().0, entries.last().1)
    }
}

/// No two entries share a key.
pub open spec fn distinct_keys(entries: Seq<(Seq<char>, Seq<char>)>) -> bool {
    forall|i: int, j: int| 0 <= i < j < entries.len() ==> entries[i].0 != entries[j].0
}

/// No entry has the key `k`.
pub open spec fn keyless(entries: Seq<(Seq<char>, Seq<char>)>, k: Seq<char>) -> bool {
    forall|i: int| 0 <= i < entries.len() ==> (#[trigger] entries[i]).0 != k
}

/// The entries with every entry keyed `k` dropped, in order.
pub open spec fn strip_key(entries: Seq<(Seq<char>, Seq<char>)>, k: Seq<char>) -> Seq<
    (Seq<char>, Seq<char>),
>
    decreases entries.len(),
{
    if entries.len() == 0 {
        Seq::empty()
    } else {
        let prefix = strip_key(entries.drop_last(), k);
        if entries.last().0 == k {
            prefix
        } else {
            prefix.push(entries.last())
        }
    }
}

/// A key held by no entry is absent from the map the entries hold.
proof fn lemma_keyless_absent(entries: Seq<(Seq<char>, Seq<char>)>, k: Seq<char>)
    requires
        keyless(entries, k),
    ensures
        !kv(entries).contains_key(k),
    decreases entries.len(),
{
    if entries.len() > 0 {
        assert(forall|i: int|
            0 <= i < entries.drop_last().len() ==> (#[trigger] entries.drop_last()[i])
                == entries[i]);
        lemma_keyless_absent(entries.drop_last(), k);
        assert(entries.last().0 != k);
    }
}

/// With distinct keys, the entry holding a key decides the map's value at
/// that key.
proof fn lemma_lookup(entries: Seq<(Seq<char>, Seq<char>)>, k: Seq<char>, i: int)
    requires
        distinct_keys(entries),
        0 <= i < entries.len(),
        entries[i].0 == k,
    ensures
        kv(entries).contains_key(k),
        kv(entries)[k] == entries[i].1,
    decreases entries.len(),
{
    if i < entries.len() - 1 {
        assert(forall|a: int, b: int|
            0 <= a < b < entries.drop_last().len() ==> entries.drop_last()[a]
                == entries[a] && entries.drop_last()[b] == entries[b]);
        lemma_lookup(entries.drop_last(), k, i);
        assert(entries.last().0 != k);
    }
}

/// Dropping every entry keyed `k` removes exactly `k` from the held map,
/// leaves the other entries — so distinctness survives — and leaves no
/// entry keyed `k`.
proof fn lemma_strip_key(entries: Seq<(Seq<char>, Seq<char>)>, k: Seq<char>)
    ensures
        kv(strip_key(entries, k)) == kv(entries).remove(k),
        keyless(strip_key(entries, k), k),
        strip_key(entries, k).len() <= entries.len(),
        forall|a: int|
            #![trigger strip_key(entries, k)[a]]
            0 <= a < strip_key(entries, k).len() ==> exists|b: int|
                0 <= b < entries.len() && strip_key(entries, k)[a] == #[trigger] entries[b],
        distinct_keys(entries) ==> distinct_keys(strip_key(entries, k)),
    decreases entries.len(),
{
    if entries.len() == 0 {
        assert(kv(strip_key(entries, k)) =~= kv(entries).remove(k));
    } else {
        let prefix = entries.drop_last();
        let last = entries.last();
        lemma_strip_key(prefix, k);
        if distinct_keys(entries) {
            assert(forall|a: int, b: int|
                0 <= a < b < prefix.len() ==> prefix[a] == entries[a] && prefix[b] == entries[b]);
            assert(distinct_keys(prefix));
        }
        if last.0 == k {
            assert(strip_key(entries, k) == strip_key(prefix, k));
            assert(kv(entries).remove(k) =~= kv(prefix).remove(k));
        } else {
            let s = strip_key(entries, k);
            assert(s == strip_key(prefix, k).push(last));
            assert(s.drop_last() == strip_key(prefix, k));
            assert(kv(s) == kv(strip_key(prefix, k)).insert(last.0, last.1));
            assert(kv(entries).remove(k) =~= kv(prefix).remove(k).insert(last.0, last.1));
            assert forall|a: int|
                0 <= a < s.len() implies (#[trigger] s[a]).0 != k by {
                if a < s.len() - 1 {
                    assert(s[a] == strip_key(prefix, k)[a]);
                }
            }
            if distinct_keys(entries) {
                assert forall|a: int, b: int|
                    0 <= a < b < s.len() implies s[a].0 != s[b].0 by {
                    if b < s.len() - 1 {
                        assert(s[a] == strip_key(prefix, k)[a]);
                        assert(s[b] == strip_key(prefix, k)[b]);
                    } else {
                        assert(s[b] == last);
                        assert(s[a] == strip_key(prefix, k)[a]);
                        let w = choose|w: int|
                            0 <= w < prefix.len() && strip_key(prefix, k)[a] == prefix[w];
                        assert(entries[w] == prefix[w]);
                        assert(entries[w].0 != entries[entries.len() - 1].0);
                    }
                }
            }
        }
    }
}

/// Why a session could not be produced for an identity.
#[derive(Clone, Copy, Debug, PartialEq, Eq, Structural)]
pub enum SessionLoadError {
    /// More than one row is stored for the identity: a data-integrity
    /// violation, after which the session must not be used this request.
    InconclusiveState,
}

/// The in-memory state of one logical session.
pub struct DbSession {
    identity: String,
    changed: bool,
    state: Vec<(String, String)>,
}

impl View for DbSession {
    type V = Map<Seq<char>, Seq<char>>;

    open spec fn view(&self) -> Map<Seq<char>, Seq<char>> {
        kv(self.entries())
    }
}

impl DbSession {
    /// The key/value entries backing the map, in insertion order.
    pub closed spec fn entries(&self) -> Seq<(Seq<char>, Seq<char>)> {
        pairs_view(self.state@)
    }

    /// The identity this session belongs to.
    pub closed spec fn identity(&self) -> Seq<char> {
        self.identity@
    }

    /// Whether anything was mutated since the load — only then is a flush
    /// owed.
    pub closed spec fn changed(&self) -> bool {
        self.changed
    }

    /// Session invariant: one entry per key.
    pub open spec fn wf(&self) -> bool {
        distinct_keys(self.entries())
    }

    /// A fresh, unchanged session with no prior state.
    pub fn new(identity: String) -> (s: DbSession)
        ensures
            s.wf(),
            s@ == Map::<Seq<char>, Seq<char>>::empty(),
            !s.changed(),
            s.identity() == identity@,
    {
        let s = DbSession { identity, changed: false, state: Vec::new() };
        proof {
            assert(s.entries() =~= Seq::<(Seq<char>, Seq<char>)>::empty());
        }
        s
    }

    /// Drop the entry keyed `key`, leaving the changed flag alone.
    #[verifier::loop_isolation(false)]
    fn remove_entry(&mut self, key: &String)
        ensures
            final(self).entries() == strip_key(old(self).entries(), key@),
            final(self).identity() == old(self).identity(),
            final(self).changed() == old(self).changed(),
    {
        let mut kept: Vec<(String, String)> = Vec::new();
        let n = self.state.len();
        let mut i: usize = 0;
        proof {
            assert(pairs_view(kept@) =~= strip_key(
                old(self).entries().subrange(0, 0),
                key@,
            ));
        }
        while i < n
            invariant
                n == self.state@.len(),
                i <= n,
                *self == *old(self),
                pairs_view(kept@) == strip_key(self.entries().subrange(0, i as int), key@),
            decreases n - i,
        {
            proof {
                assert(self.entries().subrange(0, i + 1).drop_last() =~= self.entries().subrange(
                    0,
                    i as int,
                ));
                assert(self.entries().subrange(0, i + 1).last() == self.entries()[i as int]);
            }
            if !(self.state[i].0 == *key) {
                kept.push((self.state[i].0.clone(), self.state[i].1.clone()));
            }
            proof {
                assert(pairs_view(kept@) =~= strip_key(
                    self.entries().subrange(0, i + 1),
                    key@,
                ));
            }
            i = i + 1;
        }
        proof {
            assert(self.entries().subrange(0, n as int) =~= self.entries());
        }
        self.state = kept;
    }

    /// Read the value stored under `key`, if any.  No I/O: only the
    /// in-memory map is consulted.
    #[verifier::loop_isolation(false)]
    pub fn get(&self, key: &str) -> (r: Option<&String>)
        requires
            self.wf(),
        ensures
            r matches Some(v) ==> self@.contains_key(key@) && v@ == self@[key@],
            r is None ==> !self@.contains_key(key@),
    {
        let owned = key.to_owned();
        let n = self.state.len();
        let mut i: usize = 0;
        while i < n
            invariant
                n == self.state@.len(),
                i <= n,
                forall|j: int| 0 <= j < i ==> (#[trigger] self.entries()[j]).0 != key@,
            decreases n - i,
        {
            if self.state[i].0 == owned {
                proof {
                    lemma_lookup(self.entries(), key@, i as int);
                }
                return Some(&self.state[i].1);
            }
            i = i + 1;
        }
        proof {
            lemma_keyless_absent(self.entries(), key@);
        }
        None
    }

    /// Store `value` under `key` in the in-memory map and mark the session
    /// changed.
    pub fn set(&mut self, key: &str, value: String)
        requires
            old(self).wf(),
        ensures
            final(self).wf(),
            final(self)@ == old(self)@.insert(key@, value@),
            final(self).changed(),
            final(self).identity() == old(self).identity(),
    {
        self.changed = true;
        let owned = key.to_owned();
        self.remove_entry(&owned);
        proof {
            lemma_strip_key(old(self).entries(), key@);
        }
        let ghost stripped = self.entries();
        self.state.push((owned, value));
        proof {
            assert(self.entries() =~= stripped.push((key@, value@)));
            assert(self.entries().drop_last() =~= stripped);
            assert(self@ == kv(stripped).insert(key@, value@));
            assert(self@ =~= old(self)@.insert(key@, value@));
            assert forall|a: int, b: int|
                0 <= a < b < self.entries().len() implies self.entries()[a].0
                != self.entries()[b].0 by {
                if b < self.entries().len() - 1 {
                    assert(self.entries()[a] == stripped[a]);
                    assert(self.entries()[b] == stripped[b]);
                } else {
                    assert(self.entries()[a] == stripped[a]);
                    assert(stripped[a].0 != key@);
                }
            }
        }
    }

    /// Drop `key` from the in-memory map and mark the session changed.
    pub fn remove(&mut self, key: &str)
        requires
            old(self).wf(),
        ensures
            final(self).wf(),
            final(self)@ == old(self)@.remove(key@),
            final(self).changed(),
            final(self).identity() == old(self).identity(),
    {
        self.changed = true;
        let owned = key.to_owned();
        self.remove_entry(&owned);
        proof {
            lemma_strip_key(old(self).entries(), key@);
            assert forall|a: int, b: int|
                0 <= a < b < self.entries().len() implies self.entries()[a].0
                != self.entries()[b].0 by {
                assert(self.entries() == strip_key(old(self).entries(), key@));
            }
        }
    }

    /// Empty the in-memory map and mark the session changed.
    pub fn clear(&mut self)
        requires
            old(self).wf(),
        ensures
            final(self).wf(),
            final(self)@ == Map::<Seq<char>, Seq<char>>::empty(),
            final(self).changed(),
            final(self).identity() == old(self).identity(),
    {
        self.changed = true;
        self.state = Vec::new();
        proof {
            assert(self.entries() =~= Seq::<(Seq<char>, Seq<char>)>::empty());
        }
    }
}

/// Fold decoded pairs into entries with one entry per key, later pairs
/// winning — exactly the map the pairs hold.
#[verifier::loop_isolation(false)]
fn fold_pairs(identity: String, pairs: Vec<(String, String)>) -> (s: DbSession)
    ensures
        s.wf(),
        s@ == kv(pairs_view(pairs@)),
        !s.changed(),
        s.identity() == identity@,
{
    let mut s = DbSession::new(identity);
    let n = pairs.len();
    let mut i: usize = 0;
    proof {
        assert(kv(pairs_view(pairs@).subrange(0, 0)) =~= Map::<Seq<char>, Seq<char>>::empty());
    }
    while i < n
        invariant
            n == pairs@.len(),
            i <= n,
            s.wf(),
            s@ == kv(pairs_view(pairs@).subrange(0, i as int)),
            s.identity() == identity@,
        decreases n - i,
    {
        let ghost all = pairs_view(pairs@);
        s.set(pairs[i].0.as_str(), pairs[i].1.clone());
        proof {
            assert(all.subrange(0, i + 1).drop_last() =~= all.subrange(0, i as int));
            assert(all.subrange(0, i + 1).last() == all[i as int]);
            assert(s@ == kv(all.subrange(0, i as int)).insert(all[i as int].0, all[i as int].1));
        }
        i = i + 1;
    }
    proof {
        assert(pairs_view(pairs@).subrange(0, n as int) =~= pairs_view(pairs@));
    }
    s.changed = false;
    s
}

/// Decide the session for an identity from the rows its load returned:
/// no rows is no prior state — an empty, unchanged map; one row rehydrates
/// the map from the row's data, an unreadable or absent value yielding the
/// empty map; more than one row is a data-integrity violation and no
/// session is produced.
pub fn session_from_rows(rows: &Vec<UserSession>, identity: String) -> (r: Result<
    DbSession,
    SessionLoadError,
>)
    ensures
        rows@.len() == 0 ==> (r matches Ok(s) && s.wf() && s@ == Map::<
            Seq<char>,
            Seq<char>,
        >::empty() && !s.changed() && s.identity() == identity@),
        rows@.len() > 1 ==> r == Err::<DbSession, SessionLoadError>(
            SessionLoadError::InconclusiveState,
        ),
        rows@.len() == 1 ==> (r matches Ok(s) && s.wf() && !s.changed() && s.identity()
            == identity@ && match rows@[0]@.sdata {
            Some(d) => s@ == (match parsed_pairs(d) {
                Some(ps) => kv(ps),
                None => Map::<Seq<char>, Seq<char>>::empty(),
            }),
            None => s@ == Map::<Seq<char>, Seq<char>>::empty(),
        }),
        rows@.len() == 1 ==> (r matches Ok(s) && forall|ps: Seq<(Seq<char>, Seq<char>)>|
            rows@[0]@.sdata == Some(json_of(ps)) ==> s@ == kv(ps)),
{
    if rows.len() == 0 {
        return Ok(DbSession::new(identity));
    }
    if rows.len() > 1 {
        return Err(SessionLoadError::InconclusiveState);
    }
    match &rows[0].sdata {
        None => Ok(DbSession::new(identity)),
        Some(d) => {
            match decode_pairs(d.as_str()) {
                None => Ok(DbSession::new(identity)),
                Some(pairs) => Ok(fold_pairs(identity, pairs)),
            }
        },
    }
}

/// The session backend: it owns the executor group for the write-oriented
/// database, through which every load and flush is dispatched.
pub struct DbSessionBackend {
    pub wdb: WorkerGroup,
}

impl DbSessionBackend {
    /// Load the rows stored for an identity: dispatch one select through
    /// the group and await its rows.  On a quiescent group the rows are
    /// exactly the identity's — or, with the serving worker's pool
    /// exhausted, an empty list standing in for them.
    pub fn load(wdb: &mut WorkerGroup, table: &mut SessionTable, identity: &String) -> (r: Vec<
        UserSession,
    >)
        requires
            old(wdb).wf(),
            old(table).wf(),
            old(wdb).next_ticket() < 0xffff_ffff,
            old(table).next_id() + old(wdb).pending().len() + 1 <= 0x7fff_ffff,
        ensures
            final(wdb).wf(),
            final(table).wf(),
            final(wdb).pending().len() == 0,
            final(wdb).next_ticket() == old(wdb).next_ticket() + 1,
            final(table).next_id() <= old(table).next_id() + old(wdb).pending().len() + 1,
            final(wdb).n_workers() == old(wdb).n_workers(),
            forall|i: int|
                0 <= i < old(wdb).n_workers() ==> #[trigger] final(wdb).pool_cap(i) == old(
                    wdb,
                ).pool_cap(i),
            old(wdb).pending().len() == 0 ==> (final(table).rows() == old(table).rows()
                && final(table).next_id() == old(table).next_id() && (forall|i: int|
                0 <= i < old(wdb).n_workers() ==> #[trigger] final(wdb).pool_leases(i) == old(
                    wdb,
                ).pool_leases(i))),
            (old(wdb).pending().len() == 0 && old(wdb).all_available()) ==> views_of(r@)
                == rows_matching(old(table).rows(), identity@),
    {
        let req = TypedRequest::Select(SQuery { filter_key: identity.clone() });
        let reply = wdb.dispatch_and_await(req, table);
        match reply {
            TypedResult::Rows(Ok(rows)) => rows,
            _ => Vec::new(),
        }
    }

    /// Begin a request for an identity: load its rows through the group and
    /// decide the session from them.
    pub fn from_identity(&mut self, table: &mut SessionTable, identity: String) -> (r: Result<
        DbSession,
        SessionLoadError,
    >)
        requires
            old(self).wdb.wf(),
            old(table).wf(),
            old(self).wdb.next_ticket() < 0xffff_ffff,
            old(table).next_id() + old(self).wdb.pending().len() + 1 <= 0x7fff_ffff,
        ensures
            final(self).wdb.wf(),
            final(table).wf(),
            final(self).wdb.pending().len() == 0,
            final(self).wdb.next_ticket() == old(self).wdb.next_ticket() + 1,
            final(table).next_id() <= old(table).next_id() + old(self).wdb.pending().len() + 1,
            (old(self).wdb.pending().len() == 0 && old(self).wdb.all_available()) ==> (
            final(table).rows() == old(table).rows() && final(table).next_id() == old(
                table,
            ).next_id()
                && {
                let m = rows_matching(old(table).rows(), identity@);
                &&& m.len() == 0 ==> (r matches Ok(s) && s.wf() && s@ == Map::<
                    Seq<char>,
                    Seq<char>,
                >::empty() && !s.changed() && s.identity() == identity@)
                &&& m.len() > 1 ==> r == Err::<DbSession, SessionLoadError>(
                    SessionLoadError::InconclusiveState,
                )
                &&& m.len() == 1 ==> (r matches Ok(s) && s.wf() && !s.changed() && s.identity()
                    == identity@ && forall|ps: Seq<(Seq<char>, Seq<char>)>|
                    m[0].sdata == Some(json_of(ps)) ==> s@ == kv(ps))
            }),
    {
        let rows = DbSessionBackend::load(&mut self.wdb, table, &identity);
        proof {
            if old(self).wdb.pending().len() == 0 && old(self).wdb.all_available() {
                let m = rows_matching(old(table).rows(), identity@);
                assert(views_of(rows@).len() == rows@.len());
                if m.len() == 1 {
                    assert(rows@[0]@ == m[0]);
                }
            }
        }
        session_from_rows(&rows, identity)
    }
}

impl DbSession {
    /// Flush the session if anything changed: re-run the load-by-identity
    /// check — the earlier load's result is deliberately not trusted — and
    /// insert a fresh row where none was found, else update the rows the
    /// identity already has.  Nothing is written for an unchanged session.
    #[verifier::rlimit(50)]
    pub fn write(&self, wdb: &mut WorkerGroup, table: &mut SessionTable) -> (r: Result<
        (),
        DbExecutorError,
    >)
        requires
            self.wf(),
            old(wdb).wf(),
            old(table).wf(),
            old(wdb).next_ticket() + 2 <= 0xffff_ffff,
            old(table).next_id() + old(wdb).pending().len() + 2 <= 0x7fff_ffff,
        ensures
            final(wdb).wf(),
            final(table).wf(),
            final(wdb).next_ticket() <= old(wdb).next_ticket() + 2,
            final(table).next_id() <= old(table).next_id() + old(wdb).pending().len() + 2,
            final(wdb).n_workers() == old(wdb).n_workers(),
            forall|i: int|
                0 <= i < old(wdb).n_workers() ==> #[trigger] final(wdb).pool_cap(i) == old(
                    wdb,
                ).pool_cap(i),
            old(wdb).pending().len() == 0 ==> (forall|i: int|
                0 <= i < old(wdb).n_workers() ==> #[trigger] final(wdb).pool_leases(i) == old(
                    wdb,
                ).pool_leases(i)),
            !self.changed() ==> (r is Ok && *final(wdb) == *old(wdb) && *final(table) == *old(
                table,
            )),
            self.changed() ==> final(wdb).pending().len() == 0,
            (self.changed() && old(wdb).pending().len() == 0 && old(wdb).all_available()) ==> (
            r is Ok && {
                let m = rows_matching(old(table).rows(), self.identity());
                &&& m.len() == 0 ==> final(table).rows() == old(table).rows().push(
                    RowView {
                        id: old(table).next_id(),
                        skey: self.identity(),
                        sdata: Some(json_of(self.entries())),
                    },
                )
                &&& m.len() > 0 ==> final(table).rows() == rows_updated(
                    old(table).rows(),
                    self.identity(),
                    json_of(self.entries()),
                )
            }),
    {
        if !self.changed {
            return Ok(());
        }
        let data = match encode_pairs(&self.state) {
            Some(d) => d,
            None => {
                return Err(DbExecutorError::Unknown);
            },
        };
        let rows = DbSessionBackend::load(wdb, table, &self.identity);
        let reply = if rows.len() == 0 {
            let req = TypedRequest::Write(
                WQuery { write: WriteOp::Insert { skey: self.identity.clone(), sdata: data } },
            );
            wdb.dispatch_and_await(req, table)
        } else {
            let req = TypedRequest::Write(
                WQuery {
                    write: WriteOp::UpdateByKey { skey: self.identity.clone(), sdata: data },
                },
            );
            wdb.dispatch_and_await(req, table)
        };
        match reply {
            TypedResult::Rows(Ok(_)) => Ok(()),
            TypedResult::Rows(Err(e)) => Err(DbExecutorError::DatabaseError(e)),
            _ => Err(DbExecutorError::Unknown),
        }
    }
}

/// Law: flushes sequenced one after the other keep a single row per
/// identity.  Into rows holding none for the key, the first flush inserts
/// exactly one row carrying its data; a second, update-shaped flush then
/// rewrites that same row — same surrogate id — with the new data, and
/// inserts no second one.
pub proof fn lemma_flush_sequencing(
    rows: Seq<RowView>,
    k: Seq<char>,
    d1: Seq<char>,
    d2: Seq<char>,
    id: int,
)
    requires
        rows_matching(rows, k).len() == 0,
    ensures
        rows_matching(rows.push(RowView { id, skey: k, sdata: Some(d1) }), k) == seq![
            RowView { id, skey: k, sdata: Some(d1) },
        ],
        rows_matching(
            rows_updated(rows.push(RowView { id, skey: k, sdata: Some(d1) }), k, d2),
            k,
        ) == seq![RowView { id, skey: k, sdata: Some(d2) }],
{
    let row1 = RowView { id, skey: k, sdata: Some(d1) };
    let row2 = RowView { id, skey: k, sdata: Some(d2) };
    let pushed = rows.push(row1);
    assert(pushed.drop_last() =~= rows);
    assert(pushed.last() == row1);
    assert(rows_matching(pushed, k) =~= seq![row1]);
    crate::table::lemma_matching_after_update(pushed, k, d2);
    assert(rows_updated(seq![row1], k, d2) =~= seq![row2]);
}

} // verus!
