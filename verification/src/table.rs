//! Model of the persisted session relation.
//!
//! A `SessionTable` holds the rows that the write-oriented database keeps for
//! the session store: one surrogate-keyed row per session identity is the
//! intent, though nothing in the storage itself enforces it.  The operations
//! here are the closed set of units of work that the workers execute.

use vstd::prelude::*;

verus! {

/// One persisted session row: a surrogate id, the session identity (the
/// natural key), and the serialized session data.
#[derive(Debug)]
pub struct UserSession {
    pub id: i32,
    pub skey: String,
    pub sdata: Option<String>,
}

/// The mathematical value of a session row.
#[verifier::ext_equal]
pub struct RowView {
    pub id: int,
    pub skey: Seq<char>,
    pub sdata: Option<Seq<char>>,
}

impl View for UserSession {
    type V = RowView;

    open spec fn view(&self) -> RowView {
        RowView {
            id: self.id as int,
            skey: self.skey@,
            sdata: match self.sdata {
                Option::Some(s) => Option::Some(s@),
                Option::None => Option::None,
            },
        }
    }
}

impl Clone for UserSession {
    fn clone(&self) -> (r: Self)
        ensures
            r@ == self@,
    {
        UserSession {
            id: self.id,
            skey: self.skey.clone(),
            sdata: match &self.sdata {
                Option::Some(s) => Option::Some(s.clone()),
                Option::None => Option::None,
            },
        }
    }
}

/// The views of a sequence of rows.
pub open spec fn views_of(rows: Seq<UserSession>) -> Seq<RowView> {
    rows.map_values(|r: UserSession| r@)
}

/// The rows whose key is `k`, in table order.
pub open spec fn rows_matching(rows: Seq<RowView>, k: Seq<char>) -> Seq<RowView>
    decreases rows.len(),
{
    if rows.len() == 0 {
        Seq::empty()
    } else {
        let prefix = rows_matching(rows.drop_last(), k);
        if rows.last().skey == k {
            prefix.push(rows.last())
        } else {
            prefix
        }
    }
}

/// The rows left after deleting every row whose key is `k`, in table order.
pub open spec fn rows_without(rows: Seq<RowView>, k: Seq<char>) -> Seq<RowView>
    decreases rows.len(),
{
    if rows.len() == 0 {
        Seq::empty()
    } else {
        let prefix = rows_without(rows.drop_last(), k);
        if rows.last().skey == k {
            prefix
        } else {
            prefix.push(rows.last())
        }
    }
}

/// The rows after an update by key: every row whose key is `k` carries data
/// `d`, every other row is untouched.
pub open spec fn rows_updated(rows: Seq<RowView>, k: Seq<char>, d: Seq<char>) -> Seq<RowView> {
    rows.map_values(
        |r: RowView|
            if r.skey == k {
                RowView { id: r.id, skey: r.skey, sdata: Option::Some(d) }
            } else {
                r
            },
    )
}

/// Updating commutes with selecting the matching rows: after an update by
/// key, the rows matching that key are the rows that matched before, each
/// now carrying the new data.
pub proof fn lemma_matching_after_update(rows: Seq<RowView>, k: Seq<char>, d: Seq<char>)
    ensures
        rows_matching(rows_updated(rows, k, d), k) == rows_updated(rows_matching(rows, k), k, d),
    decreases rows.len(),
{
    if rows.len() == 0 {
        assert(rows_updated(rows, k, d) =~= Seq::<RowView>::empty());
        assert(rows_updated(rows_matching(rows, k), k, d) =~= Seq::<RowView>::empty());
    } else {
        lemma_matching_after_update(rows.drop_last(), k, d);
        let u = rows_updated(rows, k, d);
        assert(u.drop_last() =~= rows_updated(rows.drop_last(), k, d));
        assert(u.last() == rows_updated(rows, k, d)[rows.len() - 1]);
        if rows.last().skey == k {
            assert(rows_matching(rows, k) == rows_matching(rows.drop_last(), k).push(rows.last()));
            assert(rows_updated(rows_matching(rows, k), k, d) =~= rows_updated(
                rows_matching(rows.drop_last(), k),
                k,
                d,
            ).push(u.last()));
        } else {
            assert(rows_updated(rows_matching(rows, k), k, d) =~= rows_updated(
                rows_matching(rows.drop_last(), k),
                k,
                d,
            ));
        }
    }
}

/// The model of the session relation: the rows in insertion order and the
/// next fresh surrogate id.
pub struct SessionTable {
    rows: Vec<UserSession>,
    next_id: i32,
}

impl SessionTable {
    /// The rows currently in the table, in insertion order.
    pub closed spec fn rows(&self) -> Seq<RowView> {
        views_of(self.rows@)
    }

    /// The surrogate id the next inserted row will receive.
    pub closed spec fn next_id(&self) -> int {
        self.next_id as int
    }

    /// Table invariant: ids are below the fresh-id counter and distinct.
    pub closed spec fn wf(&self) -> bool {
        &&& 1 <= self.next_id()
        &&& forall|i: int| 0 <= i < self.rows().len() ==> self.rows()[i].id < self.next_id()
        &&& forall|i: int, j: int|
            0 <= i < j < self.rows().len() ==> self.rows()[i].id != self.rows()[j].id
    }

    /// An empty table.
    pub fn new() -> (t: SessionTable)
        ensures
            t.wf(),
            t.rows() == Seq::<RowView>::empty(),
            t.next_id() == 1,
    {
        let t = SessionTable { rows: Vec::new(), next_id: 1 };
        proof {
            assert(t.rows() =~= Seq::<RowView>::empty());
        }
        t
    }

    /// The rows whose key is `k`, as fresh values in table order.
    pub fn select_by_key(&self, k: &String) -> (r: Vec<UserSession>)
        ensures
            views_of(r@) == rows_matching(self.rows(), k@),
    {
        let mut out: Vec<UserSession> = Vec::new();
        let n = self.rows.len();
        let mut i: usize = 0;
        proof {
            assert(views_of(out@) =~= rows_matching(self.rows().subrange(0, 0), k@));
        }
        while i < n
            invariant
                n == self.rows@.len(),
                i <= n,
                views_of(out@) == rows_matching(self.rows().subrange(0, i as int), k@),
            decreases n - i,
        {
            proof {
                assert(self.rows().subrange(0, i + 1).drop_last() =~= self.rows().subrange(
                    0,
                    i as int,
                ));
                assert(self.rows().subrange(0, i + 1).last() == self.rows()[i as int]);
            }
            if self.rows[i].skey == *k {
                out.push(self.rows[i].clone());
                proof {
                    assert(views_of(out@) =~= rows_matching(
                        self.rows().subrange(0, i + 1),
                        k@,
                    ));
                }
            } else {
                proof {
                    assert(views_of(out@) =~= rows_matching(
                        self.rows().subrange(0, i + 1),
                        k@,
                    ));
                }
            }
            i = i + 1;
        }
        proof {
            assert(self.rows().subrange(0, n as int) =~= self.rows());
        }
        out
    }

    /// Insert a fresh row for key `k` carrying data `d`; the inserted row is
    /// returned.  The id bound is a machine limit on the fresh-id counter.
    pub fn insert_row(&mut self, k: String, d: String) -> (r: UserSession)
        requires
            old(self).wf(),
            old(self).next_id() < 0x7fff_ffff,
        ensures
            final(self).wf(),
            final(self).rows() == old(self).rows().push(
                RowView { id: old(self).next_id(), skey: k@, sdata: Option::Some(d@) },
            ),
            r@ == (RowView { id: old(self).next_id(), skey: k@, sdata: Option::Some(d@) }),
            final(self).next_id() == old(self).next_id() + 1,
    {
        let row = UserSession { id: self.next_id, skey: k, sdata: Some(d) };
        let copy = row.clone();
        self.rows.push(row);
        self.next_id = self.next_id + 1;
        proof {
            assert(self.rows() =~= old(self).rows().push(copy@));
        }
        copy
    }

    /// Set the data of every row whose key is `k` to `d`; the rows now
    /// matching `k` are returned, in table order, as the storage reports the
    /// rows an update touched.
    #[verifier::rlimit(50)]
    pub fn update_by_key(&mut self, k: &String, d: &String) -> (r: Vec<UserSession>)
        requires
            old(self).wf(),
        ensures
            final(self).wf(),
            final(self).rows() == rows_updated(old(self).rows(), k@, d@),
            views_of(r@) == rows_matching(final(self).rows(), k@),
            final(self).next_id() == old(self).next_id(),
    {
        let mut out: Vec<UserSession> = Vec::new();
        let n = self.rows.len();
        let mut i: usize = 0;
        proof {
            assert(self.rows().subrange(0, 0) =~= Seq::<RowView>::empty());
            assert(views_of(out@) =~= rows_matching(
                rows_updated(old(self).rows().subrange(0, 0), k@, d@),
                k@,
            ));
            assert(self.rows() =~= rows_updated(old(self).rows().subrange(0, 0), k@, d@)
                + old(self).rows().subrange(0, n as int));
        }
        while i < n
            invariant
                n == self.rows@.len(),
                n == old(self).rows().len(),
                i <= n,
                self.next_id == old(self).next_id,
                self.rows() == rows_updated(old(self).rows().subrange(0, i as int), k@, d@)
                    + old(self).rows().subrange(i as int, n as int),
                views_of(out@) == rows_matching(
                    rows_updated(old(self).rows().subrange(0, i as int), k@, d@),
                    k@,
                ),
            decreases n - i,
        {
            let ghost pre = self.rows();
            proof {
                assert(pre[i as int] == old(self).rows().subrange(i as int, n as int)[0]);
                assert(pre[i as int] == old(self).rows()[i as int]);
            }
            if self.rows[i].skey == *k {
                let updated = UserSession {
                    id: self.rows[i].id,
                    skey: self.rows[i].skey.clone(),
                    sdata: Some(d.clone()),
                };
                out.push(updated.clone());
                let ghost uview = updated@;
                self.rows[i] = updated;
                proof {
                    assert(self.rows() =~= pre.update(i as int, uview));
                    assert(uview == (RowView {
                        id: old(self).rows()[i as int].id,
                        skey: old(self).rows()[i as int].skey,
                        sdata: Option::Some(d@),
                    }));
                }
            }
            proof {
                let prev = rows_updated(old(self).rows().subrange(0, i as int), k@, d@);
                let cur = rows_updated(old(self).rows().subrange(0, i + 1), k@, d@);
                assert(cur =~= prev.push(
                    if old(self).rows()[i as int].skey == k@ {
                        RowView {
                            id: old(self).rows()[i as int].id,
                            skey: old(self).rows()[i as int].skey,
                            sdata: Option::Some(d@),
                        }
                    } else {
                        old(self).rows()[i as int]
                    },
                ));
                assert(cur.drop_last() =~= prev);
                assert(self.rows() =~= cur + old(self).rows().subrange(i + 1, n as int));
                assert(views_of(out@) =~= rows_matching(cur, k@));
            }
            i = i + 1;
        }
        proof {
            assert(old(self).rows().subrange(0, n as int) =~= old(self).rows());
            assert(old(self).rows().subrange(n as int, n as int) =~= Seq::<RowView>::empty());
            assert(self.rows() =~= rows_updated(old(self).rows(), k@, d@));
        }
        out
    }

    /// Delete every row whose key is `k`; the number of rows deleted is
    /// returned.
    pub fn delete_by_key(&mut self, k: &String) -> (n: usize)
        requires
            old(self).wf(),
        ensures
            final(self).wf(),
            final(self).rows() == rows_without(old(self).rows(), k@),
            n == rows_matching(old(self).rows(), k@).len(),
            final(self).next_id() == old(self).next_id(),
    {
        let mut kept: Vec<UserSession> = Vec::new();
        let mut hit: usize = 0;
        let total = self.rows.len();
        let mut i: usize = 0;
        proof {
            assert(views_of(kept@) =~= rows_without(self.rows().subrange(0, 0), k@));
            assert(rows_matching(self.rows().subrange(0, 0), k@) =~= Seq::<RowView>::empty());
        }
        while i < total
            invariant
                total == self.rows@.len(),
                i <= total,
                hit <= i,
                views_of(kept@) == rows_without(self.rows().subrange(0, i as int), k@),
                hit == rows_matching(self.rows().subrange(0, i as int), k@).len(),
            decreases total - i,
        {
            proof {
                assert(self.rows().subrange(0, i + 1).drop_last() =~= self.rows().subrange(
                    0,
                    i as int,
                ));
                assert(self.rows().subrange(0, i + 1).last() == self.rows()[i as int]);
            }
            if self.rows[i].skey == *k {
                hit = hit + 1;
            } else {
                kept.push(self.rows[i].clone());
            }
            proof {
                assert(views_of(kept@) =~= rows_without(self.rows().subrange(0, i + 1), k@));
            }
            i = i + 1;
        }
        proof {
            assert(self.rows().subrange(0, total as int) =~= self.rows());
        }
        let ghost prior = self.rows();
        self.rows = kept;
        proof {
            lemma_without_preserves_wf(prior, k@, self.next_id as int);
        }
        hit
    }
}

/// Deleting by key keeps every surviving row's id: the survivors are a
/// subsequence of the original rows, so distinctness and the id bound carry
/// over.
proof fn lemma_without_preserves_wf(rows: Seq<RowView>, k: Seq<char>, bound: int)
    requires
        forall|i: int| 0 <= i < rows.len() ==> rows[i].id < bound,
        forall|i: int, j: int| 0 <= i < j < rows.len() ==> rows[i].id != rows[j].id,
    ensures
        forall|i: int| 0 <= i < rows_without(rows, k).len() ==> rows_without(rows, k)[i].id < bound,
        forall|i: int, j: int|
            0 <= i < j < rows_without(rows, k).len() ==> rows_without(rows, k)[i].id
                != rows_without(rows, k)[j].id,
        forall|i: int|
            #![trigger rows_without(rows, k)[i]]
            0 <= i < rows_without(rows, k).len() ==> exists|j: int|
                0 <= j < rows.len() && rows_without(rows, k)[i] == #[trigger] rows[j],
    decreases rows.len(),
{
    if rows.len() > 0 {
        lemma_without_preserves_wf(rows.drop_last(), k, bound);
        let w = rows_without(rows, k);
        let wp = rows_without(rows.drop_last(), k);
        assert(forall|i: int|
            #![trigger wp[i]]
            0 <= i < wp.len() ==> exists|j: int|
                0 <= j < rows.drop_last().len() && wp[i] == #[trigger] rows.drop_last()[j]);
        assert(forall|j: int| 0 <= j < rows.drop_last().len() ==> rows.drop_last()[j] == rows[j]);
        if rows.last().skey == k {
            assert(w == wp);
        } else {
            assert(w == wp.push(rows.last()));
            assert(forall|i: int| 0 <= i < wp.len() ==> w[i] == wp[i]);
            assert(w[w.len() - 1] == rows[rows.len() - 1]);
        }
    }
}

} // verus!
