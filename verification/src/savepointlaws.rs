//! Savepoints outlive what becomes of others.
use vstd::prelude::*;
use crate::conn::dml;
use crate::durabilitylaws::{
    fulfilled, given_up, law_writes_touch_their_own, left_of, lemma_apart_from_last,
    lemma_given_up_snoc, lemma_split_last, orderly, ours, rows_fulfilled, rows_tended, tended,
    FlightV,
};
use crate::idlaws::{ids_ok, law_commit_keeps_ids, law_dml_keeps_ids, law_rollback_keeps_ids};
use crate::mvcc::{
    distinct_ids, ending_from, finalized, finalized_rows, law_savepoint_restores_store, pending_in,
    pending_of, rolled_back, starting_from, store_touched, touched,
};
use crate::sql::StmtV;
use crate::store::{store_ok, table_names, PENDING, StoreV, VersionV};
use crate::wal::WalOpV;
use crate::writelaws::vids_ok;
use crate::writes::{stamped, WriteV};

verus! {

proof fn lemma_starting_snoc(rows: Seq<VersionV>, x: VersionV, me: u64, i: int, acc: Seq<u64>)
    requires
        0 <= i <= rows.len(),
    ensures
        starting_from(rows.push(x), me, i, acc) == (if x.owner == me && x.create_lsn == PENDING {
            starting_from(rows, me, i, acc).push(x.vid)
        } else {
            starting_from(rows, me, i, acc)
        }),
        ending_from(rows.push(x), me, i, acc) == (if x.owner == me && x.delete_lsn == PENDING {
            ending_from(rows, me, i, acc).push(x.vid)
        } else {
            ending_from(rows, me, i, acc)
        }),
    decreases rows.len() - i,
{
    let all = rows.push(x);
    if i < rows.len() {
        assert(all[i] == rows[i]);
        lemma_starting_snoc(rows, x, me, i + 1, acc);
        lemma_starting_snoc(rows, x, me, i + 1, acc.push(rows[i].vid));
    } else {
        assert(all[i] == x);
        assert(starting_from(all, me, i + 1, acc) == acc);
        assert(starting_from(all, me, i + 1, acc.push(x.vid)) == acc.push(x.vid));
        assert(ending_from(all, me, i + 1, acc) == acc);
        assert(ending_from(all, me, i + 1, acc.push(x.vid)) == acc.push(x.vid));
    }
}

/// What becomes of another leaves what one has pending as it is.
proof fn lemma_pending_stays(rows: Seq<VersionV>, me: u64, o: u64, fate: Option<u64>)
    requires
        me != 0,
        o != me,
    ensures
        starting_from(rows_fulfilled(rows, o, fate), me, 0, Seq::empty()) == starting_from(
            rows,
            me,
            0,
            Seq::empty(),
        ),
        ending_from(rows_fulfilled(rows, o, fate), me, 0, Seq::empty()) == ending_from(
            rows,
            me,
            0,
            Seq::empty(),
        ),
    decreases rows.len(),
{
    if rows.len() == 0 {
        match fate {
            Some(mark) => {
                assert(finalized_rows(rows, o, mark) =~= rows);
            },
            None => {
                assert(given_up(rows, o) =~= rows);
            },
        }
    } else {
        let head = rows.drop_last();
        let x = rows.last();
        lemma_split_last(rows);
        lemma_pending_stays(head, me, o, fate);
        lemma_starting_snoc(head, x, me, 0, Seq::empty());
        match fate {
            Some(mark) => {
                let y = finalized(x, o, mark);
                assert(finalized_rows(rows, o, mark) =~= finalized_rows(head, o, mark).push(y));
                lemma_starting_snoc(finalized_rows(head, o, mark), y, me, 0, Seq::empty());
            },
            None => {
                lemma_given_up_snoc(head, x, o);
                match left_of(x, o) {
                    Some(y) => {
                        lemma_starting_snoc(given_up(head, o), y, me, 0, Seq::empty());
                    },
                    None => {},
                }
            },
        }
    }
}

proof fn lemma_touched_push(before: Seq<VersionV>, now: Seq<VersionV>, me: u64, x: VersionV)
    requires
        touched(before, now, me),
        x.owner == me,
        x.create_lsn == PENDING,
    ensures
        touched(before, now.push(x), me),
{
    let all = now.push(x);
    assert forall|i: int| 0 <= i < before.len() implies {
        ||| #[trigger] all[i] == before[i]
        ||| {
            &&& before[i].delete_lsn == 0
            &&& before[i].owner == (if before[i].create_lsn == PENDING {
                me
            } else {
                0
            })
            &&& all[i] == (VersionV { delete_lsn: PENDING, owner: me, ..before[i] })
        }
    } by {
        assert(all[i] == now[i]);
    }
}

/// What becomes of another leaves a table touched by one alone as it was touched.
proof fn lemma_touched_given_up(before: Seq<VersionV>, now: Seq<VersionV>, me: u64, o: u64)
    requires
        touched(before, now, me),
        o != me,
        o != 0,
    ensures
        touched(given_up(before, o), given_up(now, o), me),
        now.len() == before.len() ==> given_up(now, o).len() == given_up(before, o).len(),
    decreases now.len(),
{
    if now.len() == 0 {
        assert(given_up(now, o) =~= now);
        assert(given_up(before, o) =~= before);
    } else {
        let head = now.drop_last();
        let x = now.last();
        lemma_split_last(now);
        lemma_given_up_snoc(head, x, o);
        assert(now[now.len() - 1] == x);
        if now.len() > before.len() {
            assert forall|i: int| 0 <= i < head.len() implies #[trigger] head[i] == now[i] by {}
            lemma_touched_given_up(before, head, me, o);
            lemma_touched_push(given_up(before, o), given_up(head, o), me, x);
        } else {
            let first = before.drop_last();
            let y = before.last();
            lemma_split_last(before);
            lemma_given_up_snoc(first, y, o);
            assert(before[before.len() - 1] == y);
            assert(touched(first, head, me)) by {
                assert forall|i: int| 0 <= i < first.len() implies {
                    ||| #[trigger] head[i] == first[i]
                    ||| {
                        &&& first[i].delete_lsn == 0
                        &&& first[i].owner == (if first[i].create_lsn == PENDING {
                            me
                        } else {
                            0
                        })
                        &&& head[i] == (VersionV { delete_lsn: PENDING, owner: me, ..first[i] })
                    }
                } by {
                    assert(head[i] == now[i] && first[i] == before[i]);
                }
            }
            lemma_touched_given_up(first, head, me, o);
            let (a, b) = (given_up(first, o), given_up(head, o));
            let (c, d) = (given_up(before, o), given_up(now, o));
            if x == y {
                assert(left_of(x, o) == left_of(y, o));
            } else {
                assert(left_of(y, o) == Some(y));
                assert(left_of(x, o) == Some(x));
            }
            assert forall|i: int| 0 <= i < c.len() implies {
                ||| #[trigger] d[i] == c[i]
                ||| {
                    &&& c[i].delete_lsn == 0
                    &&& c[i].owner == (if c[i].create_lsn == PENDING {
                        me
                    } else {
                        0
                    })
                    &&& d[i] == (VersionV { delete_lsn: PENDING, owner: me, ..c[i] })
                }
            } by {
                if i < a.len() {
                    assert(c[i] == a[i] && d[i] == b[i]);
                }
            }
        }
    }
}

/// What a transaction did since a savepoint stays apart from what becomes of others:
/// whether another is published or given up meanwhile, a rollback to the savepoint
/// leaves the store as it would stand had the transaction done nothing since.
pub proof fn law_savepoints_outlive_others(
    before: StoreV,
    now: StoreV,
    me: u64,
    other: u64,
    fate: Option<u64>,
)
    requires
        me != 0,
        other != 0,
        other != me,
        store_ok(before),
        ids_ok(now),
        store_touched(before, now, me),
    ensures
        ({
            let kept = fulfilled(before, other, fate);
            let live = fulfilled(now, other, fate);
            let after = rolled_back(live, me, pending_of(before, me));
            &&& store_touched(kept, live, me)
            &&& pending_of(kept, me) == pending_of(before, me)
            &&& after.tables.len() == kept.tables.len()
            &&& forall|i: int|
                0 <= i < after.tables.len() ==> (#[trigger] after.tables[i]).rows
                    == kept.tables[i].rows && after.tables[i].schema == kept.tables[i].schema
        }),
{
    let kept = fulfilled(before, other, fate);
    let live = fulfilled(now, other, fate);
    match fate {
        Some(mark) => {
            law_commit_keeps_ids(now, other, mark);
            assert(ids_ok(live)) by {
                assert forall|i: int| 0 <= i < live.tables.len() implies vids_ok(
                    #[trigger] live.tables[i],
                ) by {
                    assert(live.tables[i] == crate::mvcc::committed(now, other, mark).tables[i]);
                }
            }
        },
        None => {
            law_rollback_keeps_ids(now, other, Seq::empty());
        },
    }
    assert(table_names(kept.tables) =~= table_names(before.tables));
    assert forall|i: int| 0 <= i < live.tables.len() implies {
        &&& (#[trigger] live.tables[i]).schema == kept.tables[i].schema
        &&& touched(kept.tables[i].rows, live.tables[i].rows, me)
        &&& distinct_ids(live.tables[i].rows)
    } by {
        let (a, b) = (before.tables[i].rows, now.tables[i].rows);
        assert(now.tables[i].schema == before.tables[i].schema);
        assert(touched(a, b, me));
        assert(kept.tables[i].rows == rows_fulfilled(a, other, fate));
        assert(live.tables[i].rows == rows_fulfilled(b, other, fate));
        match fate {
            Some(mark) => {},
            None => {
                lemma_touched_given_up(a, b, me, other);
            },
        }
        assert(vids_ok(live.tables[i]));
    }
    assert forall|i: int| 0 <= i < before.tables.len() implies pending_in(
        #[trigger] kept.tables[i],
        me,
    ) == pending_in(before.tables[i], me) by {
        assert(kept.tables[i].rows == rows_fulfilled(before.tables[i].rows, other, fate));
        lemma_pending_stays(before.tables[i].rows, me, other, fate);
    }
    assert(pending_of(kept, me) =~= pending_of(before, me));
    law_savepoint_restores_store(kept, live, me);
}

/// What a transaction writes keeps to what one can do since a savepoint.
pub proof fn law_writes_keep_savepoints(
    before: StoreV,
    s: StoreV,
    q: StmtV,
    wc: WriteV,
    flight: FlightV,
    wal: Seq<WalOpV>,
)
    requires
        tended(s, flight.push((wc.owner, wal))),
        ids_ok(s),
        wc.snapshot <= s.committed_lsn < PENDING,
        dml(s, q, wc) is Ok,
        store_touched(before, s, wc.owner),
    ensures
        store_touched(before, dml(s, q, wc)->Ok_0.0, wc.owner),
{
    let me = wc.owner;
    let after = dml(s, q, wc)->Ok_0.0;
    let all = flight.push((me, wal));
    lemma_apart_from_last(flight, me, wal);
    law_writes_touch_their_own(s, q, wc, flight, wal);
    law_dml_keeps_ids(s, q, wc);
    assert forall|i: int| 0 <= i < after.tables.len() implies {
        &&& (#[trigger] after.tables[i]).schema == before.tables[i].schema
        &&& touched(before.tables[i].rows, after.tables[i].rows, me)
        &&& distinct_ids(after.tables[i].rows)
    } by {
        let (a, b, c) = (before.tables[i].rows, s.tables[i].rows, after.tables[i].rows);
        assert(s.tables[i].schema == before.tables[i].schema);
        assert(after.tables[i].schema == s.tables[i].schema);
        assert(vids_ok(after.tables[i]));
        assert(rows_tended(b, all));
        assert forall|k: int| 0 <= k < a.len() implies {
            ||| #[trigger] c[k] == a[k]
            ||| {
                &&& a[k].delete_lsn == 0
                &&& a[k].owner == (if a[k].create_lsn == PENDING {
                    me
                } else {
                    0
                })
                &&& c[k] == (VersionV { delete_lsn: PENDING, owner: me, ..a[k] })
            }
        } by {
            assert(orderly(b[k]));
            assert(c[k] == b[k] || (ours(b[k], me) && c[k] == stamped(b[k], me)));
            assert(b[k] == a[k] || b[k] == (VersionV {
                delete_lsn: PENDING,
                owner: me,
                ..a[k]
            }));
        }
        assert forall|k: int| a.len() <= k < c.len() implies (#[trigger] c[k]).owner == me
            && c[k].create_lsn == PENDING by {
            if k < b.len() {
                assert(c[k] == b[k] || c[k] == stamped(b[k], me));
                assert(b[k].owner == me);
            }
        }
    }
}

} // verus!
