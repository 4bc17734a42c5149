//! Why two rows with one key are never live together, whoever writes.
use vstd::prelude::*;
use crate::catalog::{key_columns, PolicyCommand};
use crate::constraintlaws::{
    is_sound, law_updated_keys_are_nobody_elses, law_updated_rows_are_valid, lemma_contended,
    lemma_victims, may_go, sound_change, sound_victim,
};
use crate::constraints::{contended_from, key_at, others_insert, rules_of};
use crate::inserts::{
    clash_rules, clashed, freed, held, holder_of, insert_draft, inserted, live_from, put_row,
    put_rows_from, staged_of, terms_of, ProgressV, TermsV,
};
use crate::mvcc::{discards, finalized, finalized_rows, revived, undone, undone_from};
use crate::policy::guard_of;
use crate::primarylaws::{
    half_changed, held_ok, keys_distinct, law_insert_keeps_keys, law_update_keeps_keys,
    lemma_half_changed, lemma_holder_noted, lemma_live_entries, lemma_live_holders,
    lemma_put_row_keys, lemma_superseded_held,
};
use crate::sql::{ExprV, FromV, InsertSourceV, ItemV, OnConflictV};
use crate::store::{
    reader_sees, table_pos, with_table, writer_sees, PENDING, StoreV, TableV, VersionV,
};
use crate::updates::{
    change_vids, changes_of, changes_put_from, delete_draft, deleted, deletes_from,
    deletes_put_from, sources_of, updated,
};
use crate::value::RowV;
use crate::writelaws::{lemma_freed_noted, lemma_version_pos, vids_ok};
use crate::writes::{fresh_draft, pending_version, slots_of, stamped, superseded, DraftV, WriteV};

verus! {

/// Deleted for good.
pub open spec fn dead(v: VersionV) -> bool {
    v.delete_lsn != 0 && v.delete_lsn != PENDING
}

/// Inserted and deleted by one transaction that has not ended.
pub open spec fn doomed(v: VersionV) -> bool {
    v.create_lsn == PENDING && v.delete_lsn == PENDING
}

/// One transaction deletes `a` and inserts `b`.
pub open spec fn replaces(b: VersionV, a: VersionV) -> bool {
    a.delete_lsn == PENDING && b.create_lsn == PENDING && a.owner == b.owner
}

/// Whether two versions are never live together, whichever transactions commit and
/// whichever roll back.
pub open spec fn apart(a: VersionV, b: VersionV) -> bool {
    dead(a) || dead(b) || doomed(a) || doomed(b) || replaces(b, a) || replaces(a, b)
}

/// No two versions with one key are ever live together.
pub open spec fn never_together(rows: Seq<VersionV>, pk: Seq<usize>) -> bool {
    forall|i: int, j: int|
        #![trigger rows[i], rows[j]]
        0 <= i < rows.len() && 0 <= j < rows.len() && i != j && key_at(rows[i].values, pk)
            == key_at(rows[j].values, pk) ==> apart(rows[i], rows[j])
}

/// No stamp is ahead of what is committed.
pub open spec fn stamps_ok(rows: Seq<VersionV>, lsn: u64) -> bool {
    forall|i: int|
        0 <= i < rows.len() ==> ((#[trigger] rows[i]).create_lsn == PENDING || rows[i].create_lsn
            <= lsn) && (rows[i].delete_lsn == PENDING || rows[i].delete_lsn <= lsn)
}

// ---- what follows ---------------------------------------------------------------------------------

/// Where no two versions with one key are ever live together, no transaction sees two
/// live rows with one key, and no reader of what is committed does.
pub proof fn law_no_duplicate_is_seen(rows: Seq<VersionV>, pk: Seq<usize>, lsn: u64, me: u64)
    requires
        never_together(rows, pk),
        stamps_ok(rows, lsn),
        lsn < PENDING,
    ensures
        keys_distinct(rows, pk, lsn, me),
        forall|i: int, j: int|
            #![trigger rows[i], rows[j]]
            0 <= i < rows.len() && 0 <= j < rows.len() && i != j && reader_sees(rows[i], lsn)
                && reader_sees(rows[j], lsn) ==> key_at(rows[i].values, pk) != key_at(
                rows[j].values,
                pk,
            ),
{
}

// ---- commit and rollback --------------------------------------------------------------------------

/// A commit keeps versions with one key apart.
pub proof fn law_commit_keeps_apart(
    rows: Seq<VersionV>,
    pk: Seq<usize>,
    lsn: u64,
    owner: u64,
    at: u64,
)
    requires
        never_together(rows, pk),
        stamps_ok(rows, lsn),
        lsn < at < PENDING,
    ensures
        never_together(finalized_rows(rows, owner, at), pk),
        stamps_ok(finalized_rows(rows, owner, at), at),
{
    let now = finalized_rows(rows, owner, at);
    assert forall|i: int, j: int|
        #![trigger now[i], now[j]]
        0 <= i < now.len() && 0 <= j < now.len() && i != j && key_at(now[i].values, pk) == key_at(
            now[j].values,
            pk,
        ) implies apart(now[i], now[j]) by {
        assert(now[i] == finalized(rows[i], owner, at));
        assert(now[j] == finalized(rows[j], owner, at));
        assert(apart(rows[i], rows[j]));
    }
    assert forall|i: int| 0 <= i < now.len() implies ((#[trigger] now[i]).create_lsn == PENDING
        || now[i].create_lsn <= at) && (now[i].delete_lsn == PENDING || now[i].delete_lsn
        <= at) by {
        assert(now[i] == finalized(rows[i], owner, at));
        assert(rows[i].create_lsn == PENDING || rows[i].create_lsn <= lsn);
    }
}

/// Where the rows that a rollback keeps come from.
spec fn comes_from(
    rows: Seq<VersionV>,
    owner: u64,
    now: Seq<VersionV>,
    from: Seq<int>,
    upto: int,
) -> bool {
    &&& from.len() == now.len()
    &&& forall|k: int|
        0 <= k < now.len() ==> 0 <= #[trigger] from[k] < upto && from[k] < rows.len() && now[k]
            == revived(rows[from[k]], owner, Seq::empty()) && !discards(
            rows[from[k]],
            owner,
            Seq::empty(),
        )
    &&& forall|k: int, l: int|
        #![trigger from[k], from[l]]
        0 <= k < l < now.len() ==> from[k] < from[l]
}

proof fn lemma_undone(
    rows: Seq<VersionV>,
    owner: u64,
    i: int,
    acc: Seq<VersionV>,
    from: Seq<int>,
) -> (all: Seq<int>)
    requires
        0 <= i <= rows.len(),
        comes_from(rows, owner, acc, from, i),
    ensures
        comes_from(
            rows,
            owner,
            undone_from(rows, owner, Seq::empty(), Seq::empty(), i, acc),
            all,
            rows.len() as int,
        ),
    decreases rows.len() - i,
{
    if i < rows.len() {
        if discards(rows[i], owner, Seq::empty()) {
            assert(comes_from(rows, owner, acc, from, i + 1)) by {
                assert forall|k: int| 0 <= k < acc.len() implies 0 <= #[trigger] from[k] < i + 1
                    && from[k] < rows.len() && acc[k] == revived(
                    rows[from[k]],
                    owner,
                    Seq::empty(),
                ) && !discards(rows[from[k]], owner, Seq::empty()) by {
                    assert(from[k] < i);
                }
            }
            lemma_undone(rows, owner, i + 1, acc, from)
        } else {
            let more = acc.push(revived(rows[i], owner, Seq::empty()));
            let next = from.push(i);
            assert(comes_from(rows, owner, more, next, i + 1)) by {
                assert forall|k: int| 0 <= k < more.len() implies 0 <= #[trigger] next[k] < i + 1
                    && next[k] < rows.len() && more[k] == revived(
                    rows[next[k]],
                    owner,
                    Seq::empty(),
                ) && !discards(rows[next[k]], owner, Seq::empty()) by {
                    if k < acc.len() {
                        assert(next[k] == from[k]);
                    }
                }
                assert forall|k: int, l: int|
                    #![trigger next[k], next[l]]
                    0 <= k < l < more.len() implies next[k] < next[l] by {
                    assert(next[k] == from[k]);
                    if l < acc.len() {
                        assert(next[l] == from[l]);
                    }
                }
            }
            lemma_undone(rows, owner, i + 1, more, next)
        }
    } else {
        from
    }
}

/// A rollback keeps versions with one key apart.
pub proof fn law_rollback_keeps_apart(
    rows: Seq<VersionV>,
    pk: Seq<usize>,
    lsn: u64,
    owner: u64,
)
    requires
        never_together(rows, pk),
        stamps_ok(rows, lsn),
    ensures
        never_together(undone(rows, owner, Seq::empty(), Seq::empty()), pk),
        stamps_ok(undone(rows, owner, Seq::empty(), Seq::empty()), lsn),
{
    let now = undone(rows, owner, Seq::empty(), Seq::empty());
    let from = lemma_undone(rows, owner, 0, Seq::empty(), Seq::empty());
    assert forall|i: int, j: int|
        #![trigger now[i], now[j]]
        0 <= i < now.len() && 0 <= j < now.len() && i != j && key_at(now[i].values, pk) == key_at(
            now[j].values,
            pk,
        ) implies apart(now[i], now[j]) by {
        let (a, b) = (from[i], from[j]);
        if i < j {
            assert(from[i] < from[j]);
        } else {
            assert(from[j] < from[i]);
        }
        assert(apart(rows[a], rows[b]));
    }
    assert forall|i: int| 0 <= i < now.len() implies ((#[trigger] now[i]).create_lsn == PENDING
        || now[i].create_lsn <= lsn) && (now[i].delete_lsn == PENDING || now[i].delete_lsn
        <= lsn) by {
        let a = from[i];
        assert(rows[a].create_lsn == PENDING || rows[a].create_lsn <= lsn);
    }
}

// ---- statements -----------------------------------------------------------------------------------

/// Whether `me` may stamp row `i`: it is not gone, no one else is inserting it, and
/// where another is deleting it, no one else is inserting its key.
spec fn fair(rows: Seq<VersionV>, pk: Seq<usize>, lsn: u64, me: u64, i: int) -> bool {
    let v = rows[i];
    &&& !dead(v)
    &&& v.create_lsn == PENDING ==> v.owner == me
    &&& v.delete_lsn == PENDING && v.owner != me ==> forall|j: int|
        0 <= j < rows.len() && others_insert(#[trigger] rows[j], lsn, me) ==> key_at(
            rows[j].values,
            pk,
        ) != key_at(v.values, pk)
}

/// What a statement of `me` did to the rows of a table: versions stamped fairly, new
/// ones behind, none of them under a key that another is inserting.
spec fn fairly_written(
    old: Seq<VersionV>,
    now: Seq<VersionV>,
    pk: Seq<usize>,
    lsn: u64,
    me: u64,
) -> bool {
    &&& now.len() >= old.len()
    &&& forall|i: int|
        0 <= i < old.len() ==> #[trigger] now[i] == old[i] || (now[i] == stamped(old[i], me)
            && fair(old, pk, lsn, me, i))
    &&& forall|n: int|
        old.len() <= n < now.len() ==> (#[trigger] now[n]).create_lsn == PENDING && now[n].owner
            == me && (now[n].delete_lsn == 0 || now[n].delete_lsn == PENDING)
    &&& forall|n: int, j: int|
        #![trigger now[n], old[j]]
        old.len() <= n < now.len() && 0 <= j < old.len() && others_insert(old[j], lsn, me)
            ==> key_at(old[j].values, pk) != key_at(now[n].values, pk)
}

proof fn lemma_old_pair(
    old: Seq<VersionV>,
    now: Seq<VersionV>,
    pk: Seq<usize>,
    lsn: u64,
    me: u64,
    i: int,
    j: int,
)
    requires
        never_together(old, pk),
        stamps_ok(old, lsn),
        lsn < PENDING,
        fairly_written(old, now, pk, lsn, me),
        0 <= i < old.len(),
        0 <= j < old.len(),
        i != j,
        key_at(old[i].values, pk) == key_at(old[j].values, pk),
    ensures
        apart(now[i], now[j]),
{
    assert(now[i] == old[i] || now[i] == stamped(old[i], me));
    assert(now[j] == old[j] || now[j] == stamped(old[j], me));
    assert(apart(old[i], old[j]));
    assert(old[i].create_lsn == PENDING || old[i].create_lsn <= lsn);
    assert(old[j].create_lsn == PENDING || old[j].create_lsn <= lsn);
    assert(others_insert(old[j], lsn, me) || !others_insert(old[j], lsn, me));
    assert(others_insert(old[i], lsn, me) || !others_insert(old[i], lsn, me));
}

proof fn lemma_new_pair(
    old: Seq<VersionV>,
    now: Seq<VersionV>,
    pk: Seq<usize>,
    lsn: u64,
    me: u64,
    i: int,
    n: int,
)
    requires
        stamps_ok(old, lsn),
        lsn < PENDING,
        fairly_written(old, now, pk, lsn, me),
        keys_distinct(now, pk, lsn, me),
        0 <= i < now.len(),
        old.len() <= n < now.len(),
        i != n,
        key_at(now[i].values, pk) == key_at(now[n].values, pk),
    ensures
        apart(now[i], now[n]),
{
    assert(now[n].create_lsn == PENDING && now[n].owner == me);
    if now[n].delete_lsn == 0 {
        assert(writer_sees(now[n], lsn, me));
        assert(!writer_sees(now[i], lsn, me));
        if i < old.len() {
            assert(now[i] == old[i] || now[i] == stamped(old[i], me));
            if now[i] == old[i] {
                assert(old[i].create_lsn == PENDING || old[i].create_lsn <= lsn);
                assert(!others_insert(old[i], lsn, me));
            }
        } else {
            assert(now[i].create_lsn == PENDING && now[i].owner == me);
        }
    }
}

proof fn lemma_fairly_written(
    old: Seq<VersionV>,
    now: Seq<VersionV>,
    pk: Seq<usize>,
    lsn: u64,
    me: u64,
)
    requires
        never_together(old, pk),
        stamps_ok(old, lsn),
        lsn < PENDING,
        fairly_written(old, now, pk, lsn, me),
        now.len() > old.len() ==> keys_distinct(now, pk, lsn, me),
    ensures
        never_together(now, pk),
        stamps_ok(now, lsn),
{
    assert forall|i: int, j: int|
        #![trigger now[i], now[j]]
        0 <= i < now.len() && 0 <= j < now.len() && i != j && key_at(now[i].values, pk) == key_at(
            now[j].values,
            pk,
        ) implies apart(now[i], now[j]) by {
        if i < old.len() && j < old.len() {
            assert(now[i].values == old[i].values);
            assert(now[j].values == old[j].values);
            lemma_old_pair(old, now, pk, lsn, me, i, j);
        } else if j >= old.len() {
            lemma_new_pair(old, now, pk, lsn, me, i, j);
        } else {
            lemma_new_pair(old, now, pk, lsn, me, j, i);
        }
    }
    assert forall|i: int| 0 <= i < now.len() implies ((#[trigger] now[i]).create_lsn == PENDING
        || now[i].create_lsn <= lsn) && (now[i].delete_lsn == PENDING || now[i].delete_lsn
        <= lsn) by {
        if i < old.len() {
            assert(old[i].create_lsn == PENDING || old[i].create_lsn <= lsn);
            assert(now[i] == old[i] || now[i] == stamped(old[i], me));
        }
    }
}

// ---- DELETE ---------------------------------------------------------------------------------------

pub proof fn lemma_deleted_rows(
    old: Seq<VersionV>,
    d: DraftV,
    name: Seq<char>,
    victims: Seq<(u64, RowV)>,
    me: u64,
    i: int,
)
    requires
        0 <= i <= victims.len(),
        d.table.rows.len() == old.len(),
        forall|j: int|
            0 <= j < old.len() ==> (#[trigger] d.table.rows[j]).vid == old[j].vid && (
            d.table.rows[j] == old[j] || (d.table.rows[j] == stamped(old[j], me) && change_vids(
                victims,
            ).contains(old[j].vid))),
    ensures
        ({
            let now = deletes_put_from(d, name, victims, me, i).table.rows;
            &&& now.len() == old.len()
            &&& forall|j: int|
                0 <= j < old.len() ==> #[trigger] now[j] == old[j] || (now[j] == stamped(
                    old[j],
                    me,
                ) && change_vids(victims).contains(old[j].vid))
        }),
    decreases victims.len() - i,
{
    if i < victims.len() {
        let rows = d.table.rows;
        let vid = victims[i].0;
        let e = superseded(d, name, vid, me);
        let now = e.table.rows;
        lemma_version_pos(rows, vid, 0);
        assert(change_vids(victims)[i] == vid);
        assert forall|j: int| 0 <= j < old.len() implies (#[trigger] now[j]).vid == old[j].vid && (
        now[j] == old[j] || (now[j] == stamped(old[j], me) && change_vids(victims).contains(
            old[j].vid,
        ))) by {
            assert(rows[j].vid == old[j].vid);
        }
        lemma_deleted_rows(old, e, name, victims, me, i + 1);
    }
}

/// A `DELETE` keeps versions with one key apart.
pub proof fn law_delete_keeps_apart(
    s: StoreV,
    name: Seq<char>,
    using: Option<FromV>,
    filter: Option<ExprV>,
    returning: Option<Seq<ItemV>>,
    wc: WriteV,
    i: int,
    pk: Seq<usize>,
)
    requires
        table_pos(s, name) == Some(i),
        0 <= i < s.tables.len(),
        vids_ok(s.tables[i]),
        never_together(s.tables[i].rows, pk),
        stamps_ok(s.tables[i].rows, s.committed_lsn),
        s.committed_lsn < PENDING,
        deleted(s, name, using, filter, returning, wc) is Ok,
    ensures
        never_together(deleted(s, name, using, filter, returning, wc)->Ok_0.0.tables[i].rows, pk),
        stamps_ok(
            deleted(s, name, using, filter, returning, wc)->Ok_0.0.tables[i].rows,
            s.committed_lsn,
        ),
{
    let t = s.tables[i];
    let old = t.rows;
    let lsn = s.committed_lsn;
    let me = wc.owner;
    let guard = guard_of(t.schema, PolicyCommand::Delete, wc.env)->Ok_0;
    let src = sources_of(s, t.schema, name, using, wc)->Ok_0;
    let victims = deletes_from(old, t.schema, guard, src, filter, wc, 0, Seq::empty())->Ok_0;
    lemma_victims(old, t.schema, guard, src, filter, wc, 0, Seq::empty());
    lemma_deleted_rows(old, fresh_draft(t), name, victims, me, 0);
    let d = delete_draft(s, t, name, using, filter, wc)->Ok_0;
    let now = d.table.rows;
    assert(with_table(s, i, d.table).tables[i] == d.table);
    assert(fairly_written(old, now, pk, lsn, me)) by {
        assert forall|j: int| 0 <= j < old.len() implies #[trigger] now[j] == old[j] || (now[j]
            == stamped(old[j], me) && fair(old, pk, lsn, me, j)) by {
            if now[j] != old[j] {
                let vids = change_vids(victims);
                let k = choose|k: int| 0 <= k < vids.len() && vids[k] == old[j].vid;
                assert(may_go(old, t.schema, guard, wc, victims[k]));
                let x = choose|x: int| sound_victim(old, t.schema, guard, wc, victims[k], x);
                assert(old[x].vid == old[j].vid);
                assert(x == j);
            }
        }
    }
    lemma_fairly_written(old, now, pk, lsn, me);
}

// ---- UPDATE ---------------------------------------------------------------------------------------

/// An `UPDATE` keeps versions with one key apart.
pub proof fn law_update_keeps_apart(
    s: StoreV,
    name: Seq<char>,
    sets: Seq<(Seq<char>, ExprV)>,
    from: Option<FromV>,
    filter: Option<ExprV>,
    returning: Option<Seq<ItemV>>,
    wc: WriteV,
    i: int,
)
    requires
        table_pos(s, name) == Some(i),
        0 <= i < s.tables.len(),
        vids_ok(s.tables[i]),
        key_columns(s.tables[i].schema.columns).len() > 0,
        never_together(s.tables[i].rows, key_columns(s.tables[i].schema.columns)),
        stamps_ok(s.tables[i].rows, s.committed_lsn),
        s.committed_lsn < PENDING,
        updated(s, name, sets, from, filter, returning, wc) is Ok,
    ensures
        never_together(
            updated(s, name, sets, from, filter, returning, wc)->Ok_0.0.tables[i].rows,
            key_columns(s.tables[i].schema.columns),
        ),
        stamps_ok(
            updated(s, name, sets, from, filter, returning, wc)->Ok_0.0.tables[i].rows,
            s.committed_lsn,
        ),
{
    let t = s.tables[i];
    let old = t.rows;
    let lsn = s.committed_lsn;
    let me = wc.owner;
    let pk = key_columns(t.schema.columns);
    law_no_duplicate_is_seen(old, pk, lsn, me);
    law_update_keeps_keys(s, name, sets, from, filter, returning, wc, i);
    let c = changes_of(s, t, name, sets, from, filter, wc)->Ok_0;
    let rules = rules_of(t.schema, PolicyCommand::Update, wc.env)->Ok_0;
    law_updated_rows_are_valid(s, t, name, sets, from, filter, wc);
    assert forall|k: int| 0 <= k < c.len() implies exists|j: int|
        0 <= j < old.len() && (#[trigger] old[j]).vid == (#[trigger] c[k]).0 by {
        assert(is_sound(old, t.schema, name, rules, wc, c[k]));
        let x = choose|x: int| sound_change(old, t.schema, name, rules, wc, c[k], x);
        assert(old[x].vid == c[k].0);
    }
    let d0 = fresh_draft(t);
    assert(half_changed(old, d0, c, me, 0)) by {
        assert(change_vids(c.take(0)) =~= Seq::<u64>::empty());
    }
    lemma_half_changed(old, d0, name, c, me, 0);
    let d = changes_put_from(d0, name, c, me, 0)->Ok_0;
    assert(with_table(s, i, d.table).tables[i] == d.table);
    assert(c.take(c.len() as int) =~= c);
    let now = d.table.rows;
    let n = old.len() as int;
    assert(fairly_written(old, now, pk, lsn, me)) by {
        assert forall|j: int| 0 <= j < n implies #[trigger] now[j] == old[j] || (now[j]
            == stamped(old[j], me) && fair(old, pk, lsn, me, j)) by {
            if change_vids(c).contains(old[j].vid) {
                let vids = change_vids(c);
                let k = choose|k: int| 0 <= k < vids.len() && vids[k] == old[j].vid;
                assert(is_sound(old, t.schema, name, rules, wc, c[k]));
                let x = choose|x: int| sound_change(old, t.schema, name, rules, wc, c[k], x);
                assert(old[x].vid == old[j].vid);
                assert(x == j);
            }
        }
        assert forall|m: int| n <= m < now.len() implies (#[trigger] now[m]).create_lsn == PENDING
            && now[m].owner == me && (now[m].delete_lsn == 0 || now[m].delete_lsn == PENDING) by {
            assert(now[n + (m - n)].values == c[m - n].1);
        }
        assert forall|m: int, j: int|
            #![trigger now[m], old[j]]
            n <= m < now.len() && 0 <= j < n && others_insert(old[j], lsn, me) implies key_at(
            old[j].values,
            pk,
        ) != key_at(now[m].values, pk) by {
            assert(now[n + (m - n)].values == c[m - n].1);
            law_updated_keys_are_nobody_elses(
                s,
                name,
                sets,
                from,
                filter,
                returning,
                wc,
                i,
                j,
                m - n,
            );
        }
    }
    lemma_fairly_written(old, now, pk, lsn, me);
}

// ---- INSERT ---------------------------------------------------------------------------------------

/// What is kept while rows are put in.
spec fn put_fairly(t: TermsV, p: ProgressV, old: Seq<VersionV>, lsn: u64) -> bool {
    let rows = p.draft.table.rows;
    &&& held_ok(t, p, lsn)
    &&& rows.len() >= old.len()
    &&& forall|i: int|
        0 <= i < old.len() ==> (#[trigger] rows[i]).vid == old[i].vid && (rows[i] == old[i] || (
        rows[i] == stamped(old[i], t.owner) && fair(old, t.pk, lsn, t.owner, i)))
    &&& forall|n: int|
        old.len() <= n < rows.len() ==> (#[trigger] rows[n]).create_lsn == PENDING && rows[n].owner
            == t.owner && (rows[n].delete_lsn == 0 || rows[n].delete_lsn == PENDING)
            && !t.contended.contains(key_at(rows[n].values, t.pk))
    &&& holders_seen(old, p.live, lsn, t.owner)
}

proof fn lemma_held_fairly(
    t: TermsV,
    p: ProgressV,
    key: Seq<char>,
    row: RowV,
    old: Seq<VersionV>,
    lsn: u64,
)
    requires
        put_fairly(t, p, old, lsn),
        held(t, p, key, row) is Ok,
        held_ok(t, held(t, p, key, row)->Ok_0, lsn),
        key == key_at(row, t.pk),
        !t.contended.contains(key),
    ensures
        put_fairly(t, held(t, p, key, row)->Ok_0, old, lsn),
{
    let q = held(t, p, key, row)->Ok_0;
    let rows = p.draft.table.rows;
    let now = q.draft.table.rows;
    let vid = p.draft.table.next_vid;
    assert(now =~= rows.push(pending_version(vid, row, t.owner)));
    assert forall|i: int| 0 <= i < old.len() implies (#[trigger] now[i]).vid == old[i].vid && (
    now[i] == old[i] || (now[i] == stamped(old[i], t.owner) && fair(old, t.pk, lsn, t.owner, i))) by {
        assert(now[i] == rows[i]);
    }
    assert forall|n: int| old.len() <= n < now.len() implies (#[trigger] now[n]).create_lsn
        == PENDING && now[n].owner == t.owner && (now[n].delete_lsn == 0 || now[n].delete_lsn
        == PENDING) && !t.contended.contains(key_at(now[n].values, t.pk)) by {
        if n < rows.len() {
            assert(now[n] == rows[n]);
        }
    }
    assert forall|a: int, j: int|
        #![trigger q.live[a], old[j]]
        0 <= a < q.live.len() && 0 <= j < old.len() && old[j].vid == q.live[a].1 implies writer_sees(
        old[j],
        lsn,
        t.owner,
    ) by {
        if a < p.live.len() {
            assert(q.live[a] == p.live[a]);
        } else {
            assert(rows[j].vid < vid);
            assert(rows[j].vid == old[j].vid);
        }
    }
}

proof fn lemma_put_fairly(
    t: TermsV,
    p: ProgressV,
    row: RowV,
    tick: u64,
    old: Seq<VersionV>,
    lsn: u64,
)
    requires
        put_fairly(t, p, old, lsn),
        stamps_ok(old, lsn),
        lsn < PENDING,
        t.pk.len() > 0,
        t.contended == contended_from(old, t.pk, Seq::empty(), lsn, t.owner, 0, Seq::empty()),
        put_row(t, p, row, tick) is Ok,
    ensures
        put_fairly(t, put_row(t, p, row, tick)->Ok_0, old, lsn),
{
    let key = key_at(row, t.pk);
    let rows = p.draft.table.rows;
    lemma_put_row_keys(t, p, row, tick, lsn);
    match holder_of(p.live, key, p.live.len() as int) {
        None => {
            lemma_held_fairly(t, p, key, row, old, lsn);
        },
        Some(vid) => match clashed(t, p.draft, vid, row, tick) {
            Ok(Some(new)) => {
                let d = superseded(p.draft, t.name, vid, t.owner);
                let m = ProgressV { draft: d, live: freed(p.live, key) };
                let now = d.table.rows;
                lemma_version_pos(rows, vid, 0);
                lemma_holder_noted(p.live, key, p.live.len() as int);
                let a = choose|a: int| 0 <= a < p.live.len() && #[trigger] p.live[a] == (key, vid);
                lemma_superseded_held(t, p, key, vid, lsn);
                assert(put_fairly(t, m, old, lsn)) by {
                    assert forall|i: int| 0 <= i < old.len() implies (#[trigger] now[i]).vid
                        == old[i].vid && (now[i] == old[i] || (now[i] == stamped(old[i], t.owner)
                        && fair(old, t.pk, lsn, t.owner, i))) by {
                        assert(rows[i].vid == old[i].vid);
                        if now[i] != rows[i] {
                            assert(rows[i].vid == vid);
                            assert(old[i].vid == p.live[a].1);
                            assert(rows[i].vid == p.live[a].1);
                            assert(writer_sees(old[i], lsn, t.owner));
                            assert(key_at(rows[i].values, t.pk) == key);
                            assert(old[i].values == rows[i].values);
                            assert(old[i].delete_lsn == PENDING || old[i].delete_lsn <= lsn);
                            assert forall|j: int|
                                0 <= j < old.len() && others_insert(
                                    #[trigger] old[j],
                                    lsn,
                                    t.owner,
                                ) implies key_at(old[j].values, t.pk) != key by {
                                lemma_contended(
                                    old,
                                    t.pk,
                                    Seq::empty(),
                                    lsn,
                                    t.owner,
                                    0,
                                    Seq::empty(),
                                    key_at(old[j].values, t.pk),
                                    j,
                                );
                            }
                        }
                    }
                    assert forall|n: int| old.len() <= n < now.len() implies (
                    #[trigger] now[n]).create_lsn == PENDING && now[n].owner == t.owner && (
                    now[n].delete_lsn == 0 || now[n].delete_lsn == PENDING)
                        && !t.contended.contains(key_at(now[n].values, t.pk)) by {
                        assert(rows[n].create_lsn == PENDING);
                    }
                    assert forall|b: int, j: int|
                        #![trigger m.live[b], old[j]]
                        0 <= b < m.live.len() && 0 <= j < old.len() && old[j].vid
                            == m.live[b].1 implies writer_sees(old[j], lsn, t.owner) by {
                        lemma_freed_noted(p.live, key, b);
                        let c = choose|c: int| 0 <= c < p.live.len() && p.live[c] == m.live[b];
                        assert(old[j].vid == p.live[c].1);
                    }
                }
                lemma_held_fairly(t, m, key_at(new, t.pk), new, old, lsn);
            },
            _ => {},
        },
    }
}

proof fn lemma_all_put_fairly(
    t: TermsV,
    rows: Seq<RowV>,
    i: int,
    p: ProgressV,
    old: Seq<VersionV>,
    lsn: u64,
)
    requires
        put_fairly(t, p, old, lsn),
        stamps_ok(old, lsn),
        lsn < PENDING,
        t.pk.len() > 0,
        t.contended == contended_from(old, t.pk, Seq::empty(), lsn, t.owner, 0, Seq::empty()),
        put_rows_from(t, rows, i, p) is Ok,
    ensures
        put_fairly(t, put_rows_from(t, rows, i, p)->Ok_0, old, lsn),
    decreases rows.len() - i,
{
    if 0 <= i < rows.len() {
        lemma_put_fairly(t, p, rows[i], i as u64, old, lsn);
        lemma_all_put_fairly(
            t,
            rows,
            i + 1,
            put_row(t, p, rows[i], i as u64)->Ok_0,
            old,
            lsn,
        );
    }
}

/// Every version that is noted as the holder of a key is live for `me`.
spec fn holders_seen(
    rows: Seq<VersionV>,
    live: Seq<(Seq<char>, u64)>,
    lsn: u64,
    me: u64,
) -> bool {
    forall|a: int, j: int|
        #![trigger live[a], rows[j]]
        0 <= a < live.len() && 0 <= j < rows.len() && rows[j].vid == live[a].1 ==> writer_sees(
            rows[j],
            lsn,
            me,
        )
}

proof fn lemma_live_seen(
    rows: Seq<VersionV>,
    pk: Seq<usize>,
    lsn: u64,
    me: u64,
    i: int,
    acc: Seq<(Seq<char>, u64)>,
)
    requires
        0 <= i,
        forall|a: int, b: int|
            #![trigger rows[a], rows[b]]
            0 <= a < rows.len() && 0 <= b < rows.len() && rows[a].vid == rows[b].vid ==> a == b,
        holders_seen(rows, acc, lsn, me),
    ensures
        holders_seen(rows, live_from(rows, pk, lsn, me, i, acc), lsn, me),
    decreases rows.len() - i,
{
    if i < rows.len() {
        if writer_sees(rows[i], lsn, me) {
            let next = acc.push((key_at(rows[i].values, pk), rows[i].vid));
            assert forall|a: int, j: int|
                #![trigger next[a], rows[j]]
                0 <= a < next.len() && 0 <= j < rows.len() && rows[j].vid == next[a].1 implies writer_sees(
                rows[j],
                lsn,
                me,
            ) by {
                if a < acc.len() {
                    assert(next[a] == acc[a]);
                } else {
                    assert(rows[i].vid == rows[j].vid);
                }
            }
            lemma_live_seen(rows, pk, lsn, me, i + 1, next);
        } else {
            lemma_live_seen(rows, pk, lsn, me, i + 1, acc);
        }
    }
}

/// An `INSERT` keeps versions with one key apart, whatever is done on a clash:
/// transactions that insert one key side by side never leave two rows with it.
pub proof fn law_insert_keeps_apart(
    s: StoreV,
    name: Seq<char>,
    columns: Option<Seq<Seq<char>>>,
    source: InsertSourceV,
    on_conflict: OnConflictV,
    returning: Option<Seq<ItemV>>,
    wc: WriteV,
    i: int,
)
    requires
        table_pos(s, name) == Some(i),
        0 <= i < s.tables.len(),
        vids_ok(s.tables[i]),
        key_columns(s.tables[i].schema.columns).len() > 0,
        never_together(s.tables[i].rows, key_columns(s.tables[i].schema.columns)),
        stamps_ok(s.tables[i].rows, s.committed_lsn),
        s.committed_lsn < PENDING,
        inserted(s, name, columns, source, on_conflict, returning, wc) is Ok,
    ensures
        never_together(
            inserted(s, name, columns, source, on_conflict, returning, wc)->Ok_0.0.tables[i].rows,
            key_columns(s.tables[i].schema.columns),
        ),
        stamps_ok(
            inserted(s, name, columns, source, on_conflict, returning, wc)->Ok_0.0.tables[i].rows,
            s.committed_lsn,
        ),
{
    let t0 = s.tables[i];
    let old = t0.rows;
    let lsn = s.committed_lsn;
    let me = wc.owner;
    let pk = key_columns(t0.schema.columns);
    law_no_duplicate_is_seen(old, pk, lsn, me);
    law_insert_keeps_keys(s, name, columns, source, on_conflict, returning, wc, i);
    let slots = slots_of(s, t0.schema, columns, source, wc)->Ok_0;
    let (rows, auto) = staged_of(slots, t0.schema, name, t0.next_autoinc, wc.env)->Ok_0;
    let t = TableV { next_autoinc: auto, ..t0 };
    let terms = terms_of(
        s,
        t0,
        name,
        on_conflict,
        clash_rules(t0.schema, on_conflict, wc.env)->Ok_0,
        wc,
    );
    let p = ProgressV {
        draft: fresh_draft(t),
        live: live_from(t.rows, pk, lsn, me, 0, Seq::empty()),
    };
    assert(vids_ok(t)) by {
        assert forall|a: int| 0 <= a < t.rows.len() implies (#[trigger] t.rows[a]).vid
            < t.next_vid by {
            assert(t0.rows[a].vid < t0.next_vid);
        }
    }
    lemma_live_holders(t.rows, pk, lsn, me, 0, Seq::empty());
    lemma_live_entries(t, pk, lsn, me, 0, Seq::empty());
    lemma_live_seen(t.rows, pk, lsn, me, 0, Seq::empty());
    assert(put_fairly(terms, p, old, lsn));
    lemma_all_put_fairly(terms, rows, 0, p, old, lsn);
    let q = put_rows_from(terms, rows, 0, p)->Ok_0;
    let d = insert_draft(s, t0, name, columns, source, on_conflict, wc)->Ok_0;
    assert(d == q.draft);
    assert(with_table(s, i, d.table).tables[i] == d.table);
    let now = d.table.rows;
    assert(fairly_written(old, now, pk, lsn, me)) by {
        assert forall|n: int, j: int|
            #![trigger now[n], old[j]]
            old.len() <= n < now.len() && 0 <= j < old.len() && others_insert(
                old[j],
                lsn,
                me,
            ) implies key_at(old[j].values, pk) != key_at(now[n].values, pk) by {
            lemma_contended(
                old,
                pk,
                Seq::empty(),
                lsn,
                me,
                0,
                Seq::empty(),
                key_at(old[j].values, pk),
                j,
            );
        }
    }
    lemma_fairly_written(old, now, pk, lsn, me);
}

} // verus!
