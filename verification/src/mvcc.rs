//! Commit, rollback, savepoints and replay over the versioned store.
use vstd::prelude::*;
use crate::catalog::{
    column_pos, columns_view, lemma_column_at, policies_view, Column, ColumnV, Policy, PolicyV,
    SchemaV, TableSchema,
};
use crate::eval::cell;
use crate::sql::SelectStmt;
use crate::store::{
    distinct_names, indexes_off, lemma_remove_names, name_pos, new_table, put_table, put_view,
    reader_sees, store_ok, table_names, table_pos, version_pos, versions_view, view_names,
    with_table, writer_sees, PENDING, RowVersion, Store, StoreV, Table, TableV, VersionV, ViewV,
};
use crate::text::{names_match, owned, same_name};
use crate::value::{row_view, RowV, Value, ValueV};

verus! {

// ---- commit -----------------------------------------------------------------------------------

/// A version after its owner committed at a sequence number.
pub open spec fn finalized(v: VersionV, owner: u64, lsn: u64) -> VersionV {
    if v.owner != owner {
        v
    } else {
        VersionV {
            create_lsn: if v.create_lsn == PENDING {
                lsn
            } else {
                v.create_lsn
            },
            delete_lsn: if v.delete_lsn == PENDING {
                lsn
            } else {
                v.delete_lsn
            },
            owner: 0,
            ..v
        }
    }
}

pub open spec fn finalized_rows(rows: Seq<VersionV>, owner: u64, lsn: u64) -> Seq<VersionV> {
    Seq::new(rows.len(), |i: int| finalized(rows[i], owner, lsn))
}

pub open spec fn finalized_table(t: TableV, owner: u64, lsn: u64) -> TableV {
    TableV { rows: finalized_rows(t.rows, owner, lsn), ..t }
}

/// The store after an owner committed.
pub open spec fn committed(s: StoreV, owner: u64, lsn: u64) -> StoreV {
    StoreV {
        tables: Seq::new(s.tables.len(), |i: int| finalized_table(s.tables[i], owner, lsn)),
        ..s
    }
}

/// The ids whose deletion an owner has pending, in row order, from `i` on.
pub open spec fn ending_from(rows: Seq<VersionV>, owner: u64, i: int, acc: Seq<u64>) -> Seq<u64>
    decreases rows.len() - i,
{
    if i < 0 || i >= rows.len() {
        acc
    } else if rows[i].owner == owner && rows[i].delete_lsn == PENDING {
        ending_from(rows, owner, i + 1, acc.push(rows[i].vid))
    } else {
        ending_from(rows, owner, i + 1, acc)
    }
}

/// Per table with any, the ids whose deletion an owner has pending.
pub open spec fn endings_from(
    ts: Seq<TableV>,
    owner: u64,
    i: int,
    acc: Seq<(Seq<char>, Seq<u64>)>,
) -> Seq<(Seq<char>, Seq<u64>)>
    decreases ts.len() - i,
{
    if i < 0 || i >= ts.len() {
        acc
    } else {
        let vids = ending_from(ts[i].rows, owner, 0, Seq::empty());
        if vids.len() > 0 {
            endings_from(ts, owner, i + 1, acc.push((ts[i].schema.name, vids)))
        } else {
            endings_from(ts, owner, i + 1, acc)
        }
    }
}

pub open spec fn named_ids_view(v: Seq<(String, Vec<u64>)>) -> Seq<(Seq<char>, Seq<u64>)> {
    Seq::new(v.len(), |i: int| (v[i].0@, v[i].1@))
}

fn finalize_rows(rows: &mut Vec<RowVersion>, owner: u64, lsn: u64) -> (ended: Vec<u64>)
    ensures
        versions_view(final(rows)@) == finalized_rows(versions_view(old(rows)@), owner, lsn),
        ended@ == ending_from(versions_view(old(rows)@), owner, 0, Seq::empty()),
{
    let ghost before = versions_view(rows@);
    let mut ended: Vec<u64> = Vec::new();
    let mut i: usize = 0;
    while i < rows.len()
        invariant
            i <= rows.len(),
            rows.len() == before.len(),
            forall|j: int| 0 <= j < i ==> #[trigger] rows@[j]@ == finalized(before[j], owner, lsn),
            forall|j: int| i <= j < rows.len() ==> #[trigger] rows@[j]@ == before[j],
            ending_from(before, owner, i as int, ended@) == ending_from(
                before,
                owner,
                0,
                Seq::empty(),
            ),
        decreases rows.len() - i,
    {
        assert(rows@[i as int]@ == before[i as int]);
        if rows[i].owner == owner {
            if rows[i].create_lsn == PENDING {
                rows[i].create_lsn = lsn;
            }
            if rows[i].delete_lsn == PENDING {
                rows[i].delete_lsn = lsn;
                ended.push(rows[i].vid);
            }
            rows[i].owner = 0;
        }
        i += 1;
    }
    assert(versions_view(rows@) =~= finalized_rows(before, owner, lsn));
    ended
}

// ---- rollback ---------------------------------------------------------------------------------

/// Whether a rollback removes a version: a pending insert that was not saved.
pub open spec fn discards(v: VersionV, owner: u64, inserted: Seq<u64>) -> bool {
    v.owner == owner && v.create_lsn == PENDING && !inserted.contains(v.vid)
}

/// A version that a rollback keeps: its pending delete is undone unless it was saved.
pub open spec fn revived(v: VersionV, owner: u64, deleted: Seq<u64>) -> VersionV {
    if v.owner == owner && v.delete_lsn == PENDING && !deleted.contains(v.vid) {
        VersionV {
            delete_lsn: 0,
            owner: if v.create_lsn != PENDING {
                0
            } else {
                v.owner
            },
            ..v
        }
    } else {
        v
    }
}

/// The rows after a rollback to a saved pending set, from `i` on.
pub open spec fn undone_from(
    rows: Seq<VersionV>,
    owner: u64,
    inserted: Seq<u64>,
    deleted: Seq<u64>,
    i: int,
    acc: Seq<VersionV>,
) -> Seq<VersionV>
    decreases rows.len() - i,
{
    if i < 0 || i >= rows.len() {
        acc
    } else if discards(rows[i], owner, inserted) {
        undone_from(rows, owner, inserted, deleted, i + 1, acc)
    } else {
        undone_from(
            rows,
            owner,
            inserted,
            deleted,
            i + 1,
            acc.push(revived(rows[i], owner, deleted)),
        )
    }
}

pub open spec fn undone(
    rows: Seq<VersionV>,
    owner: u64,
    inserted: Seq<u64>,
    deleted: Seq<u64>,
) -> Seq<VersionV> {
    undone_from(rows, owner, inserted, deleted, 0, Seq::empty())
}

/// The ids that a rollback removes, in row order, from `i` on.
pub open spec fn discarded_from(
    rows: Seq<VersionV>,
    owner: u64,
    inserted: Seq<u64>,
    i: int,
    acc: Seq<u64>,
) -> Seq<u64>
    decreases rows.len() - i,
{
    if i < 0 || i >= rows.len() {
        acc
    } else if discards(rows[i], owner, inserted) {
        discarded_from(rows, owner, inserted, i + 1, acc.push(rows[i].vid))
    } else {
        discarded_from(rows, owner, inserted, i + 1, acc)
    }
}

/// What an owner has pending in one table.
pub struct PendingSet {
    pub table: String,
    pub inserted: Vec<u64>,
    pub deleted: Vec<u64>,
}

pub struct PendingSetV {
    pub table: Seq<char>,
    pub inserted: Seq<u64>,
    pub deleted: Seq<u64>,
}

impl View for PendingSet {
    type V = PendingSetV;

    open spec fn view(&self) -> PendingSetV {
        PendingSetV { table: self.table@, inserted: self.inserted@, deleted: self.deleted@ }
    }
}

pub open spec fn pending_sets_view(v: Seq<PendingSet>) -> Seq<PendingSetV> {
    Seq::new(v.len(), |i: int| v[i]@)
}

/// The ids that an owner has pending inserts for, in row order, from `i` on.
pub open spec fn starting_from(rows: Seq<VersionV>, owner: u64, i: int, acc: Seq<u64>) -> Seq<u64>
    decreases rows.len() - i,
{
    if i < 0 || i >= rows.len() {
        acc
    } else if rows[i].owner == owner && rows[i].create_lsn == PENDING {
        starting_from(rows, owner, i + 1, acc.push(rows[i].vid))
    } else {
        starting_from(rows, owner, i + 1, acc)
    }
}

pub open spec fn pending_in(t: TableV, owner: u64) -> PendingSetV {
    PendingSetV {
        table: t.schema.name,
        inserted: starting_from(t.rows, owner, 0, Seq::empty()),
        deleted: ending_from(t.rows, owner, 0, Seq::empty()),
    }
}

/// What an owner has pending, table by table.
pub open spec fn pending_of(s: StoreV, owner: u64) -> Seq<PendingSetV> {
    Seq::new(s.tables.len(), |i: int| pending_in(s.tables[i], owner))
}

/// The first saved set for a table, from `i` on; an empty one where there is none.
pub open spec fn saved_for(saved: Seq<PendingSetV>, table: Seq<char>, i: int) -> PendingSetV
    decreases saved.len() - i,
{
    if i < 0 || i >= saved.len() {
        PendingSetV { table, inserted: Seq::empty(), deleted: Seq::empty() }
    } else if same_name(saved[i].table, table) {
        saved[i]
    } else {
        saved_for(saved, table, i + 1)
    }
}

pub open spec fn undone_table(t: TableV, owner: u64, saved: Seq<PendingSetV>) -> TableV {
    let p = saved_for(saved, t.schema.name, 0);
    TableV { rows: undone(t.rows, owner, p.inserted, p.deleted), ..t }
}

/// The store after a rollback to a saved pending state.
pub open spec fn rolled_back(s: StoreV, owner: u64, saved: Seq<PendingSetV>) -> StoreV {
    StoreV {
        tables: Seq::new(s.tables.len(), |i: int| undone_table(s.tables[i], owner, saved)),
        ..s
    }
}

/// Per table with any, the ids that a rollback removes.
pub open spec fn removals_from(
    ts: Seq<TableV>,
    owner: u64,
    saved: Seq<PendingSetV>,
    i: int,
    acc: Seq<(Seq<char>, Seq<u64>)>,
) -> Seq<(Seq<char>, Seq<u64>)>
    decreases ts.len() - i,
{
    if i < 0 || i >= ts.len() {
        acc
    } else {
        let p = saved_for(saved, ts[i].schema.name, 0);
        let vids = discarded_from(ts[i].rows, owner, p.inserted, 0, Seq::empty());
        if vids.len() > 0 {
            removals_from(ts, owner, saved, i + 1, acc.push((ts[i].schema.name, vids)))
        } else {
            removals_from(ts, owner, saved, i + 1, acc)
        }
    }
}

fn contains_id(ids: &Vec<u64>, vid: u64) -> (r: bool)
    ensures
        r == ids@.contains(vid),
{
    let mut i: usize = 0;
    while i < ids.len()
        invariant
            i <= ids.len(),
            forall|j: int| 0 <= j < i ==> ids@[j] != vid,
        decreases ids.len() - i,
    {
        if ids[i] == vid {
            assert(ids@.contains(vid));
            return true;
        }
        i += 1;
    }
    false
}

fn undo_rows(rows: &mut Vec<RowVersion>, owner: u64, inserted: &Vec<u64>, deleted: &Vec<u64>) -> (
    gone: Vec<u64>)
    ensures
        versions_view(final(rows)@) == undone(
            versions_view(old(rows)@),
            owner,
            inserted@,
            deleted@,
        ),
        gone@ == discarded_from(versions_view(old(rows)@), owner, inserted@, 0, Seq::empty()),
{
    let ghost before = versions_view(rows@);
    let mut gone: Vec<u64> = Vec::new();
    let mut k: usize = 0;
    let ghost mut j: int = 0;
    let ghost mut acc: Seq<VersionV> = Seq::empty();
    assert(versions_view(rows@) =~= acc + before.skip(0));
    while k < rows.len()
        invariant
            k <= rows.len(),
            0 <= j <= before.len(),
            acc.len() == k,
            versions_view(rows@) == acc + before.skip(j),
            undone_from(before, owner, inserted@, deleted@, j, acc) == undone(
                before,
                owner,
                inserted@,
                deleted@,
            ),
            discarded_from(before, owner, inserted@, j, gone@) == discarded_from(
                before,
                owner,
                inserted@,
                0,
                Seq::empty(),
            ),
        decreases rows.len() - k,
    {
        let ghost here = versions_view(rows@);
        assert(here.len() == rows@.len());
        assert(here[k as int] == rows@[k as int]@);
        assert(j < before.len());
        assert(here[k as int] == before[j]);
        if rows[k].owner == owner && rows[k].create_lsn == PENDING && !contains_id(
            inserted,
            rows[k].vid,
        ) {
            gone.push(rows[k].vid);
            let _dropped = rows.remove(k);
            proof {
                assert(versions_view(rows@) =~= here.remove(k as int));
                assert(here.remove(k as int) =~= acc + before.skip(j + 1));
            }
        } else {
            if rows[k].owner == owner && rows[k].delete_lsn == PENDING && !contains_id(
                deleted,
                rows[k].vid,
            ) {
                rows[k].delete_lsn = 0;
                if rows[k].create_lsn != PENDING {
                    rows[k].owner = 0;
                }
            }
            proof {
                let nv = revived(before[j], owner, deleted@);
                assert(rows@[k as int]@ == nv);
                assert(versions_view(rows@) =~= here.update(k as int, nv));
                assert(here.update(k as int, nv) =~= acc.push(nv) + before.skip(j + 1));
                acc = acc.push(nv);
            }
            k += 1;
        }
        proof {
            j = j + 1;
        }
    }
    proof {
        assert(versions_view(rows@).len() == rows@.len());
        assert(j == before.len());
        assert(versions_view(rows@) =~= acc);
    }
    gone
}

proof fn lemma_frame(s: StoreV, t: StoreV)
    requires
        store_ok(s),
        t.indexes == s.indexes,
        t.views == s.views,
        t.tables.len() == s.tables.len(),
        forall|i: int|
            0 <= i < s.tables.len() ==> (#[trigger] t.tables[i]).schema.name
                == s.tables[i].schema.name,
    ensures
        store_ok(t),
{
    assert(table_names(t.tables) =~= table_names(s.tables));
}

impl Store {
    /// Publish an owner's pending versions at a sequence number. What it had pending
    /// deletes for comes back, so that indexes can follow.
    pub fn finalize_owner(&mut self, owner: u64, commit_lsn: u64) -> (ended: Vec<
        (String, Vec<u64>),
    >)
        requires
            store_ok(old(self)@),
        ensures
            final(self)@ == committed(old(self)@, owner, commit_lsn),
            store_ok(final(self)@),
            named_ids_view(ended@) == endings_from(old(self)@.tables, owner, 0, Seq::empty()),
    {
        let ghost before = self@;
        let mut ended: Vec<(String, Vec<u64>)> = Vec::new();
        assert(named_ids_view(ended@) =~= Seq::<(Seq<char>, Seq<u64>)>::empty());
        let mut i: usize = 0;
        while i < self.tables.len()
            invariant
                i <= self.tables.len(),
                self.tables.len() == before.tables.len(),
                self@.indexes == before.indexes,
                self@.views == before.views,
                self@.committed_lsn == before.committed_lsn,
                forall|j: int|
                    0 <= j < i ==> #[trigger] self.tables@[j]@ == finalized_table(
                        before.tables[j],
                        owner,
                        commit_lsn,
                    ),
                forall|j: int|
                    i <= j < self.tables.len() ==> #[trigger] self.tables@[j]@ == before.tables[j],
                endings_from(before.tables, owner, i as int, named_ids_view(ended@))
                    == endings_from(before.tables, owner, 0, Seq::empty()),
            decreases self.tables.len() - i,
        {
            assert(self.tables@[i as int]@ == before.tables[i as int]);
            let name: String = self.tables[i].schema.name.clone();
            let vids = finalize_rows(&mut self.tables[i].rows, owner, commit_lsn);
            if vids.len() > 0 {
                let ghost ev = named_ids_view(ended@);
                let ghost entry = (name@, vids@);
                ended.push((name, vids));
                assert(named_ids_view(ended@) =~= ev.push(entry));
            }
            i += 1;
        }
        assert(self@.tables =~= committed(before, owner, commit_lsn).tables);
        proof {
            lemma_frame(before, self@);
        }
        ended
    }

    /// What an owner has pending now, for a savepoint.
    pub fn pending_snapshot(&self, owner: u64) -> (r: Vec<PendingSet>)
        ensures
            pending_sets_view(r@) == pending_of(self@, owner),
    {
        let ghost sv = self@;
        let mut out: Vec<PendingSet> = Vec::new();
        let mut i: usize = 0;
        while i < self.tables.len()
            invariant
                i <= self.tables.len(),
                sv == self@,
                out.len() == i,
                forall|j: int|
                    0 <= j < i ==> #[trigger] out@[j]@ == pending_in(sv.tables[j], owner),
            decreases self.tables.len() - i,
        {
            let ghost rv = sv.tables[i as int].rows;
            assert(sv.tables[i as int] == self.tables@[i as int]@);
            let mut inserted: Vec<u64> = Vec::new();
            let mut deleted: Vec<u64> = Vec::new();
            let mut k: usize = 0;
            while k < self.tables[i as usize].rows.len()
                invariant
                    i < self.tables.len(),
                    k <= self.tables@[i as int].rows.len(),
                    rv == versions_view(self.tables@[i as int].rows@),
                    starting_from(rv, owner, k as int, inserted@) == starting_from(
                        rv,
                        owner,
                        0,
                        Seq::empty(),
                    ),
                    ending_from(rv, owner, k as int, deleted@) == ending_from(
                        rv,
                        owner,
                        0,
                        Seq::empty(),
                    ),
                decreases self.tables@[i as int].rows.len() - k,
            {
                let r = &self.tables[i].rows[k];
                assert(rv[k as int] == r@);
                if r.owner == owner {
                    if r.create_lsn == PENDING {
                        inserted.push(r.vid);
                    }
                    if r.delete_lsn == PENDING {
                        deleted.push(r.vid);
                    }
                }
                k += 1;
            }
            out.push(
                PendingSet { table: self.tables[i].schema.name.clone(), inserted, deleted },
            );
            i += 1;
        }
        assert(pending_sets_view(out@) =~= pending_of(sv, owner));
        out
    }

    /// Roll an owner's pending state back to a saved one: newer pending inserts go,
    /// newer pending deletes are undone. What was removed comes back, so that
    /// indexes can follow.
    pub fn rollback_to_savepoint(&mut self, owner: u64, saved: &Vec<PendingSet>) -> (gone: Vec<
        (String, Vec<u64>),
    >)
        requires
            store_ok(old(self)@),
        ensures
            final(self)@ == rolled_back(old(self)@, owner, pending_sets_view(saved@)),
            store_ok(final(self)@),
            named_ids_view(gone@) == removals_from(
                old(self)@.tables,
                owner,
                pending_sets_view(saved@),
                0,
                Seq::empty(),
            ),
    {
        let ghost before = self@;
        let ghost sets = pending_sets_view(saved@);
        let mut gone: Vec<(String, Vec<u64>)> = Vec::new();
        assert(named_ids_view(gone@) =~= Seq::<(Seq<char>, Seq<u64>)>::empty());
        let none: Vec<u64> = Vec::new();
        let mut i: usize = 0;
        while i < self.tables.len()
            invariant
                i <= self.tables.len(),
                self.tables.len() == before.tables.len(),
                self@.indexes == before.indexes,
                self@.views == before.views,
                self@.committed_lsn == before.committed_lsn,
                sets == pending_sets_view(saved@),
                none@ == Seq::<u64>::empty(),
                forall|j: int|
                    0 <= j < i ==> #[trigger] self.tables@[j]@ == undone_table(
                        before.tables[j],
                        owner,
                        sets,
                    ),
                forall|j: int|
                    i <= j < self.tables.len() ==> #[trigger] self.tables@[j]@ == before.tables[j],
                removals_from(before.tables, owner, sets, i as int, named_ids_view(gone@))
                    == removals_from(before.tables, owner, sets, 0, Seq::empty()),
            decreases self.tables.len() - i,
        {
            assert(self.tables@[i as int]@ == before.tables[i as int]);
            let name: String = self.tables[i].schema.name.clone();
            let mut k: usize = 0;
            while k < saved.len() && !names_match(&saved[k].table, &name)
                invariant
                    k <= saved.len(),
                    sets == pending_sets_view(saved@),
                    saved_for(sets, name@, k as int) == saved_for(sets, name@, 0),
                decreases saved.len() - k,
            {
                assert(sets[k as int] == saved@[k as int]@);
                k += 1;
            }
            let ghost p = saved_for(sets, name@, 0);
            let vids = if k < saved.len() {
                assert(sets[k as int] == saved@[k as int]@);
                undo_rows(
                    &mut self.tables[i].rows,
                    owner,
                    &saved[k].inserted,
                    &saved[k].deleted,
                )
            } else {
                undo_rows(&mut self.tables[i].rows, owner, &none, &none)
            };
            if vids.len() > 0 {
                let ghost ev = named_ids_view(gone@);
                let ghost entry = (name@, vids@);
                gone.push((name, vids));
                assert(named_ids_view(gone@) =~= ev.push(entry));
            }
            i += 1;
        }
        assert(self@.tables =~= rolled_back(before, owner, sets).tables);
        proof {
            lemma_frame(before, self@);
        }
        gone
    }

    /// Discard everything an owner has pending.
    pub fn rollback_owner(&mut self, owner: u64) -> (gone: Vec<(String, Vec<u64>)>)
        requires
            store_ok(old(self)@),
        ensures
            final(self)@ == rolled_back(old(self)@, owner, Seq::empty()),
            store_ok(final(self)@),
            named_ids_view(gone@) == removals_from(
                old(self)@.tables,
                owner,
                Seq::empty(),
                0,
                Seq::empty(),
            ),
    {
        let saved: Vec<PendingSet> = Vec::new();
        assert(pending_sets_view(saved@) =~= Seq::<PendingSetV>::empty());
        self.rollback_to_savepoint(owner, &saved)
    }
}


// ---- replay -----------------------------------------------------------------------------------

/// A table with a committed version put behind the others.
pub open spec fn replayed_insert(t: TableV, vid: u64, values: RowV, lsn: u64) -> TableV {
    let after = if vid == u64::MAX {
        u64::MAX
    } else {
        (vid + 1) as u64
    };
    TableV {
        rows: t.rows.push(
            VersionV { vid, values, create_lsn: lsn, delete_lsn: 0, owner: 0 },
        ),
        next_vid: if after > t.next_vid {
            after
        } else {
            t.next_vid
        },
        ..t
    }
}

/// A table with a version marked deleted at a sequence number.
pub open spec fn replayed_delete(t: TableV, vid: u64, lsn: u64) -> TableV {
    match version_pos(t.rows, vid, 0) {
        Some(i) => TableV {
            rows: t.rows.update(i, VersionV { delete_lsn: lsn, ..t.rows[i] }),
            ..t
        },
        None => t,
    }
}

/// The store with one named table changed, or as it was where there is none.
pub open spec fn on_table(s: StoreV, name: Seq<char>, f: spec_fn(TableV) -> TableV) -> StoreV {
    match table_pos(s, name) {
        Some(i) => with_table(s, i, f(s.tables[i])),
        None => s,
    }
}

impl Store {
    pub fn replay_create(&mut self, schema: TableSchema)
        requires
            store_ok(old(self)@),
        ensures
            final(self)@ == (StoreV {
                tables: put_table(old(self)@.tables, new_table(schema@)),
                ..old(self)@
            }),
            store_ok(final(self)@),
    {
        self.insert_table(schema);
    }

    pub fn replay_drop(&mut self, name: &str)
        requires
            store_ok(old(self)@),
        ensures
            final(self)@ == (StoreV {
                tables: match table_pos(old(self)@, name@) {
                    Some(i) => old(self)@.tables.remove(i),
                    None => old(self)@.tables,
                },
                indexes: indexes_off(old(self)@.indexes, name@),
                ..old(self)@
            }),
            store_ok(final(self)@),
    {
        let _existed = self.drop_table(name);
    }

    pub fn replay_create_view(&mut self, name: String, query: SelectStmt)
        requires
            store_ok(old(self)@),
        ensures
            final(self)@ == (StoreV {
                views: put_view(old(self)@.views, ViewV { name: name@, query: query@ }),
                ..old(self)@
            }),
            store_ok(final(self)@),
    {
        self.insert_view(name, query);
    }

    pub fn replay_drop_view(&mut self, name: &str)
        requires
            store_ok(old(self)@),
        ensures
            final(self)@ == (StoreV {
                views: match name_pos(view_names(old(self)@.views), name@, 0) {
                    Some(i) => old(self)@.views.remove(i),
                    None => old(self)@.views,
                },
                ..old(self)@
            }),
            store_ok(final(self)@),
    {
        let _existed = self.drop_view(name);
    }

    /// Apply a logged insert.
    pub fn replay_insert(&mut self, table: &str, vid: u64, values: Vec<Value>, commit_lsn: u64)
        requires
            store_ok(old(self)@),
        ensures
            final(self)@ == on_table(
                old(self)@,
                table@,
                |t: TableV| replayed_insert(t, vid, row_view(values@), commit_lsn),
            ),
            store_ok(final(self)@),
    {
        let ghost before = self@;
        let ghost vv = row_view(values@);
        match self.find_table(table) {
            Some(i) => {
                assert(before.tables[i as int] == self.tables@[i as int]@);
                let ghost rv = versions_view(self.tables@[i as int].rows@);
                let after: u64 = if vid == u64::MAX {
                    u64::MAX
                } else {
                    vid + 1
                };
                self.tables[i].rows.push(
                    RowVersion { vid, values, create_lsn: commit_lsn, delete_lsn: 0, owner: 0 },
                );
                if after > self.tables[i].next_vid {
                    self.tables[i].next_vid = after;
                }
                proof {
                    let nv = replayed_insert(before.tables[i as int], vid, vv, commit_lsn);
                    assert(versions_view(self.tables@[i as int].rows@) =~= nv.rows);
                    assert(self.tables@[i as int]@ == nv);
                    assert(self@.tables =~= before.tables.update(i as int, nv));
                    lemma_frame(before, self@);
                }
            },
            None => {},
        }
    }

    /// Apply a logged delete.
    pub fn replay_delete(&mut self, table: &str, vid: u64, commit_lsn: u64)
        requires
            store_ok(old(self)@),
        ensures
            final(self)@ == on_table(
                old(self)@,
                table@,
                |t: TableV| replayed_delete(t, vid, commit_lsn),
            ),
            store_ok(final(self)@),
    {
        let ghost before = self@;
        match self.find_table(table) {
            Some(i) => {
                assert(before.tables[i as int] == self.tables@[i as int]@);
                match self.tables[i].find_version(vid) {
                    Some(k) => {
                        self.tables[i].rows[k].delete_lsn = commit_lsn;
                        proof {
                            let nv = replayed_delete(before.tables[i as int], vid, commit_lsn);
                            assert(versions_view(self.tables@[i as int].rows@) =~= nv.rows);
                            assert(self.tables@[i as int]@ == nv);
                        }
                    },
                    None => {},
                }
                proof {
                    let nv = replayed_delete(before.tables[i as int], vid, commit_lsn);
                    assert(self@.tables =~= before.tables.update(i as int, nv));
                    lemma_frame(before, self@);
                }
            },
            None => {},
        }
    }
}

// ---- schema evolution -------------------------------------------------------------------------

pub open spec fn with_value(rows: Seq<VersionV>, v: ValueV) -> Seq<VersionV> {
    Seq::new(rows.len(), |i: int| VersionV { values: rows[i].values.push(v), ..rows[i] })
}

/// A table with a column behind the others, its value filled in everywhere.
pub open spec fn with_column(t: TableV, c: ColumnV, fill: ValueV) -> TableV {
    TableV {
        schema: SchemaV { columns: t.schema.columns.push(c), ..t.schema },
        rows: with_value(t.rows, fill),
        ..t
    }
}

pub open spec fn without_value(r: RowV, i: int) -> RowV {
    if 0 <= i < r.len() {
        r.remove(i)
    } else {
        r
    }
}

/// A table without a column.
pub open spec fn without_column(t: TableV, name: Seq<char>) -> TableV {
    match column_pos(t.schema, name) {
        Some(i) => TableV {
            schema: SchemaV { columns: t.schema.columns.remove(i as int), ..t.schema },
            rows: Seq::new(
                t.rows.len(),
                |k: int| VersionV {
                    values: without_value(t.rows[k].values, i as int),
                    ..t.rows[k]
                },
            ),
            ..t
        },
        None => t,
    }
}

/// A table with a column renamed.
pub open spec fn with_renamed(t: TableV, from: Seq<char>, to: Seq<char>) -> TableV {
    match column_pos(t.schema, from) {
        Some(i) => TableV {
            schema: SchemaV {
                columns: t.schema.columns.update(
                    i as int,
                    ColumnV { name: to, ..t.schema.columns[i as int] },
                ),
                ..t.schema
            },
            ..t
        },
        None => t,
    }
}

/// A table with a policy behind the others.
pub open spec fn with_policy(t: TableV, p: PolicyV) -> TableV {
    TableV { schema: SchemaV { policies: t.schema.policies.push(p), ..t.schema }, ..t }
}

pub open spec fn policy_names(ps: Seq<PolicyV>) -> Seq<Seq<char>> {
    Seq::new(ps.len(), |i: int| ps[i].name)
}

/// A table without a policy.
pub open spec fn without_policy(t: TableV, name: Seq<char>) -> TableV {
    match name_pos(policy_names(t.schema.policies), name, 0) {
        Some(i) => TableV {
            schema: SchemaV { policies: t.schema.policies.remove(i), ..t.schema },
            ..t
        },
        None => t,
    }
}

/// A table that enforces its policies, or does not.
pub open spec fn with_rls(t: TableV, on: bool) -> TableV {
    TableV { schema: SchemaV { rls_enabled: on, ..t.schema }, ..t }
}

/// Where a policy stands.
pub fn find_policy(ps: &Vec<Policy>, name: &str) -> (r: Option<usize>)
    ensures
        match r {
            Some(i) => i < ps.len() && name_pos(
                policy_names(policies_view(ps@)),
                name@,
                0,
            ) == Some(i as int),
            None => name_pos(policy_names(policies_view(ps@)), name@, 0) is None,
        },
{
    let ghost nv = policy_names(policies_view(ps@));
    let mut i: usize = 0;
    while i < ps.len()
        invariant
            i <= ps.len(),
            nv == policy_names(policies_view(ps@)),
            name_pos(nv, name@, i as int) == name_pos(nv, name@, 0),
        decreases ps.len() - i,
    {
        assert(nv[i as int] == ps@[i as int].name@);
        if names_match(&ps[i].name, name) {
            return Some(i);
        }
        i += 1;
    }
    None
}

/// The tables after one was renamed; another of the new name gives way.
pub open spec fn renamed_table(ts: Seq<TableV>, from: Seq<char>, to: Seq<char>) -> Seq<TableV> {
    match name_pos(table_names(ts), from, 0) {
        Some(i) => put_table(
            ts.remove(i),
            TableV { schema: SchemaV { name: to, ..ts[i].schema }, ..ts[i] },
        ),
        None => ts,
    }
}

/// The first auto-increment column, from `i` on.
pub open spec fn counter_at(cols: Seq<ColumnV>, i: int) -> Option<int>
    decreases cols.len() - i,
{
    if i < 0 || i >= cols.len() {
        None
    } else if cols[i].autoincrement {
        Some(i)
    } else {
        counter_at(cols, i + 1)
    }
}

/// The largest integer in a column, from a floor and from `i` on.
pub open spec fn largest_from(rows: Seq<VersionV>, c: int, i: int, best: i64) -> i64
    decreases rows.len() - i,
{
    if i < 0 || i >= rows.len() {
        best
    } else {
        match cell(rows[i].values, c) {
            ValueV::Int(v) => largest_from(
                rows,
                c,
                i + 1,
                if v > best {
                    v
                } else {
                    best
                },
            ),
            _ => largest_from(rows, c, i + 1, best),
        }
    }
}

/// One past an auto-increment value; the largest has nothing past it.
pub open spec fn after(v: i64) -> i64 {
    if v == i64::MAX {
        v
    } else {
        (v + 1) as i64
    }
}

/// A table with its auto-increment counter set past every value in its column.
pub open spec fn recounted(t: TableV) -> TableV {
    match counter_at(t.schema.columns, 0) {
        Some(c) => TableV { next_autoinc: after(largest_from(t.rows, c, 0, 0)), ..t },
        None => t,
    }
}

fn recount(t: &mut Table)
    ensures
        final(t)@ == recounted(old(t)@),
{
    let ghost tv = t@;
    let mut c: usize = 0;
    while c < t.schema.columns.len() && !t.schema.columns[c].autoincrement
        invariant
            c <= t.schema.columns.len(),
            tv == t@,
            counter_at(tv.schema.columns, c as int) == counter_at(tv.schema.columns, 0),
        decreases t.schema.columns.len() - c,
    {
        assert(tv.schema.columns[c as int] == t.schema.columns@[c as int]@);
        c += 1;
    }
    if c < t.schema.columns.len() {
        assert(tv.schema.columns[c as int] == t.schema.columns@[c as int]@);
        let mut best: i64 = 0;
        let mut i: usize = 0;
        while i < t.rows.len()
            invariant
                i <= t.rows.len(),
                tv == t@,
                largest_from(tv.rows, c as int, i as int, best) == largest_from(
                    tv.rows,
                    c as int,
                    0,
                    0,
                ),
            decreases t.rows.len() - i,
        {
            assert(tv.rows[i as int] == t.rows@[i as int]@);
            if c < t.rows[i].values.len() {
                match t.rows[i].values[c] {
                    Value::Int(v) => {
                        if v > best {
                            best = v;
                        }
                    },
                    _ => {},
                }
            }
            i += 1;
        }
        t.next_autoinc = if best == i64::MAX {
            best
        } else {
            best + 1
        };
    }
}

fn fill_rows(rows: &mut Vec<RowVersion>, fill: &Value)
    ensures
        versions_view(final(rows)@) == with_value(versions_view(old(rows)@), fill@),
{
    let ghost before = versions_view(rows@);
    let mut k: usize = 0;
    while k < rows.len()
        invariant
            k <= rows.len(),
            rows.len() == before.len(),
            forall|j: int|
                0 <= j < k ==> #[trigger] rows@[j]@ == (VersionV {
                    values: before[j].values.push(fill@),
                    ..before[j]
                }),
            forall|j: int| k <= j < rows.len() ==> #[trigger] rows@[j]@ == before[j],
        decreases rows.len() - k,
    {
        assert(rows@[k as int]@ == before[k as int]);
        let v = fill.clone();
        rows[k].values.push(v);
        assert(row_view(rows@[k as int].values@) =~= before[k as int].values.push(fill@));
        k += 1;
    }
    assert(versions_view(rows@) =~= with_value(before, fill@));
}

fn strip_rows(rows: &mut Vec<RowVersion>, c: usize)
    ensures
        versions_view(final(rows)@) == Seq::new(
            old(rows)@.len(),
            |k: int|
                VersionV {
                    values: without_value(versions_view(old(rows)@)[k].values, c as int),
                    ..versions_view(old(rows)@)[k]
                },
        ),
{
    let ghost before = versions_view(rows@);
    let mut k: usize = 0;
    while k < rows.len()
        invariant
            k <= rows.len(),
            rows.len() == before.len(),
            forall|j: int|
                0 <= j < k ==> #[trigger] rows@[j]@ == (VersionV {
                    values: without_value(before[j].values, c as int),
                    ..before[j]
                }),
            forall|j: int| k <= j < rows.len() ==> #[trigger] rows@[j]@ == before[j],
        decreases rows.len() - k,
    {
        assert(rows@[k as int]@ == before[k as int]);
        if c < rows[k].values.len() {
            let _gone = rows[k].values.remove(c);
            assert(row_view(rows@[k as int].values@) =~= before[k as int].values.remove(c as int));
        }
        k += 1;
    }
    assert(versions_view(rows@) =~= Seq::new(
        before.len(),
        |k: int| VersionV { values: without_value(before[k].values, c as int), ..before[k] },
    ));
}

impl Store {
    /// Add a column to a table; each version gets `fill` for it.
    pub fn add_column(&mut self, table: &str, column: Column, fill: Value)
        requires
            store_ok(old(self)@),
        ensures
            final(self)@ == on_table(
                old(self)@,
                table@,
                |t: TableV| with_column(t, column@, fill@),
            ),
            store_ok(final(self)@),
    {
        let ghost before = self@;
        let ghost cv = column@;
        match self.find_table(table) {
            Some(i) => {
                assert(before.tables[i as int] == self.tables@[i as int]@);
                let ghost cols = columns_view(self.tables@[i as int].schema.columns@);
                self.tables[i].schema.columns.push(column);
                fill_rows(&mut self.tables[i].rows, &fill);
                proof {
                    let nv = with_column(before.tables[i as int], cv, fill@);
                    assert(columns_view(self.tables@[i as int].schema.columns@) =~= cols.push(cv));
                    assert(self.tables@[i as int]@ == nv);
                    assert(self@.tables =~= before.tables.update(i as int, nv));
                    lemma_frame(before, self@);
                }
            },
            None => {},
        }
    }

    /// Drop a column from a table and from each of its versions.
    pub fn drop_column(&mut self, table: &str, name: &str)
        requires
            store_ok(old(self)@),
        ensures
            final(self)@ == on_table(old(self)@, table@, |t: TableV| without_column(t, name@)),
            store_ok(final(self)@),
    {
        let ghost before = self@;
        match self.find_table(table) {
            Some(i) => {
                assert(before.tables[i as int] == self.tables@[i as int]@);
                let ghost cols = columns_view(self.tables@[i as int].schema.columns@);
                let found: Option<usize> = self.tables[i].schema.column_index(name);
                proof {
                    assert(cols.len() == self.tables@[i as int].schema.columns.len());
                    lemma_column_at(cols, name@, 0);
                }
                match found {
                    Some(c) => {
                        let _gone = self.tables[i].schema.columns.remove(c);
                        strip_rows(&mut self.tables[i].rows, c);
                        assert(columns_view(self.tables@[i as int].schema.columns@)
                            =~= cols.remove(c as int));
                    },
                    None => {},
                }
                proof {
                    let nv = without_column(before.tables[i as int], name@);
                    assert(self.tables@[i as int]@.rows =~= nv.rows);
                    assert(self.tables@[i as int]@ == nv);
                    assert(self@.tables =~= before.tables.update(i as int, nv));
                    lemma_frame(before, self@);
                }
            },
            None => {},
        }
    }

    /// Rename a column of a table.
    pub fn rename_column(&mut self, table: &str, from: &str, to: &str)
        requires
            store_ok(old(self)@),
        ensures
            final(self)@ == on_table(
                old(self)@,
                table@,
                |t: TableV| with_renamed(t, from@, to@),
            ),
            store_ok(final(self)@),
    {
        let ghost before = self@;
        match self.find_table(table) {
            Some(i) => {
                assert(before.tables[i as int] == self.tables@[i as int]@);
                let ghost cols = columns_view(self.tables@[i as int].schema.columns@);
                let found: Option<usize> = self.tables[i].schema.column_index(from);
                proof {
                    assert(cols.len() == self.tables@[i as int].schema.columns.len());
                    lemma_column_at(cols, from@, 0);
                }
                match found {
                    Some(c) => {
                        assert(cols[c as int] == self.tables@[i as int].schema.columns@[c as int]@);
                        self.tables[i].schema.columns[c].name = owned(to);
                        assert(columns_view(self.tables@[i as int].schema.columns@) =~= cols.update(
                            c as int,
                            ColumnV { name: to@, ..cols[c as int] },
                        ));
                    },
                    None => {},
                }
                proof {
                    let nv = with_renamed(before.tables[i as int], from@, to@);
                    assert(self.tables@[i as int]@ == nv);
                    assert(self@.tables =~= before.tables.update(i as int, nv));
                    lemma_frame(before, self@);
                }
            },
            None => {},
        }
    }

    /// Give a table a policy.
    pub fn add_policy(&mut self, table: &str, policy: Policy)
        requires
            store_ok(old(self)@),
        ensures
            final(self)@ == on_table(old(self)@, table@, |t: TableV| with_policy(t, policy@)),
            store_ok(final(self)@),
    {
        let ghost before = self@;
        let ghost pv = policy@;
        match self.find_table(table) {
            Some(i) => {
                assert(before.tables[i as int] == self.tables@[i as int]@);
                let ghost ps = policies_view(self.tables@[i as int].schema.policies@);
                self.tables[i].schema.policies.push(policy);
                proof {
                    let nv = with_policy(before.tables[i as int], pv);
                    assert(policies_view(self.tables@[i as int].schema.policies@) =~= ps.push(pv));
                    assert(self.tables@[i as int]@ == nv);
                    assert(self@.tables =~= before.tables.update(i as int, nv));
                    lemma_frame(before, self@);
                }
            },
            None => {},
        }
    }

    /// Take a policy from a table.
    pub fn drop_policy(&mut self, table: &str, name: &str)
        requires
            store_ok(old(self)@),
        ensures
            final(self)@ == on_table(old(self)@, table@, |t: TableV| without_policy(t, name@)),
            store_ok(final(self)@),
    {
        let ghost before = self@;
        match self.find_table(table) {
            Some(i) => {
                assert(before.tables[i as int] == self.tables@[i as int]@);
                let ghost ps = policies_view(self.tables@[i as int].schema.policies@);
                let found: Option<usize> = find_policy(&self.tables[i].schema.policies, name);
                match found {
                    Some(k) => {
                        let _gone = self.tables[i].schema.policies.remove(k);
                        assert(policies_view(self.tables@[i as int].schema.policies@)
                            =~= ps.remove(k as int));
                    },
                    None => {},
                }
                proof {
                    let nv = without_policy(before.tables[i as int], name@);
                    assert(self.tables@[i as int]@ == nv);
                    assert(self@.tables =~= before.tables.update(i as int, nv));
                    lemma_frame(before, self@);
                }
            },
            None => {},
        }
    }

    /// Let a table enforce its policies, or stop it.
    pub fn set_rls(&mut self, table: &str, enabled: bool)
        requires
            store_ok(old(self)@),
        ensures
            final(self)@ == on_table(old(self)@, table@, |t: TableV| with_rls(t, enabled)),
            store_ok(final(self)@),
    {
        let ghost before = self@;
        match self.find_table(table) {
            Some(i) => {
                assert(before.tables[i as int] == self.tables@[i as int]@);
                self.tables[i].schema.rls_enabled = enabled;
                proof {
                    let nv = with_rls(before.tables[i as int], enabled);
                    assert(self.tables@[i as int]@ == nv);
                    assert(self@.tables =~= before.tables.update(i as int, nv));
                    lemma_frame(before, self@);
                }
            },
            None => {},
        }
    }

    /// Rename a table. Index definitions keep the old name.
    pub fn rename_table(&mut self, from: &str, to: &str)
        requires
            store_ok(old(self)@),
        ensures
            final(self)@ == (StoreV {
                tables: renamed_table(old(self)@.tables, from@, to@),
                ..old(self)@
            }),
            store_ok(final(self)@),
    {
        let ghost before = self@;
        match self.find_table(from) {
            Some(i) => {
                assert(before.tables[i as int] == self.tables@[i as int]@);
                let mut t = self.tables.remove(i);
                proof {
                    assert(self@.tables =~= before.tables.remove(i as int));
                    lemma_remove_names(table_names(before.tables), i as int);
                    assert(table_names(self@.tables) =~= table_names(before.tables).remove(i as int));
                }
                t.schema.name = owned(to);
                self.put(t);
            },
            None => {},
        }
    }

    /// Set every table's auto-increment counter past the values it holds.
    pub fn rebuild_autoinc(&mut self)
        requires
            store_ok(old(self)@),
        ensures
            final(self)@ == (StoreV {
                tables: Seq::new(
                    old(self)@.tables.len(),
                    |i: int| recounted(old(self)@.tables[i]),
                ),
                ..old(self)@
            }),
            store_ok(final(self)@),
    {
        let ghost before = self@;
        let mut i: usize = 0;
        while i < self.tables.len()
            invariant
                i <= self.tables.len(),
                self.tables.len() == before.tables.len(),
                self@.indexes == before.indexes,
                self@.views == before.views,
                self@.committed_lsn == before.committed_lsn,
                forall|j: int|
                    0 <= j < i ==> #[trigger] self.tables@[j]@ == recounted(before.tables[j]),
                forall|j: int|
                    i <= j < self.tables.len() ==> #[trigger] self.tables@[j]@ == before.tables[j],
            decreases self.tables.len() - i,
        {
            assert(self.tables@[i as int]@ == before.tables[i as int]);
            recount(&mut self.tables[i]);
            i += 1;
        }
        proof {
            assert(self@.tables =~= Seq::new(
                before.tables.len(),
                |i: int| recounted(before.tables[i]),
            ));
            lemma_frame(before, self@);
        }
    }
}


// ---- laws -------------------------------------------------------------------------------------

/// Snapshot isolation: a commit at a later number changes nothing that a reader of
/// an earlier snapshot sees.
pub proof fn law_commit_keeps_snapshots(v: VersionV, owner: u64, lsn: u64, s: u64)
    requires
        s < lsn,
    ensures
        reader_sees(finalized(v, owner, lsn), s) == reader_sees(v, s),
{
}

/// A reader never sees an uncommitted insert, and an uncommitted delete hides
/// nothing from it.
pub proof fn law_pending_is_private(v: VersionV, s: u64)
    requires
        s < PENDING,
    ensures
        v.create_lsn == PENDING ==> !reader_sees(v, s),
        v.delete_lsn == PENDING ==> reader_sees(v, s) == (v.create_lsn <= s),
{
}

/// A transaction never sees another's uncommitted change: it sees another's pending
/// insert never, and a committed version that another deletes as if nothing happened.
pub proof fn law_writers_are_isolated(v: VersionV, s: u64, me: u64)
    requires
        v.owner != me,
    ensures
        v.create_lsn == PENDING ==> !writer_sees(v, s, me),
        v.delete_lsn == PENDING ==> writer_sees(v, s, me) == (v.create_lsn != PENDING
            && v.create_lsn <= s),
{
}

/// A commit touches no version of another owner.
pub proof fn law_commit_spares_others(v: VersionV, owner: u64, lsn: u64)
    requires
        v.owner != owner,
    ensures
        finalized(v, owner, lsn) == v,
{
}

/// What a transaction sees is what readers see at its commit, as long as nothing
/// else was committed since its snapshot.
pub proof fn law_commit_publishes(v: VersionV, me: u64, s: u64, lsn: u64)
    requires
        s <= lsn < PENDING,
        0 < lsn,
        v.create_lsn == PENDING || v.create_lsn <= s,
        v.delete_lsn == PENDING || v.delete_lsn <= s,
    ensures
        reader_sees(finalized(v, me, lsn), lsn) == writer_sees(v, s, me),
{
}

/// What one transaction can do to a table: mark live versions deleted, and put
/// pending versions behind the others.
pub open spec fn touched(before: Seq<VersionV>, now: Seq<VersionV>, me: u64) -> bool {
    &&& before.len() <= now.len()
    &&& forall|i: int|
        0 <= i < before.len() ==> {
            ||| #[trigger] now[i] == before[i]
            ||| {
                &&& before[i].delete_lsn == 0
                &&& before[i].owner == (if before[i].create_lsn == PENDING {
                    me
                } else {
                    0
                })
                &&& now[i] == (VersionV { delete_lsn: PENDING, owner: me, ..before[i] })
            }
        }
    &&& forall|i: int|
        before.len() <= i < now.len() ==> (#[trigger] now[i]).owner == me && now[i].create_lsn
            == PENDING
}

pub open spec fn distinct_ids(rows: Seq<VersionV>) -> bool {
    forall|i: int, j: int|
        0 <= i < rows.len() && 0 <= j < rows.len() && (#[trigger] rows[i]).vid == (
        #[trigger] rows[j]).vid ==> i == j
}

proof fn lemma_starting(rows: Seq<VersionV>, owner: u64, i: int, acc: Seq<u64>, vid: u64)
    requires
        0 <= i <= rows.len(),
    ensures
        starting_from(rows, owner, i, acc).contains(vid) <==> acc.contains(vid) || exists|k: int|
            i <= k < rows.len() && (#[trigger] rows[k]).vid == vid && rows[k].owner == owner
                && rows[k].create_lsn == PENDING,
    decreases rows.len() - i,
{
    if i < rows.len() {
        if rows[i].owner == owner && rows[i].create_lsn == PENDING {
            let a2 = acc.push(rows[i].vid);
            lemma_starting(rows, owner, i + 1, a2, vid);
            if a2.contains(vid) && !acc.contains(vid) {
                let k = choose|k: int| 0 <= k < a2.len() && a2[k] == vid;
                if k < acc.len() {
                    assert(acc[k] == vid);
                }
                assert(rows[i].vid == vid);
            }
            if acc.contains(vid) {
                let k = choose|k: int| 0 <= k < acc.len() && acc[k] == vid;
                assert(a2[k] == vid);
            }
            assert(a2[acc.len() as int] == rows[i].vid);
        } else {
            lemma_starting(rows, owner, i + 1, acc, vid);
        }
    }
}

proof fn lemma_ending(rows: Seq<VersionV>, owner: u64, i: int, acc: Seq<u64>, vid: u64)
    requires
        0 <= i <= rows.len(),
    ensures
        ending_from(rows, owner, i, acc).contains(vid) <==> acc.contains(vid) || exists|k: int|
            i <= k < rows.len() && (#[trigger] rows[k]).vid == vid && rows[k].owner == owner
                && rows[k].delete_lsn == PENDING,
    decreases rows.len() - i,
{
    if i < rows.len() {
        if rows[i].owner == owner && rows[i].delete_lsn == PENDING {
            let a2 = acc.push(rows[i].vid);
            lemma_ending(rows, owner, i + 1, a2, vid);
            if a2.contains(vid) && !acc.contains(vid) {
                let k = choose|k: int| 0 <= k < a2.len() && a2[k] == vid;
                if k < acc.len() {
                    assert(acc[k] == vid);
                }
                assert(rows[i].vid == vid);
            }
            if acc.contains(vid) {
                let k = choose|k: int| 0 <= k < acc.len() && acc[k] == vid;
                assert(a2[k] == vid);
            }
            assert(a2[acc.len() as int] == rows[i].vid);
        } else {
            lemma_ending(rows, owner, i + 1, acc, vid);
        }
    }
}

proof fn lemma_undone(
    before: Seq<VersionV>,
    now: Seq<VersionV>,
    me: u64,
    ins: Seq<u64>,
    del: Seq<u64>,
    i: int,
    acc: Seq<VersionV>,
)
    requires
        0 <= i <= now.len(),
        before.len() <= now.len(),
        forall|k: int|
            0 <= k < before.len() ==> !discards(#[trigger] now[k], me, ins) && revived(
                now[k],
                me,
                del,
            ) == before[k],
        forall|k: int| before.len() <= k < now.len() ==> discards(#[trigger] now[k], me, ins),
        acc == before.take(if i <= before.len() {
            i
        } else {
            before.len() as int
        }),
    ensures
        undone_from(now, me, ins, del, i, acc) == before,
    decreases now.len() - i,
{
    if i < now.len() {
        if i < before.len() {
            assert(acc.push(before[i]) =~= before.take(i + 1));
            lemma_undone(before, now, me, ins, del, i + 1, acc.push(before[i]));
        } else {
            lemma_undone(before, now, me, ins, del, i + 1, acc);
        }
    } else {
        assert(acc =~= before);
    }
}

/// Rolling back to a savepoint restores a table exactly: whatever the transaction
/// inserted and deleted since, the rows are those of the savepoint.
pub proof fn law_savepoint_restores(before: TableV, now: Seq<VersionV>, me: u64)
    requires
        me != 0,
        touched(before.rows, now, me),
        distinct_ids(now),
    ensures
        undone(now, me, pending_in(before, me).inserted, pending_in(before, me).deleted)
            == before.rows,
{
    let ins = pending_in(before, me).inserted;
    let del = pending_in(before, me).deleted;
    let rows = before.rows;
    assert forall|k: int| 0 <= k < rows.len() implies !discards(#[trigger] now[k], me, ins)
        && revived(now[k], me, del) == rows[k] by {
        lemma_starting(rows, me, 0, Seq::empty(), now[k].vid);
        lemma_ending(rows, me, 0, Seq::empty(), now[k].vid);
        if now[k].owner == me && now[k].create_lsn == PENDING {
            if now[k] != rows[k] {
                assert(rows[k].owner == me && rows[k].create_lsn == PENDING);
            }
            assert(ins.contains(now[k].vid));
        }
        if now[k] == rows[k] {
            if rows[k].owner == me && rows[k].delete_lsn == PENDING {
                assert(del.contains(rows[k].vid));
            }
        } else {
            if del.contains(now[k].vid) {
                let j = choose|j: int|
                    0 <= j < rows.len() && (#[trigger] rows[j]).vid == now[k].vid && rows[j].owner
                        == me && rows[j].delete_lsn == PENDING;
                assert(now[j].vid == now[k].vid);
                assert(j == k);
            }
        }
    }
    assert forall|k: int| rows.len() <= k < now.len() implies discards(
        #[trigger] now[k],
        me,
        ins,
    ) by {
        lemma_starting(rows, me, 0, Seq::empty(), now[k].vid);
        if ins.contains(now[k].vid) {
            let j = choose|j: int|
                0 <= j < rows.len() && (#[trigger] rows[j]).vid == now[k].vid && rows[j].owner == me
                    && rows[j].create_lsn == PENDING;
            assert(now[j].vid == now[k].vid);
            assert(j == k);
        }
    }
    assert(Seq::<VersionV>::empty() =~= rows.take(0));
    lemma_undone(rows, now, me, ins, del, 0, Seq::empty());
}

/// What one transaction can do to a store: touch its tables, and no more.
pub open spec fn store_touched(before: StoreV, now: StoreV, me: u64) -> bool {
    &&& before.tables.len() == now.tables.len()
    &&& forall|i: int|
        0 <= i < now.tables.len() ==> {
            &&& (#[trigger] now.tables[i]).schema == before.tables[i].schema
            &&& touched(before.tables[i].rows, now.tables[i].rows, me)
            &&& distinct_ids(now.tables[i].rows)
        }
}

proof fn lemma_saved_for(s: StoreV, me: u64, i: int, from: int)
    requires
        distinct_names(table_names(s.tables)),
        0 <= from <= i < s.tables.len(),
    ensures
        saved_for(pending_of(s, me), s.tables[i].schema.name, from) == pending_in(s.tables[i], me),
    decreases i - from,
{
    let names = table_names(s.tables);
    assert(names[i] == s.tables[i].schema.name);
    assert(names[from] == s.tables[from].schema.name);
    if from < i {
        assert(!same_name(names[from], names[i]));
        lemma_saved_for(s, me, i, from + 1);
    }
}

/// Rolling back to a savepoint restores the whole store: in every table the rows are
/// those of the savepoint, whatever the transaction inserted and deleted since. So what
/// it has pending is what it had, and versions of others and committed ones are as they
/// were.
pub proof fn law_savepoint_restores_store(before: StoreV, now: StoreV, me: u64)
    requires
        me != 0,
        store_ok(before),
        store_touched(before, now, me),
    ensures
        ({
            let after = rolled_back(now, me, pending_of(before, me));
            &&& after.tables.len() == before.tables.len()
            &&& forall|i: int|
                0 <= i < after.tables.len() ==> (#[trigger] after.tables[i]).rows
                    == before.tables[i].rows && after.tables[i].schema == before.tables[i].schema
            &&& pending_of(after, me) == pending_of(before, me)
            &&& forall|i: int, k: int|
                0 <= i < now.tables.len() && 0 <= k < now.tables[i].rows.len()
                    && now.tables[i].rows[k].owner != me ==> k < after.tables[i].rows.len()
                    && #[trigger] now.tables[i].rows[k] == after.tables[i].rows[k]
        }),
{
    let saved = pending_of(before, me);
    let after = rolled_back(now, me, saved);
    assert forall|i: int| 0 <= i < after.tables.len() implies (#[trigger] after.tables[i]).rows
        == before.tables[i].rows && after.tables[i].schema == before.tables[i].schema by {
        assert(now.tables[i].schema == before.tables[i].schema);
        lemma_saved_for(before, me, i, 0);
        law_savepoint_restores(before.tables[i], now.tables[i].rows, me);
    }
    assert(pending_of(after, me) =~= pending_of(before, me)) by {
        assert forall|i: int| 0 <= i < after.tables.len() implies pending_in(
            #[trigger] after.tables[i],
            me,
        ) == pending_in(before.tables[i], me) by {
            assert(after.tables[i].rows == before.tables[i].rows);
        }
    }
    assert forall|i: int, k: int|
        0 <= i < now.tables.len() && 0 <= k < now.tables[i].rows.len()
            && now.tables[i].rows[k].owner != me implies k < after.tables[i].rows.len()
        && #[trigger] now.tables[i].rows[k] == after.tables[i].rows[k] by {
        assert(after.tables[i].rows == before.tables[i].rows);
        assert(touched(before.tables[i].rows, now.tables[i].rows, me));
    }
}

/// Rolling back a whole transaction restores a table exactly as it was before it began.
pub proof fn law_rollback_restores(before: TableV, now: Seq<VersionV>, me: u64)
    requires
        me != 0,
        forall|i: int| 0 <= i < before.rows.len() ==> (#[trigger] before.rows[i]).owner != me,
        touched(before.rows, now, me),
        distinct_ids(now),
    ensures
        undone(now, me, Seq::empty(), Seq::empty()) == before.rows,
{
    law_savepoint_restores(before, now, me);
    let p = pending_in(before, me);
    assert forall|v: u64| !p.inserted.contains(v) && !p.deleted.contains(v) by {
        lemma_starting(before.rows, me, 0, Seq::empty(), v);
        lemma_ending(before.rows, me, 0, Seq::empty(), v);
    }
    if p.inserted.len() > 0 {
        assert(p.inserted.contains(p.inserted[0]));
    }
    if p.deleted.len() > 0 {
        assert(p.deleted.contains(p.deleted[0]));
    }
    assert(p.inserted =~= Seq::empty());
    assert(p.deleted =~= Seq::empty());
}

/// A rollback touches no version of another owner: each such version survives.
pub proof fn law_rollback_spares_others(v: VersionV, owner: u64, ins: Seq<u64>, del: Seq<u64>)
    requires
        v.owner != owner,
    ensures
        !discards(v, owner, ins),
        revived(v, owner, del) == v,
{
}

} // verus!
