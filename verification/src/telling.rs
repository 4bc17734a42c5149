//! What the operations of a transaction tell, step by step.
//!
//! The operations that the statements of a transaction hand over describe what they
//! did in full: replayed on what was committed before, they give the very versions
//! that the commit publishes.
use vstd::prelude::*;
use crate::asks::StopV;
use crate::ddl::published;
use crate::env::EnvV;
use crate::mvcc::{committed, finalized_rows, finalized_table, replayed_delete, replayed_insert};
use crate::recovery::{replayed_ops, stepped};
use crate::store::{
    table_names, table_pos, version_pos, with_table, PENDING, StoreV, TableV, VersionV,
};
use crate::value::RowV;
use crate::wal::WalOpV;
use crate::writes::{appended, superseded, DraftV};

verus! {

/// Stores that show the same to every reader: they agree in all but the counters
/// from which ids are given out.
pub open spec fn alike(a: StoreV, b: StoreV) -> bool {
    &&& a.indexes == b.indexes
    &&& a.views == b.views
    &&& a.committed_lsn == b.committed_lsn
    &&& a.tables.len() == b.tables.len()
    &&& forall|i: int|
        0 <= i < a.tables.len() ==> (#[trigger] a.tables[i]).schema == b.tables[i].schema
            && a.tables[i].rows == b.tables[i].rows
}

/// A version that is committed, or is the writer's own.
pub open spec fn plain(v: VersionV, me: u64) -> bool {
    v.owner == me || (v.owner == 0 && v.create_lsn != PENDING)
}

/// A statement at work: the store it writes to, what was committed before its
/// transaction, and what the transaction logged before it.
pub struct SceneV {
    pub s: StoreV,
    pub base: StoreV,
    pub wal: Seq<WalOpV>,
    pub name: Seq<char>,
    pub me: u64,
    pub lsn: u64,
    pub env: EnvV,
}

/// The operations so far replay to what a commit now would publish.
pub open spec fn told(base: StoreV, wal: Seq<WalOpV>, now: StoreV, me: u64, lsn: u64, env: EnvV) -> bool {
    match replayed_ops(base, wal, 0, lsn, env) {
        Ok(r) => alike(published(r, lsn), published(committed(now, me, lsn), lsn)),
        Err(_) => false,
    }
}

pub open spec fn scene_ok(x: SceneV) -> bool {
    table_pos(x.s, x.name) is Some && x.me != 0 && 0 <= table_pos(x.s, x.name)->0
        < x.s.tables.len()
}

pub open spec fn draft_told(x: SceneV, d: DraftV) -> bool {
    let p = table_pos(x.s, x.name)->0;
    &&& told(x.base, x.wal + d.wal, with_table(x.s, p, d.table), x.me, x.lsn, x.env)
    &&& d.table.schema == x.s.tables[p].schema
    &&& forall|k: int| 0 <= k < d.table.rows.len() ==> plain(#[trigger] d.table.rows[k], x.me)
}

proof fn lemma_ops_snoc(s: StoreV, ops: Seq<WalOpV>, i: int, op: WalOpV, lsn: u64, env: EnvV)
    requires
        0 <= i <= ops.len(),
    ensures
        replayed_ops(s, ops.push(op), i, lsn, env) == (match replayed_ops(s, ops, i, lsn, env) {
            Err(e) => Err::<StoreV, StopV>(e),
            Ok(t) => stepped(t, op, lsn, env),
        }),
    decreases ops.len() - i,
{
    let all = ops.push(op);
    if i < ops.len() {
        assert(all[i] == ops[i]);
        match stepped(s, ops[i], lsn, env) {
            Err(_) => {},
            Ok(t) => {
                lemma_ops_snoc(t, ops, i + 1, op, lsn, env);
            },
        }
    } else {
        assert(all[i] == op);
        match stepped(s, op, lsn, env) {
            Err(_) => {},
            Ok(t) => {
                assert(replayed_ops(t, all, i + 1, lsn, env) == Ok::<StoreV, StopV>(t));
            },
        }
    }
}

pub proof fn lemma_alike_pos(a: StoreV, b: StoreV, name: Seq<char>)
    requires
        alike(a, b),
    ensures
        table_pos(a, name) == table_pos(b, name),
{
    assert(table_names(a.tables) =~= table_names(b.tables));
}

pub proof fn lemma_pos_finalized(rows: Seq<VersionV>, vid: u64, i: int, me: u64, lsn: u64)
    requires
        0 <= i,
    ensures
        version_pos(finalized_rows(rows, me, lsn), vid, i) == version_pos(rows, vid, i),
        version_pos(rows, vid, i) matches Some(k) ==> i <= k < rows.len(),
    decreases rows.len() - i,
{
    if i < rows.len() {
        lemma_pos_finalized(rows, vid, i + 1, me, lsn);
    }
}

/// The table that a statement writes to stands where it stood in what replay gives.
proof fn lemma_place(x: SceneV, d: DraftV, r: StoreV)
    requires
        scene_ok(x),
        d.table.schema == x.s.tables[table_pos(x.s, x.name)->0].schema,
        alike(
            published(r, x.lsn),
            published(
                committed(with_table(x.s, table_pos(x.s, x.name)->0, d.table), x.me, x.lsn),
                x.lsn,
            ),
        ),
    ensures
        ({
            let p = table_pos(x.s, x.name)->0;
            &&& table_pos(r, x.name) == Some(p)
            &&& 0 <= p < r.tables.len()
            &&& r.tables[p].rows == finalized_rows(d.table.rows, x.me, x.lsn)
            &&& r.tables[p].schema == d.table.schema
        }),
{
    let p = table_pos(x.s, x.name)->0;
    let live = with_table(x.s, p, d.table);
    let c = committed(live, x.me, x.lsn);
    lemma_alike_pos(published(r, x.lsn), published(c, x.lsn), x.name);
    assert(table_names(c.tables) =~= table_names(x.s.tables));
    assert(c.tables[p] == finalized_table(d.table, x.me, x.lsn));
    assert(published(r, x.lsn).tables[p].rows == c.tables[p].rows);
}

proof fn lemma_step_alike(x: SceneV, d: DraftV, e: DraftV, r: StoreV, t: TableV)
    requires
        scene_ok(x),
        e.table.schema == d.table.schema,
        d.table.schema == x.s.tables[table_pos(x.s, x.name)->0].schema,
        alike(
            published(r, x.lsn),
            published(
                committed(with_table(x.s, table_pos(x.s, x.name)->0, d.table), x.me, x.lsn),
                x.lsn,
            ),
        ),
        t.schema == d.table.schema,
        t.rows == finalized_rows(e.table.rows, x.me, x.lsn),
    ensures
        alike(
            published(with_table(r, table_pos(x.s, x.name)->0, t), x.lsn),
            published(
                committed(with_table(x.s, table_pos(x.s, x.name)->0, e.table), x.me, x.lsn),
                x.lsn,
            ),
        ),
{
    let p = table_pos(x.s, x.name)->0;
    let a = published(with_table(r, p, t), x.lsn);
    let old = published(committed(with_table(x.s, p, d.table), x.me, x.lsn), x.lsn);
    let b = published(committed(with_table(x.s, p, e.table), x.me, x.lsn), x.lsn);
    assert forall|i: int| 0 <= i < a.tables.len() implies (#[trigger] a.tables[i]).schema
        == b.tables[i].schema && a.tables[i].rows == b.tables[i].rows by {
        if i == p {
            assert(b.tables[p] == finalized_table(e.table, x.me, x.lsn));
        } else {
            assert(published(r, x.lsn).tables[i].schema == old.tables[i].schema);
            assert(b.tables[i] == old.tables[i]);
        }
    }
}

pub proof fn lemma_told_appended(x: SceneV, d: DraftV, row: RowV)
    requires
        scene_ok(x),
        draft_told(x, d),
        appended(d, x.name, row, x.me) is Ok,
    ensures
        draft_told(x, appended(d, x.name, row, x.me)->Ok_0),
{
    let e = appended(d, x.name, row, x.me)->Ok_0;
    let p = table_pos(x.s, x.name)->0;
    let vid = d.table.next_vid;
    let op = WalOpV::Insert { table: x.name, vid, values: row };
    let ops = x.wal + d.wal;
    assert(x.wal + e.wal =~= ops.push(op));
    lemma_ops_snoc(x.base, ops, 0, op, x.lsn, x.env);
    let r = replayed_ops(x.base, ops, 0, x.lsn, x.env)->Ok_0;
    lemma_place(x, d, r);
    reveal(stepped);
    let t = replayed_insert(r.tables[p], vid, row, x.lsn);
    assert(stepped(r, op, x.lsn, x.env) == Ok::<StoreV, StopV>(with_table(r, p, t)));
    assert(finalized_rows(e.table.rows, x.me, x.lsn) =~= finalized_rows(
        d.table.rows,
        x.me,
        x.lsn,
    ).push(VersionV { vid, values: row, create_lsn: x.lsn, delete_lsn: 0, owner: 0 }));
    lemma_step_alike(x, d, e, r, t);
    assert forall|k: int| 0 <= k < e.table.rows.len() implies plain(
        #[trigger] e.table.rows[k],
        x.me,
    ) by {
        if k < d.table.rows.len() {
            assert(plain(d.table.rows[k], x.me));
        }
    }
}

pub proof fn lemma_told_superseded(x: SceneV, d: DraftV, vid: u64)
    requires
        scene_ok(x),
        draft_told(x, d),
    ensures
        draft_told(x, superseded(d, x.name, vid, x.me)),
{
    let e = superseded(d, x.name, vid, x.me);
    let p = table_pos(x.s, x.name)->0;
    let op = WalOpV::Delete { table: x.name, vid };
    let ops = x.wal + d.wal;
    assert(x.wal + e.wal =~= ops.push(op));
    lemma_ops_snoc(x.base, ops, 0, op, x.lsn, x.env);
    let r = replayed_ops(x.base, ops, 0, x.lsn, x.env)->Ok_0;
    lemma_place(x, d, r);
    reveal(stepped);
    let t = replayed_delete(r.tables[p], vid, x.lsn);
    assert(stepped(r, op, x.lsn, x.env) == Ok::<StoreV, StopV>(with_table(r, p, t)));
    lemma_pos_finalized(d.table.rows, vid, 0, x.me, x.lsn);
    match version_pos(d.table.rows, vid, 0) {
        Some(i) => {
            assert(plain(d.table.rows[i], x.me));
            assert(t.rows =~= finalized_rows(e.table.rows, x.me, x.lsn));
        },
        None => {
            assert(t.rows =~= finalized_rows(e.table.rows, x.me, x.lsn));
        },
    }
    lemma_step_alike(x, d, e, r, t);
    assert forall|k: int| 0 <= k < e.table.rows.len() implies plain(
        #[trigger] e.table.rows[k],
        x.me,
    ) by {
        assert(plain(d.table.rows[k], x.me));
    }
}

} // verus!
