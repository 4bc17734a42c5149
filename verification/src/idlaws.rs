//! What holds of the version ids of a store at all times.
use vstd::prelude::*;
use crate::asks::StopV;
use crate::conn::{dml, ran, ConnV};
use crate::ddl::{catalog_after, defined, published};
use crate::env::EnvV;
use crate::mvcc::{
    committed, discards, revived, rolled_back, saved_for, undone_from, undone_table, PendingSetV,
};
use crate::recovery::stepped;
use crate::sql::StmtV;
use crate::statements::statement;
use crate::store::{
    lemma_name_pos, name_pos, new_table, table_names, table_pos, PENDING, StoreV, TableV, VersionV,
};
use crate::wal::WalOpV;
use crate::writelaws::{law_delete_only_stamps, law_insert_only_adds, law_update_only_adds, vids_ok};
use crate::writes::WriteV;

verus! {

/// The version ids of every table are in order: each is used once, and the next one
/// is still free.
pub open spec fn ids_ok(s: StoreV) -> bool {
    forall|i: int| 0 <= i < s.tables.len() ==> vids_ok(#[trigger] s.tables[i])
}

/// Whether every id of `a` stands in `b`, before place `n`.
spec fn drawn(a: Seq<VersionV>, b: Seq<VersionV>, n: int) -> bool {
    forall|i: int| 0 <= i < a.len() ==> exists|j: int|
        0 <= j < n && (#[trigger] b[j]).vid == (#[trigger] a[i]).vid
}

spec fn distinct(rows: Seq<VersionV>) -> bool {
    forall|i: int, j: int|
        #![trigger rows[i], rows[j]]
        0 <= i < rows.len() && 0 <= j < rows.len() && rows[i].vid == rows[j].vid ==> i == j
}

proof fn lemma_undone_ids(
    rows: Seq<VersionV>,
    owner: u64,
    ins: Seq<u64>,
    del: Seq<u64>,
    i: int,
    acc: Seq<VersionV>,
)
    requires
        0 <= i <= rows.len(),
        distinct(rows),
        distinct(acc),
        drawn(acc, rows, i),
    ensures
        distinct(undone_from(rows, owner, ins, del, i, acc)),
        drawn(undone_from(rows, owner, ins, del, i, acc), rows, rows.len() as int),
    decreases rows.len() - i,
{
    if i < rows.len() {
        if discards(rows[i], owner, ins) {
            assert(drawn(acc, rows, i + 1)) by {
                assert forall|k: int| 0 <= k < acc.len() implies exists|j: int|
                    0 <= j < i + 1 && (#[trigger] rows[j]).vid == (#[trigger] acc[k]).vid by {
                    let j = choose|j: int| 0 <= j < i && (#[trigger] rows[j]).vid == acc[k].vid;
                    assert(rows[j].vid == acc[k].vid);
                }
            }
            lemma_undone_ids(rows, owner, ins, del, i + 1, acc);
        } else {
            let v = revived(rows[i], owner, del);
            let next = acc.push(v);
            assert(v.vid == rows[i].vid);
            assert forall|a: int, b: int|
                #![trigger next[a], next[b]]
                0 <= a < next.len() && 0 <= b < next.len() && next[a].vid == next[b].vid implies a
                == b by {
                if a < acc.len() && b < acc.len() {
                    assert(acc[a].vid == acc[b].vid);
                } else if a < acc.len() {
                    let j = choose|j: int| 0 <= j < i && (#[trigger] rows[j]).vid == acc[a].vid;
                    assert(rows[j].vid == rows[i].vid);
                } else if b < acc.len() {
                    let j = choose|j: int| 0 <= j < i && (#[trigger] rows[j]).vid == acc[b].vid;
                    assert(rows[j].vid == rows[i].vid);
                }
            }
            assert forall|k: int| 0 <= k < next.len() implies exists|j: int|
                0 <= j < i + 1 && (#[trigger] rows[j]).vid == (#[trigger] next[k]).vid by {
                if k < acc.len() {
                    let j = choose|j: int| 0 <= j < i && (#[trigger] rows[j]).vid == acc[k].vid;
                    assert(rows[j].vid == next[k].vid);
                } else {
                    assert(rows[i].vid == next[k].vid);
                }
            }
            lemma_undone_ids(rows, owner, ins, del, i + 1, next);
        }
    }
}

/// A rollback keeps the version ids in order.
pub proof fn law_rollback_keeps_ids(s: StoreV, owner: u64, saved: Seq<PendingSetV>)
    requires
        ids_ok(s),
    ensures
        ids_ok(rolled_back(s, owner, saved)),
{
    let t = rolled_back(s, owner, saved);
    assert forall|i: int| 0 <= i < t.tables.len() implies vids_ok(#[trigger] t.tables[i]) by {
        let a = s.tables[i];
        assert(vids_ok(a));
        let p = saved_for(saved, a.schema.name, 0);
        let b = t.tables[i];
        assert(b == undone_table(a, owner, saved));
        lemma_undone_ids(a.rows, owner, p.inserted, p.deleted, 0, Seq::empty());
        assert forall|k: int| 0 <= k < b.rows.len() implies (#[trigger] b.rows[k]).vid
            < b.next_vid by {
            let j = choose|j: int|
                0 <= j < a.rows.len() && (#[trigger] a.rows[j]).vid == b.rows[k].vid;
            assert(a.rows[j].vid < a.next_vid);
        }
    }
}

/// Tables whose versions have the same ids.
spec fn same_ids(a: TableV, b: TableV) -> bool {
    &&& a.rows.len() == b.rows.len()
    &&& a.next_vid == b.next_vid
    &&& forall|k: int| 0 <= k < a.rows.len() ==> (#[trigger] b.rows[k]).vid == a.rows[k].vid
}

proof fn lemma_same_ids(a: TableV, b: TableV)
    requires
        vids_ok(a),
        same_ids(a, b),
    ensures
        vids_ok(b),
{
    assert forall|i: int, j: int|
        #![trigger b.rows[i], b.rows[j]]
        0 <= i < b.rows.len() && 0 <= j < b.rows.len() && b.rows[i].vid == b.rows[j].vid implies i
        == j by {
        assert(a.rows[i].vid == a.rows[j].vid);
    }
    assert forall|i: int| 0 <= i < b.rows.len() implies (#[trigger] b.rows[i]).vid
        < b.next_vid by {
        assert(a.rows[i].vid < a.next_vid);
    }
}

/// A commit keeps the version ids in order.
pub proof fn law_commit_keeps_ids(s: StoreV, owner: u64, lsn: u64)
    requires
        ids_ok(s),
    ensures
        ids_ok(committed(s, owner, lsn)),
{
    let t = committed(s, owner, lsn);
    assert forall|i: int| 0 <= i < t.tables.len() implies vids_ok(#[trigger] t.tables[i]) by {
        assert(vids_ok(s.tables[i]));
        lemma_same_ids(s.tables[i], t.tables[i]);
    }
}

/// A statement that writes rows keeps the version ids in order.
pub proof fn law_dml_keeps_ids(s: StoreV, q: StmtV, wc: WriteV)
    requires
        ids_ok(s),
        s.committed_lsn < PENDING,
        dml(s, q, wc) is Ok,
    ensures
        ids_ok(dml(s, q, wc)->Ok_0.0),
{
    reveal(dml);
    let t = dml(s, q, wc)->Ok_0.0;
    match q {
        StmtV::Insert { table, columns, source, on_conflict, returning } => {
            lemma_name_pos(table_names(s.tables), table, 0);
            law_insert_only_adds(s, table, columns, source, on_conflict, returning, wc);
            lemma_one_table(s, t, table_pos(s, table)->0);
        },
        StmtV::Update { table, sets, from, filter, returning } => {
            lemma_name_pos(table_names(s.tables), table, 0);
            law_update_only_adds(s, table, sets, from, filter, returning, wc);
            lemma_one_table(s, t, table_pos(s, table)->0);
        },
        StmtV::Delete { table, using, filter, returning } => {
            lemma_name_pos(table_names(s.tables), table, 0);
            law_delete_only_stamps(s, table, using, filter, returning, wc);
            lemma_one_table(s, t, table_pos(s, table)->0);
        },
        _ => {},
    }
}

proof fn lemma_one_table(s: StoreV, t: StoreV, i: int)
    requires
        ids_ok(s),
        t == crate::store::with_table(s, i, t.tables[i]),
        0 <= i < s.tables.len(),
        vids_ok(t.tables[i]),
    ensures
        ids_ok(t),
{
    assert forall|k: int| 0 <= k < t.tables.len() implies vids_ok(#[trigger] t.tables[k]) by {
        if k != i {
            assert(vids_ok(s.tables[k]));
            assert(t.tables[k] == s.tables[k]);
        }
    }
}

/// Every statement keeps the version ids in order.
pub proof fn law_statements_keep_ids(c: ConnV, s: StoreV, q: StmtV, owner: u64, env: EnvV)
    requires
        ids_ok(s),
        s.committed_lsn < PENDING,
    ensures
        ids_ok(ran(c, s, q, owner, env).store),
{
    assert forall|me: u64, saved: Seq<PendingSetV>|
        ids_ok(#[trigger] rolled_back(s, me, saved)) by {
        law_rollback_keeps_ids(s, me, saved);
    }
    if crate::conn::is_dml(q) {
        let t = crate::conn::writing_txn(c, s, owner);
        let wc = crate::conn::write_ctx(t, c, crate::conn::own_env(c, env));
        if dml(s, q, wc) is Ok {
            law_dml_keeps_ids(s, q, wc);
        }
    }
}

/// A definition keeps the version ids in order.
pub proof fn law_definitions_keep_ids(s: StoreV, op: WalOpV, env: EnvV)
    requires
        ids_ok(s),
        catalog_after(s, op, env) is Ok,
    ensures
        ids_ok(catalog_after(s, op, env)->Ok_0),
{
    let t = catalog_after(s, op, env)->Ok_0;
    match op {
        WalOpV::CreateTable { schema } => {
            assert(vids_ok(new_table(schema)));
            lemma_name_pos(table_names(s.tables), schema.name, 0);
            assert forall|k: int| 0 <= k < t.tables.len() implies vids_ok(
                #[trigger] t.tables[k],
            ) by {
                if k < s.tables.len() {
                    assert(vids_ok(s.tables[k]));
                }
            }
        },
        WalOpV::DropTable { name } => {
            lemma_name_pos(table_names(s.tables), name, 0);
            assert forall|k: int| 0 <= k < t.tables.len() implies vids_ok(
                #[trigger] t.tables[k],
            ) by {
                match table_pos(s, name) {
                    Some(i) => {
                        if k < i {
                            assert(vids_ok(s.tables[k]));
                        } else {
                            assert(vids_ok(s.tables[k + 1]));
                        }
                    },
                    None => {},
                }
            }
        },
        WalOpV::AlterAddColumn { table, .. } => {
            lemma_name_pos(table_names(s.tables), table, 0);
            lemma_altered(s, t, table);
        },
        WalOpV::AlterDropColumn { table, .. } => {
            lemma_name_pos(table_names(s.tables), table, 0);
            lemma_altered(s, t, table);
        },
        WalOpV::AlterRenameColumn { table, .. } => {
            lemma_name_pos(table_names(s.tables), table, 0);
            lemma_altered(s, t, table);
        },
        WalOpV::AlterRenameTable { table, to } => {
            lemma_renamed(s, table, to);
        },
        WalOpV::CreatePolicy { table, .. } => {
            lemma_name_pos(table_names(s.tables), table, 0);
            lemma_altered(s, t, table);
        },
        WalOpV::DropPolicy { table, .. } => {
            lemma_name_pos(table_names(s.tables), table, 0);
            lemma_altered(s, t, table);
        },
        WalOpV::SetRls { table, .. } => {
            lemma_name_pos(table_names(s.tables), table, 0);
            lemma_altered(s, t, table);
        },
        _ => {},
    }
}

proof fn lemma_altered(s: StoreV, t: StoreV, table: Seq<char>)
    requires
        ids_ok(s),
        match table_pos(s, table) {
            Some(i) => {
                &&& t.tables == s.tables.update(i, t.tables[i])
                &&& same_ids(s.tables[i], t.tables[i])
            },
            None => t == s,
        },
    ensures
        ids_ok(t),
{
    lemma_name_pos(table_names(s.tables), table, 0);
    match table_pos(s, table) {
        Some(i) => {
            assert(vids_ok(s.tables[i]));
            lemma_same_ids(s.tables[i], t.tables[i]);
            assert forall|k: int| 0 <= k < t.tables.len() implies vids_ok(
                #[trigger] t.tables[k],
            ) by {
                if k != i {
                    assert(vids_ok(s.tables[k]));
                    assert(t.tables[k] == s.tables[k]);
                }
            }
        },
        None => {},
    }
}

proof fn lemma_renamed(s: StoreV, from: Seq<char>, to: Seq<char>)
    requires
        ids_ok(s),
    ensures
        forall|k: int|
            0 <= k < crate::mvcc::renamed_table(s.tables, from, to).len() ==> vids_ok(
                #[trigger] crate::mvcc::renamed_table(s.tables, from, to)[k],
            ),
{
    let ts = s.tables;
    lemma_name_pos(table_names(ts), from, 0);
    match name_pos(table_names(ts), from, 0) {
        Some(i) => {
            let rest = ts.remove(i);
            let t = TableV {
                schema: crate::catalog::SchemaV { name: to, ..ts[i].schema },
                ..ts[i]
            };
            assert(vids_ok(ts[i]));
            lemma_same_ids(ts[i], t);
            lemma_name_pos(table_names(rest), to, 0);
            let out = crate::mvcc::renamed_table(ts, from, to);
            assert forall|k: int| 0 <= k < out.len() implies vids_ok(#[trigger] out[k]) by {
                if k < rest.len() {
                    if k < i {
                        assert(rest[k] == ts[k]);
                        assert(vids_ok(ts[k]));
                    } else {
                        assert(rest[k] == ts[k + 1]);
                        assert(vids_ok(ts[k + 1]));
                    }
                }
            }
        },
        None => {
            assert forall|k: int|
                0 <= k < crate::mvcc::renamed_table(ts, from, to).len() implies vids_ok(
                #[trigger] crate::mvcc::renamed_table(ts, from, to)[k],
            ) by {
                assert(vids_ok(ts[k]));
            }
        },
    }
}

/// Replaying a definition does what putting it into effect did. A view's text is
/// read again, and gives what it gave.
pub proof fn law_definitions_are_told(s: StoreV, q: StmtV, op: WalOpV, lsn: u64, env: EnvV)
    requires
        !(op is Insert) && !(op is Delete),
        op is CreateView <==> q is CreateView,
        (q matches StmtV::CreateView { name, sql, .. } ==> op == (WalOpV::CreateView { name, sql })
            && (statement(sql, env.reals) matches Ok(p) && p.0 == q)),
    ensures
        defined(s, q, op, lsn, env) == (match stepped(s, op, lsn, env) {
            Err(e) => Err::<StoreV, StopV>(e),
            Ok(t) => Ok(published(t, lsn)),
        }),
{
    reveal(stepped);
}

} // verus!
