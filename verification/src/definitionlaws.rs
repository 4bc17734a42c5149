//! Definitions that became durable are found again.
use vstd::prelude::*;
use crate::asks::StopV;
use crate::catalog::SchemaV;
use crate::ddl::{defined, fill_of, published};
use crate::env::EnvV;
use crate::idlaws::law_definitions_are_told;
use crate::mvcc::{
    on_table, renamed_table, with_column, with_policy, with_renamed, with_rls, without_column,
    without_policy,
};
use crate::recovery::{
    applied, closed, holds, law_durable_is_recovered, left, loggable, replayed_ops, stepped,
    LogEntryV,
};
use crate::sql::StmtV;
use crate::statements::statement;
use crate::store::{
    lemma_name_pos, name_pos, new_table, put_table, table_names, table_pos, StoreV, TableV,
};
use crate::telling::alike;
use crate::wal::WalOpV;

verus! {

/// Tables that show the same.
spec fn tables_alike(a: Seq<TableV>, b: Seq<TableV>) -> bool {
    &&& a.len() == b.len()
    &&& forall|i: int|
        0 <= i < a.len() ==> (#[trigger] a[i]).schema == b[i].schema && a[i].rows == b[i].rows
}

proof fn lemma_names_alike(a: Seq<TableV>, b: Seq<TableV>)
    requires
        tables_alike(a, b),
    ensures
        table_names(a) == table_names(b),
{
    assert forall|i: int| 0 <= i < a.len() implies table_names(a)[i] == table_names(b)[i] by {
        assert(a[i].schema == b[i].schema);
    }
    assert(table_names(a) =~= table_names(b));
}

proof fn lemma_put_alike(a: Seq<TableV>, b: Seq<TableV>, t: TableV, u: TableV)
    requires
        tables_alike(a, b),
        t.schema == u.schema,
        t.rows == u.rows,
    ensures
        tables_alike(put_table(a, t), put_table(b, u)),
{
    lemma_names_alike(a, b);
    lemma_name_pos(table_names(a), t.schema.name, 0);
    let (x, y) = (put_table(a, t), put_table(b, u));
    assert forall|i: int| 0 <= i < x.len() implies (#[trigger] x[i]).schema == y[i].schema
        && x[i].rows == y[i].rows by {
        if i < a.len() {
            assert(a[i].schema == b[i].schema && a[i].rows == b[i].rows);
        }
    }
}

proof fn lemma_remove_alike(a: Seq<TableV>, b: Seq<TableV>, i: int)
    requires
        tables_alike(a, b),
        0 <= i < a.len(),
    ensures
        tables_alike(a.remove(i), b.remove(i)),
{
    let (x, y) = (a.remove(i), b.remove(i));
    assert forall|k: int| 0 <= k < x.len() implies (#[trigger] x[k]).schema == y[k].schema
        && x[k].rows == y[k].rows by {
        let j = if k < i {
            k
        } else {
            k + 1
        };
        assert(a[j].schema == b[j].schema && a[j].rows == b[j].rows);
    }
}

proof fn lemma_renamed_alike(a: Seq<TableV>, b: Seq<TableV>, from: Seq<char>, to: Seq<char>)
    requires
        tables_alike(a, b),
    ensures
        tables_alike(renamed_table(a, from, to), renamed_table(b, from, to)),
{
    lemma_names_alike(a, b);
    lemma_name_pos(table_names(a), from, 0);
    match name_pos(table_names(a), from, 0) {
        None => {},
        Some(i) => {
            assert(a[i].schema == b[i].schema && a[i].rows == b[i].rows);
            lemma_remove_alike(a, b, i);
            lemma_put_alike(
                a.remove(i),
                b.remove(i),
                TableV {
                    schema: SchemaV { name: to, ..a[i].schema },
                    ..a[i]
                },
                TableV {
                    schema: SchemaV { name: to, ..b[i].schema },
                    ..b[i]
                },
            );
        },
    }
}

/// A change of a table that goes by its schema and its rows.
proof fn lemma_on_table_alike(a: StoreV, b: StoreV, name: Seq<char>, f: spec_fn(TableV) -> TableV)
    requires
        alike(a, b),
        forall|t: TableV, u: TableV|
            #![trigger f(t), f(u)]
            t.schema == u.schema && t.rows == u.rows ==> f(t).schema == f(u).schema && f(t).rows
                == f(u).rows,
    ensures
        alike(on_table(a, name, f), on_table(b, name, f)),
{
    lemma_names_alike(a.tables, b.tables);
    lemma_name_pos(table_names(a.tables), name, 0);
    match table_pos(a, name) {
        None => {},
        Some(i) => {
            let (x, y) = (on_table(a, name, f), on_table(b, name, f));
            assert forall|k: int| 0 <= k < x.tables.len() implies (#[trigger] x.tables[k]).schema
                == y.tables[k].schema && x.tables[k].rows == y.tables[k].rows by {
                assert(a.tables[k].schema == b.tables[k].schema && a.tables[k].rows
                    == b.tables[k].rows);
                if k == i {
                    assert(x.tables[k] == f(a.tables[i]));
                    assert(y.tables[k] == f(b.tables[i]));
                }
            }
        },
    }
}

/// A definition does the same to stores that are alike.
proof fn lemma_definition_alike(a: StoreV, b: StoreV, op: WalOpV, lsn: u64, env: EnvV)
    requires
        alike(a, b),
        !(op is Insert) && !(op is Delete),
    ensures
        match (stepped(a, op, lsn, env), stepped(b, op, lsn, env)) {
            (Ok(x), Ok(y)) => alike(x, y),
            (Err(x), Err(y)) => x == y,
            _ => false,
        },
{
    reveal(stepped);
    assert(tables_alike(a.tables, b.tables));
    lemma_names_alike(a.tables, b.tables);
    match op {
        WalOpV::CreateTable { schema } => {
            let t = new_table(schema);
            lemma_put_alike(a.tables, b.tables, t, t);
        },
        WalOpV::DropTable { name } => {
            lemma_name_pos(table_names(a.tables), name, 0);
            match table_pos(a, name) {
                Some(i) => {
                    lemma_remove_alike(a.tables, b.tables, i);
                },
                None => {},
            }
        },
        WalOpV::AlterAddColumn { table, column } => {
            match fill_of(column, env) {
                Err(_) => {},
                Ok(fill) => {
                    lemma_on_table_alike(
                        a,
                        b,
                        table,
                        |t: TableV| with_column(t, column, fill),
                    );
                },
            }
        },
        WalOpV::AlterDropColumn { table, column } => {
            lemma_on_table_alike(a, b, table, |t: TableV| without_column(t, column));
        },
        WalOpV::AlterRenameColumn { table, from, to } => {
            lemma_on_table_alike(a, b, table, |t: TableV| with_renamed(t, from, to));
        },
        WalOpV::AlterRenameTable { table, to } => {
            lemma_renamed_alike(a.tables, b.tables, table, to);
        },
        WalOpV::CreatePolicy { table, policy } => {
            lemma_on_table_alike(a, b, table, |t: TableV| with_policy(t, policy));
        },
        WalOpV::DropPolicy { table, name } => {
            lemma_on_table_alike(a, b, table, |t: TableV| without_policy(t, name));
        },
        WalOpV::SetRls { table, enabled } => {
            lemma_on_table_alike(a, b, table, |t: TableV| with_rls(t, enabled));
        },
        _ => {},
    }
}

/// A definition that became durable is found again: where the log left what is
/// committed and nobody is in flight, the log with its records behind leaves what the
/// definition made of the store, in the same environment.
pub proof fn law_definition_survives(
    log: Seq<LogEntryV>,
    entries: Seq<LogEntryV>,
    base: StoreV,
    now: StoreV,
    q: StmtV,
    op: WalOpV,
    env: EnvV,
)
    requires
        closed(log),
        left(log, env) == Ok::<StoreV, StopV>(base),
        alike(base, now),
        holds(entries, seq![op]),
        loggable(seq![op]),
        !(op is Insert) && !(op is Delete),
        op is CreateView <==> q is CreateView,
        (q matches StmtV::CreateView { name, sql, .. } ==> op == (WalOpV::CreateView { name, sql })
            && (statement(sql, env.reals) matches Ok(p) && p.0 == q)),
        defined(now, q, op, entries.last().lsn, env) is Ok,
    ensures
        closed(log + entries),
        left(log + entries, env) is Ok,
        alike(
            left(log + entries, env)->Ok_0,
            defined(now, q, op, entries.last().lsn, env)->Ok_0,
        ),
{
    let lsn = entries.last().lsn;
    let ops = seq![op];
    law_durable_is_recovered(log, entries, ops, env);
    law_definitions_are_told(now, q, op, lsn, env);
    lemma_definition_alike(base, now, op, lsn, env);
    reveal(applied);
    reveal_with_fuel(replayed_ops, 2);
    assert(replayed_ops(base, ops, 0, lsn, env) == stepped(base, op, lsn, env));
    let r = stepped(base, op, lsn, env)->Ok_0;
    let t = stepped(now, op, lsn, env)->Ok_0;
    let (x, y) = (published(r, lsn), published(t, lsn));
    assert forall|i: int| 0 <= i < x.tables.len() implies (#[trigger] x.tables[i]).schema
        == y.tables[i].schema && x.tables[i].rows == y.tables[i].rows by {
        assert(r.tables[i].schema == t.tables[i].schema);
    }
}

} // verus!
