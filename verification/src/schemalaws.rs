//! What definitions do to the catalog.
use vstd::prelude::*;
use crate::asks::{RealsV, StopV};
use crate::catalog::{column_at, column_pos, ColumnV, PolicyV, SchemaV};
use crate::ddl::{catalog_after, columns_of, ddl_plan, fill_of, keyed_from};
use crate::env::EnvV;
use crate::policylaws::law_names_are_found;
use crate::sql::{AlterActionV, StmtV, TableDefV};
use crate::store::{indexes_off, table_names, table_pos, StoreV, TableV};
use crate::text::same_name;
use crate::value::ValueV;
use crate::vector::IndexDefV;
use crate::wal::WalOpV;

verus! {

// ---- tables ---------------------------------------------------------------------------------------

/// Whether a list of column names has the column at `i`, the first of its name.
pub open spec fn names_column(cols: Seq<ColumnV>, names: Seq<Seq<char>>, i: int) -> bool {
    exists|k: int|
        0 <= k < names.len() && column_at(cols, #[trigger] names[k], 0) == Some(i as usize)
}

spec fn names_from(cols: Seq<ColumnV>, names: Seq<Seq<char>>, from: int, i: int) -> bool {
    exists|k: int|
        from <= k < names.len() && column_at(cols, #[trigger] names[k], 0) == Some(i as usize)
}

spec fn like_named(a: Seq<ColumnV>, b: Seq<ColumnV>) -> bool {
    &&& a.len() == b.len()
    &&& forall|i: int| 0 <= i < a.len() ==> (#[trigger] a[i]).name == b[i].name
}

proof fn lemma_like_named(a: Seq<ColumnV>, b: Seq<ColumnV>, name: Seq<char>, i: int)
    requires
        like_named(a, b),
        0 <= i <= a.len(),
    ensures
        column_at(a, name, i) == column_at(b, name, i),
    decreases a.len() - i,
{
    if i < a.len() {
        assert(a[i].name == b[i].name);
        lemma_like_named(a, b, name, i + 1);
    }
}

proof fn lemma_column_at(cols: Seq<ColumnV>, name: Seq<char>, i: int)
    requires
        0 <= i <= cols.len(),
        cols.len() <= usize::MAX,
    ensures
        column_at(cols, name, i) matches Some(p) ==> i <= p < cols.len(),
    decreases cols.len() - i,
{
    if i < cols.len() {
        lemma_column_at(cols, name, i + 1);
    }
}

proof fn lemma_keyed(cols: Seq<ColumnV>, names: Seq<Seq<char>>, i: int, p: int)
    requires
        0 <= i <= names.len(),
        0 <= p < cols.len() <= usize::MAX,
        keyed_from(cols, names, i) is Ok,
    ensures
        ({
            let out = keyed_from(cols, names, i)->Ok_0;
            &&& like_named(out, cols)
            &&& out[p] == (if names_from(cols, names, i, p) {
                ColumnV { primary_key: true, not_null: true, ..cols[p] }
            } else {
                cols[p]
            })
        }),
    decreases names.len() - i,
{
    if i < names.len() {
        let q = column_at(cols, names[i], 0)->0;
        lemma_column_at(cols, names[i], 0);
        let next = cols.update(
            q as int,
            ColumnV { primary_key: true, not_null: true, ..cols[q as int] },
        );
        assert(like_named(next, cols));
        lemma_keyed(next, names, i + 1, p);
        assert forall|k: int| i <= k < names.len() implies column_at(
            next,
            #[trigger] names[k],
            0,
        ) == column_at(cols, names[k], 0) by {
            lemma_like_named(next, cols, names[k], 0);
        }
        if names_from(cols, names, i, p) {
            let k = choose|k: int|
                i <= k < names.len() && column_at(cols, #[trigger] names[k], 0) == Some(p as usize);
            if k > i {
                assert(column_at(next, names[k], 0) == Some(p as usize));
                assert(names_from(next, names, i + 1, p));
            }
        }
        if names_from(next, names, i + 1, p) {
            let k = choose|k: int|
                i + 1 <= k < names.len() && column_at(next, #[trigger] names[k], 0) == Some(
                    p as usize,
                );
            assert(column_at(cols, names[k], 0) == Some(p as usize));
        }
        if q == p {
            assert(column_at(cols, names[i], 0) == Some(p as usize));
        }
    }
}

/// `CREATE TABLE` adds an empty table with the columns, keys, uniques and checks of its
/// definition, and without row security. The columns of its primary key may not be
/// `NULL`; else each column is as it was defined. Nothing else changes.
pub proof fn law_create_table(s: StoreV, d: TableDefV, env: EnvV, op: WalOpV, p: int)
    requires
        ddl_plan(s, StmtV::CreateTable(d), env.reals) == Ok::<Option<WalOpV>, StopV>(Some(op)),
        0 <= p < d.columns.len() <= usize::MAX,
    ensures
        table_pos(s, d.name) is None,
        catalog_after(s, op, env) is Ok,
        ({
            let after = catalog_after(s, op, env)->Ok_0;
            let t = after.tables[s.tables.len() as int];
            let def = d.columns[p];
            let col = t.schema.columns[p];
            let key = names_column(columns_of(d.columns), d.primary_key, p);
            &&& after.tables == s.tables.push(t)
            &&& after == StoreV { tables: after.tables, ..s }
            &&& t.rows.len() == 0
            &&& t.schema.name == d.name
            &&& t.schema.columns.len() == d.columns.len()
            &&& col.name == def.name
            &&& col.ty == def.ty
            &&& col.unique == def.unique
            &&& col.autoincrement == def.autoincrement
            &&& col.default_sql == def.default_sql
            &&& col.primary_key == (def.primary_key || key)
            &&& col.not_null == (def.not_null || key)
            &&& t.schema.uniques == d.uniques
            &&& t.schema.checks == d.checks
            &&& !t.schema.rls_enabled
            &&& t.schema.policies.len() == 0
        }),
{
    let cols = columns_of(d.columns);
    lemma_keyed(cols, d.primary_key, 0, p);
    assert(names_from(cols, d.primary_key, 0, p) == names_column(cols, d.primary_key, p));
    let after = catalog_after(s, op, env)->Ok_0;
    assert(after.tables =~= s.tables.push(after.tables[s.tables.len() as int]));
}

/// A table that is there is not made again: with `IF NOT EXISTS` nothing happens, and
/// without it the statement is refused. What is not there is not dropped: with
/// `IF EXISTS` nothing happens, and without it the statement is refused.
pub proof fn law_existence(s: StoreV, d: TableDefV, name: Seq<char>, if_exists: bool, reals: RealsV)
    ensures
        table_pos(s, d.name) is Some ==> (if d.if_not_exists {
            ddl_plan(s, StmtV::CreateTable(d), reals) == Ok::<Option<WalOpV>, StopV>(None)
        } else {
            ddl_plan(s, StmtV::CreateTable(d), reals) is Err
        }),
        table_pos(s, name) is None ==> (if if_exists {
            ddl_plan(s, StmtV::DropTable { name, if_exists }, reals) == Ok::<
                Option<WalOpV>,
                StopV,
            >(None)
        } else {
            ddl_plan(s, StmtV::DropTable { name, if_exists }, reals) is Err
        }),
{
}

proof fn lemma_indexes_off(ix: Seq<IndexDefV>, table: Seq<char>, x: IndexDefV)
    ensures
        indexes_off(ix, table).contains(x) <==> ix.contains(x) && !same_name(x.table, table),
    decreases ix.len(),
{
    if ix.len() > 0 {
        let rest = ix.drop_last();
        lemma_indexes_off(rest, table, x);
        let off = indexes_off(rest, table);
        assert(ix.contains(x) <==> rest.contains(x) || x == ix.last()) by {
            if ix.contains(x) && x != ix.last() {
                let k = choose|k: int| 0 <= k < ix.len() && ix[k] == x;
                assert(rest[k] == x);
            }
            if rest.contains(x) {
                let k = choose|k: int| 0 <= k < rest.len() && rest[k] == x;
                assert(ix[k] == x);
            }
            assert(ix[ix.len() - 1] == ix.last());
        }
        if !same_name(ix.last().table, table) {
            let out = off.push(ix.last());
            assert(out.contains(x) <==> off.contains(x) || x == ix.last()) by {
                if off.contains(x) {
                    let k = choose|k: int| 0 <= k < off.len() && off[k] == x;
                    assert(out[k] == x);
                }
                assert(out[off.len() as int] == ix.last());
                if out.contains(x) && x != ix.last() {
                    let k = choose|k: int| 0 <= k < out.len() && out[k] == x;
                    assert(off[k] == x);
                }
            }
        }
    }
}

/// `DROP TABLE` takes out just the table with that name, and just the indexes on it.
pub proof fn law_drop_table(
    s: StoreV,
    name: Seq<char>,
    if_exists: bool,
    env: EnvV,
    i: int,
    x: IndexDefV,
)
    requires
        table_pos(s, name) == Some(i),
    ensures
        ddl_plan(s, StmtV::DropTable { name, if_exists }, env.reals) matches Ok(Some(op))
            && catalog_after(s, op, env) matches Ok(after) && 0 <= i < s.tables.len() && same_name(
            s.tables[i].schema.name,
            name,
        ) && after.tables == s.tables.remove(i) && (after.indexes.contains(x)
            <==> s.indexes.contains(x) && !same_name(x.table, name)) && after.views == s.views,
{
    lemma_indexes_off(s.indexes, name, x);
    law_names_are_found(table_names(s.tables), name);
}

// ---- columns --------------------------------------------------------------------------------------

/// Whether two tables have the same rows but for their values.
pub open spec fn same_versions(a: TableV, b: TableV) -> bool {
    &&& a.rows.len() == b.rows.len()
    &&& forall|k: int|
        0 <= k < a.rows.len() ==> {
            let (v, w) = ((#[trigger] a.rows[k]), b.rows[k]);
            &&& v.vid == w.vid
            &&& v.create_lsn == w.create_lsn
            &&& v.delete_lsn == w.delete_lsn
            &&& v.owner == w.owner
        }
}

/// `ADD COLUMN` puts the column behind the others, with its default, or `NULL`, in every
/// row; the other cells stay.
pub proof fn law_add_column(
    s: StoreV,
    table: Seq<char>,
    column: ColumnV,
    env: EnvV,
    i: int,
    k: int,
)
    requires
        table_pos(s, table) == Some(i),
        0 <= i < s.tables.len(),
        0 <= k < s.tables[i].rows.len(),
        catalog_after(s, WalOpV::AlterAddColumn { table, column }, env) is Ok,
    ensures
        ({
            let old = s.tables[i];
            let after = catalog_after(s, WalOpV::AlterAddColumn { table, column }, env)->Ok_0;
            let now = after.tables[i];
            let (v, w) = (old.rows[k].values, now.rows[k].values);
            &&& after.tables.len() == s.tables.len()
            &&& forall|j: int|
                0 <= j < s.tables.len() && j != i ==> #[trigger] after.tables[j] == s.tables[j]
            &&& now.schema.columns == old.schema.columns.push(column)
            &&& same_versions(old, now)
            &&& w.len() == v.len() + 1
            &&& w.take(v.len() as int) == v
            &&& column.default_sql is None ==> w.last() is Null
            &&& fill_of(column, env) == Ok::<ValueV, StopV>(w.last())
        }),
{
    let old = s.tables[i];
    let after = catalog_after(s, WalOpV::AlterAddColumn { table, column }, env)->Ok_0;
    let (v, w) = (old.rows[k].values, after.tables[i].rows[k].values);
    assert(w.take(v.len() as int) =~= v);
}

/// `DROP COLUMN` takes just the cells of that column out of the rows.
pub proof fn law_drop_column(
    s: StoreV,
    table: Seq<char>,
    column: Seq<char>,
    env: EnvV,
    i: int,
    c: usize,
    k: int,
)
    requires
        table_pos(s, table) == Some(i),
        0 <= i < s.tables.len(),
        column_pos(s.tables[i].schema, column) == Some(c),
        0 <= k < s.tables[i].rows.len(),
        c < s.tables[i].rows[k].values.len(),
        c < s.tables[i].schema.columns.len(),
    ensures
        catalog_after(s, WalOpV::AlterDropColumn { table, column }, env) matches Ok(after) && {
            let old = s.tables[i];
            let now = after.tables[i];
            let (v, w) = (old.rows[k].values, now.rows[k].values);
            &&& after.tables.len() == s.tables.len()
            &&& forall|j: int|
                0 <= j < s.tables.len() && j != i ==> #[trigger] after.tables[j] == s.tables[j]
            &&& same_versions(old, now)
            &&& now.schema.columns.len() == old.schema.columns.len() - 1
            &&& w.len() == v.len() - 1
            &&& forall|j: int|
                0 <= j < w.len() ==> #[trigger] w[j] == v[if j < c {
                    j
                } else {
                    j + 1
                }]
            &&& forall|j: int|
                0 <= j < now.schema.columns.len() ==> #[trigger] now.schema.columns[j]
                    == old.schema.columns[if j < c {
                    j
                } else {
                    j + 1
                }]
        },
{
}

/// `RENAME COLUMN` changes the name of that column and nothing else.
pub proof fn law_rename_column(
    s: StoreV,
    table: Seq<char>,
    from: Seq<char>,
    to: Seq<char>,
    env: EnvV,
    i: int,
    c: usize,
)
    requires
        table_pos(s, table) == Some(i),
        0 <= i < s.tables.len(),
        column_pos(s.tables[i].schema, from) == Some(c),
        c < s.tables[i].schema.columns.len(),
    ensures
        catalog_after(s, WalOpV::AlterRenameColumn { table, from, to }, env) matches Ok(after) && {
            let old = s.tables[i];
            let now = after.tables[i];
            let cols = now.schema.columns;
            &&& after.tables.len() == s.tables.len()
            &&& forall|j: int|
                0 <= j < s.tables.len() && j != i ==> #[trigger] after.tables[j] == s.tables[j]
            &&& now == TableV { schema: SchemaV { columns: cols, ..old.schema }, ..old }
            &&& cols.len() == old.schema.columns.len()
            &&& cols[c as int] == ColumnV { name: to, ..old.schema.columns[c as int] }
            &&& forall|j: int|
                0 <= j < cols.len() && j != c ==> #[trigger] cols[j] == old.schema.columns[j]
        },
{
}

// ---- row security ---------------------------------------------------------------------------------

/// Row security goes on and off for that table alone, and changes no row or policy of it.
pub proof fn law_row_security(s: StoreV, table: Seq<char>, on: bool, env: EnvV, i: int)
    requires
        table_pos(s, table) == Some(i),
        0 <= i < s.tables.len(),
    ensures
        ddl_plan(
            s,
            StmtV::AlterTable { table, action: AlterActionV::SetRls(on) },
            env.reals,
        ) matches Ok(Some(op)) && catalog_after(s, op, env) matches Ok(after) && {
            let t = s.tables[i];
            &&& after.tables.len() == s.tables.len()
            &&& after.tables[i].schema.rls_enabled == on
            &&& after.tables[i] == TableV {
                schema: SchemaV { rls_enabled: on, ..t.schema },
                ..t
            }
            &&& forall|j: int|
                0 <= j < s.tables.len() && j != i ==> #[trigger] after.tables[j] == s.tables[j]
        },
{
}

/// A new policy joins those of its table, and changes nothing else.
pub proof fn law_create_policy(s: StoreV, table: Seq<char>, policy: PolicyV, env: EnvV, i: int)
    requires
        table_pos(s, table) == Some(i),
        0 <= i < s.tables.len(),
    ensures
        catalog_after(s, WalOpV::CreatePolicy { table, policy }, env) matches Ok(after) && {
            let t = s.tables[i];
            &&& after.tables.len() == s.tables.len()
            &&& after.tables[i] == TableV {
                schema: SchemaV { policies: t.schema.policies.push(policy), ..t.schema },
                ..t
            }
            &&& forall|j: int|
                0 <= j < s.tables.len() && j != i ==> #[trigger] after.tables[j] == s.tables[j]
        },
{
}

} // verus!
