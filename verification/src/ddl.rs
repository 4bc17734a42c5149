//! Statements that define things: what each of them writes to the log, and what
//! that does to the catalog.
//!
//! A definition is planned against the store, made durable, and applied. A plan is
//! the operation for the log; nothing is planned where a statement has nothing to
//! do.
use vstd::prelude::*;
use crate::asks::{Reals, RealsV, Stop, StopV};
use crate::catalog::{
    clone_opt_string, clone_string_lists, clone_strings, column_at, column_pos, columns_view,
    foreign_keys_view, opt_text, strings_view, Column, ColumnV, ForeignKey, ForeignKeyV, Policy,
    PolicyV, SchemaV, TableSchema,
};
use crate::env::{sql_fail, sql_stop, Env, EnvV};
use crate::grammar::stored_expr;
use crate::inserts::{constant_of, eval_const_sql};
use crate::mvcc::{
    find_policy, on_table, policy_names, renamed_table, with_column, with_policy, with_renamed,
    with_rls, without_column, without_policy,
};
use crate::pexpr::parse_expr;
use crate::refs::outer_names;
use crate::sql::{
    column_specs_view, key_specs_view, AlterAction, AlterActionV, ColumnSpec, ColumnSpecV,
    ForeignKeySpec, ForeignKeySpecV, PolicyDef, PolicyDefV, SelectStmt, SelectV, Stmt, StmtV,
    TableDef, TableDefV,
};
use crate::store::{
    index_names, indexes_off, name_pos, new_table, put_index, put_table, put_view, store_ok,
    table_named, table_pos, view_names, Store, StoreV, TableV, ViewV,
};
use crate::text::{concat2, concat3, concat4, names_match, nat_string, nat_text, owned, same_name};
use crate::value::{value_result, ColumnType, Value, ValueV};
use crate::vector::{IndexDef, IndexDefV, IndexParams};
use crate::views::{leads_to, view_would_cycle};
use crate::wal::{WalOp, WalOpV};

verus! {

/// What a definition comes to: the operation to be logged, if there is one.
pub type Planned = Result<Option<WalOpV>, StopV>;

pub open spec fn plan_result(r: Result<Option<WalOp>, Stop>) -> Planned {
    match r {
        Ok(Some(op)) => Ok(Some(op@)),
        Ok(None) => Ok(None),
        Err(s) => Err(s@),
    }
}

// ---- CREATE TABLE ---------------------------------------------------------------------------------

pub open spec fn column_of(c: ColumnSpecV) -> ColumnV {
    ColumnV {
        name: c.name,
        ty: c.ty,
        primary_key: c.primary_key,
        not_null: c.not_null,
        unique: c.unique,
        autoincrement: c.autoincrement,
        default_sql: c.default_sql,
    }
}

pub open spec fn columns_of(v: Seq<ColumnSpecV>) -> Seq<ColumnV> {
    Seq::new(v.len(), |i: int| column_of(v[i]))
}

fn declared_column(c: &ColumnSpec) -> (r: Column)
    ensures
        r@ == column_of(c@),
{
    Column {
        name: c.name.clone(),
        ty: c.ty,
        primary_key: c.primary_key,
        not_null: c.not_null,
        unique: c.unique,
        autoincrement: c.autoincrement,
        default_sql: clone_opt_string(&c.default_sql),
    }
}

fn declared_columns(v: &Vec<ColumnSpec>) -> (r: Vec<Column>)
    ensures
        columns_view(r@) == columns_of(column_specs_view(v@)),
{
    let ghost want = columns_of(column_specs_view(v@));
    let mut out: Vec<Column> = Vec::new();
    let mut i: usize = 0;
    assert(columns_view(out@) =~= want.take(0));
    while i < v.len()
        invariant
            i <= v.len(),
            want == columns_of(column_specs_view(v@)),
            columns_view(out@) == want.take(i as int),
        decreases v.len() - i,
    {
        assert(column_specs_view(v@)[i as int] == v@[i as int]@);
        let ghost before = columns_view(out@);
        let c = declared_column(&v[i]);
        let ghost cv = c@;
        out.push(c);
        assert(columns_view(out@) =~= before.push(cv));
        assert(want.take(i + 1) =~= before.push(cv));
        i += 1;
    }
    assert(want.take(i as int) =~= want);
    out
}

/// The columns named in a table's `PRIMARY KEY` from `i` on, made key columns.
pub open spec fn keyed_from(cols: Seq<ColumnV>, names: Seq<Seq<char>>, i: int) -> Result<
    Seq<ColumnV>,
    StopV,
>
    decreases names.len() - i,
{
    if i < 0 || i >= names.len() {
        Ok(cols)
    } else {
        match column_at(cols, names[i], 0) {
            None => Err(sql_fail("PRIMARY KEY references unknown column "@ + names[i])),
            Some(p) => keyed_from(
                cols.update(
                    p as int,
                    ColumnV { primary_key: true, not_null: true, ..cols[p as int] },
                ),
                names,
                i + 1,
            ),
        }
    }
}

fn find_column(cols: &Vec<Column>, name: &str) -> (r: Option<usize>)
    ensures
        r == column_at(columns_view(cols@), name@, 0),
        r is Some ==> r->0 < cols.len(),
{
    let ghost cv = columns_view(cols@);
    let mut i: usize = 0;
    while i < cols.len()
        invariant
            i <= cols.len(),
            cv == columns_view(cols@),
            column_at(cv, name@, i as int) == column_at(cv, name@, 0),
        decreases cols.len() - i,
    {
        assert(cv[i as int] == cols@[i as int]@);
        if names_match(&cols[i].name, name) {
            return Some(i);
        }
        i += 1;
    }
    None
}

pub open spec fn columns_result(r: Result<Vec<Column>, Stop>) -> Result<Seq<ColumnV>, StopV> {
    match r {
        Ok(v) => Ok(columns_view(v@)),
        Err(s) => Err(s@),
    }
}

fn fold_keys(cols: Vec<Column>, names: &Vec<String>) -> (r: Result<Vec<Column>, Stop>)
    ensures
        columns_result(r) == keyed_from(columns_view(cols@), strings_view(names@), 0),
{
    let ghost c0 = columns_view(cols@);
    let ghost nv = strings_view(names@);
    let mut out = cols;
    let mut i: usize = 0;
    while i < names.len()
        invariant
            i <= names.len(),
            c0 == columns_view(cols@),
            nv == strings_view(names@),
            keyed_from(columns_view(out@), nv, i as int) == keyed_from(c0, nv, 0),
        decreases names.len() - i,
    {
        assert(nv[i as int] == names@[i as int]@);
        match find_column(&out, &names[i]) {
            None => {
                return Err(
                    sql_stop(concat2("PRIMARY KEY references unknown column ", &names[i])),
                );
            },
            Some(p) => {
                let ghost before = columns_view(out@);
                assert(before[p as int] == out@[p as int]@);
                let mut c = out[p].clone();
                c.primary_key = true;
                c.not_null = true;
                let ghost cv = c@;
                out.set(p, c);
                assert(columns_view(out@) =~= before.update(p as int, cv));
            },
        }
        i += 1;
    }
    Ok(out)
}

/// The names of the key columns among the first `n`.
pub open spec fn key_names(cols: Seq<ColumnV>, n: int) -> Seq<Seq<char>>
    decreases n,
{
    if n <= 0 || n > cols.len() {
        Seq::empty()
    } else if cols[n - 1].primary_key {
        key_names(cols, n - 1).push(cols[n - 1].name)
    } else {
        key_names(cols, n - 1)
    }
}

fn names_of_keys(cols: &Vec<Column>) -> (r: Vec<String>)
    ensures
        strings_view(r@) == key_names(columns_view(cols@), cols@.len() as int),
{
    let ghost cv = columns_view(cols@);
    let mut out: Vec<String> = Vec::new();
    assert(strings_view(out@) =~= Seq::<Seq<char>>::empty());
    let mut i: usize = 0;
    while i < cols.len()
        invariant
            i <= cols.len(),
            cv == columns_view(cols@),
            strings_view(out@) == key_names(cv, i as int),
        decreases cols.len() - i,
    {
        assert(cv[i as int] == cols@[i as int]@);
        if cols[i].primary_key {
            let ghost before = strings_view(out@);
            let n = cols[i].name.clone();
            out.push(n);
            assert(strings_view(out@) =~= before.push(cv[i as int].name));
        }
        i += 1;
    }
    out
}

/// The primary key of the table that a foreign key refers to: one in the store, or
/// the one being made.
pub open spec fn referenced_key(s: StoreV, table: Seq<char>, cols: Seq<ColumnV>, ft: Seq<char>) -> Seq<
    Seq<char>,
> {
    if same_name(ft, table) {
        key_names(cols, cols.len() as int)
    } else {
        match table_named(s, ft) {
            Some(t) => key_names(t.schema.columns, t.schema.columns.len() as int),
            None => Seq::empty(),
        }
    }
}

fn find_referenced_key(store: &Store, table: &str, cols: &Vec<Column>, ft: &str) -> (r: Vec<String>)
    ensures
        strings_view(r@) == referenced_key(store@, table@, columns_view(cols@), ft@),
{
    if names_match(ft, table) {
        return names_of_keys(cols);
    }
    match store.table(ft) {
        Some(t) => names_of_keys(&t.schema.columns),
        None => {
            let out: Vec<String> = Vec::new();
            assert(strings_view(out@) =~= Seq::<Seq<char>>::empty());
            out
        },
    }
}

pub open spec fn joined_from(names: Seq<Seq<char>>, i: int, acc: Seq<char>) -> Seq<char>
    decreases names.len() - i,
{
    if i < 0 || i >= names.len() {
        acc
    } else {
        joined_from(
            names,
            i + 1,
            if i == 0 {
                names[i]
            } else {
                acc + "_"@ + names[i]
            },
        )
    }
}

fn join_names(names: &Vec<String>) -> (r: String)
    ensures
        r@ == joined_from(strings_view(names@), 0, Seq::empty()),
{
    let ghost nv = strings_view(names@);
    let mut out = String::new();
    let mut i: usize = 0;
    while i < names.len()
        invariant
            i <= names.len(),
            nv == strings_view(names@),
            joined_from(nv, i as int, out@) == joined_from(nv, 0, Seq::empty()),
        decreases names.len() - i,
    {
        assert(nv[i as int] == names@[i as int]@);
        out = if i == 0 {
            names[i].clone()
        } else {
            concat3(&out, "_", &names[i])
        };
        i += 1;
    }
    out
}

/// A foreign key, resolved: the columns it refers to default to the primary key,
/// there are as many as its own, and it has a name.
pub open spec fn resolved_key(
    s: StoreV,
    table: Seq<char>,
    cols: Seq<ColumnV>,
    k: ForeignKeySpecV,
) -> Result<ForeignKeyV, StopV> {
    let key = referenced_key(s, table, cols, k.foreign_table);
    if k.foreign_columns.len() == 0 && key.len() == 0 {
        Err(
            sql_fail(
                "foreign key on "@ + table + " references "@ + k.foreign_table
                    + " which has no known primary key"@,
            ),
        )
    } else {
        let foreign_columns = if k.foreign_columns.len() == 0 {
            key
        } else {
            k.foreign_columns
        };
        if foreign_columns.len() != k.columns.len() {
            Err(
                sql_fail(
                    "foreign key on "@ + table + ": "@ + nat_text(k.columns.len()) + (
                    " local column(s) reference "@ + nat_text(foreign_columns.len())
                        + " column(s)"@),
                ),
            )
        } else {
            Ok(
                ForeignKeyV {
                    name: match k.name {
                        Some(n) => n,
                        None => table + "_"@ + joined_from(k.columns, 0, Seq::empty()) + "_fkey"@,
                    },
                    columns: k.columns,
                    foreign_table: k.foreign_table,
                    foreign_columns,
                },
            )
        }
    }
}

pub open spec fn key_result(r: Result<ForeignKey, Stop>) -> Result<ForeignKeyV, StopV> {
    match r {
        Ok(v) => Ok(v@),
        Err(s) => Err(s@),
    }
}

fn resolve_key(store: &Store, table: &str, cols: &Vec<Column>, k: &ForeignKeySpec) -> (r: Result<
    ForeignKey,
    Stop,
>)
    ensures
        key_result(r) == resolved_key(store@, table@, columns_view(cols@), k@),
{
    assert(k@.foreign_columns.len() == k.foreign_columns@.len());
    assert(k@.columns.len() == k.columns@.len());
    let foreign_columns = if k.foreign_columns.len() == 0 {
        let key = find_referenced_key(store, table, cols, &k.foreign_table);
        assert(strings_view(key@).len() == key@.len());
        if key.len() == 0 {
            let head = concat4("foreign key on ", table, " references ", &k.foreign_table);
            return Err(sql_stop(concat2(&head, " which has no known primary key")));
        }
        key
    } else {
        clone_strings(&k.foreign_columns)
    };
    assert(strings_view(foreign_columns@).len() == foreign_columns@.len());
    if foreign_columns.len() != k.columns.len() {
        let head = concat4(
            "foreign key on ",
            table,
            ": ",
            &nat_string(k.columns.len() as u64),
        );
        let tail = concat3(
            " local column(s) reference ",
            &nat_string(foreign_columns.len() as u64),
            " column(s)",
        );
        return Err(sql_stop(concat2(&head, &tail)));
    }
    let name = match &k.name {
        Some(n) => n.clone(),
        None => concat4(table, "_", &join_names(&k.columns), "_fkey"),
    };
    Ok(
        ForeignKey {
            name,
            columns: clone_strings(&k.columns),
            foreign_table: k.foreign_table.clone(),
            foreign_columns,
        },
    )
}

pub open spec fn resolved_keys_from(
    s: StoreV,
    table: Seq<char>,
    cols: Seq<ColumnV>,
    keys: Seq<ForeignKeySpecV>,
    i: int,
    acc: Seq<ForeignKeyV>,
) -> Result<Seq<ForeignKeyV>, StopV>
    decreases keys.len() - i,
{
    if i < 0 || i >= keys.len() {
        Ok(acc)
    } else {
        match resolved_key(s, table, cols, keys[i]) {
            Err(e) => Err(e),
            Ok(k) => resolved_keys_from(s, table, cols, keys, i + 1, acc.push(k)),
        }
    }
}

/// Resolve the foreign keys of a table being made.
pub fn resolve_foreign_keys(
    store: &Store,
    table: &str,
    cols: &Vec<Column>,
    keys: &Vec<ForeignKeySpec>,
) -> (r: Result<Vec<ForeignKey>, Stop>)
    ensures
        resolved_keys_from(
            store@,
            table@,
            columns_view(cols@),
            key_specs_view(keys@),
            0,
            Seq::empty(),
        ) == (match r {
            Ok(v) => Ok(foreign_keys_view(v@)),
            Err(s) => Err(s@),
        }),
{
    let ghost cv = columns_view(cols@);
    let ghost kv = key_specs_view(keys@);
    let mut out: Vec<ForeignKey> = Vec::new();
    assert(foreign_keys_view(out@) =~= Seq::<ForeignKeyV>::empty());
    let mut i: usize = 0;
    while i < keys.len()
        invariant
            i <= keys.len(),
            cv == columns_view(cols@),
            kv == key_specs_view(keys@),
            resolved_keys_from(store@, table@, cv, kv, i as int, foreign_keys_view(out@))
                == resolved_keys_from(store@, table@, cv, kv, 0, Seq::empty()),
        decreases keys.len() - i,
    {
        assert(kv[i as int] == keys@[i as int]@);
        let k = resolve_key(store, table, cols, &keys[i])?;
        let ghost before = foreign_keys_view(out@);
        let ghost kv2 = k@;
        out.push(k);
        assert(foreign_keys_view(out@) =~= before.push(kv2));
        i += 1;
    }
    Ok(out)
}

/// What `CREATE TABLE` comes to.
pub open spec fn table_plan(s: StoreV, d: TableDefV) -> Planned {
    if table_pos(s, d.name) is Some {
        if d.if_not_exists {
            Ok(None)
        } else {
            Err(sql_fail("table "@ + d.name + " already exists"@))
        }
    } else {
        match keyed_from(columns_of(d.columns), d.primary_key, 0) {
            Err(e) => Err(e),
            Ok(columns) => match resolved_keys_from(
                s,
                d.name,
                columns,
                d.foreign_keys,
                0,
                Seq::empty(),
            ) {
                Err(e) => Err(e),
                Ok(foreign_keys) => Ok(
                    Some(
                        WalOpV::CreateTable {
                            schema: SchemaV {
                                name: d.name,
                                columns,
                                foreign_keys,
                                checks: d.checks,
                                uniques: d.uniques,
                                rls_enabled: false,
                                policies: Seq::empty(),
                            },
                        },
                    ),
                ),
            },
        }
    }
}

pub fn plan_table(store: &Store, d: &TableDef) -> (r: Result<Option<WalOp>, Stop>)
    ensures
        plan_result(r) == table_plan(store@, d@),
{
    if store.find_table(&d.name).is_some() {
        if d.if_not_exists {
            return Ok(None);
        }
        return Err(sql_stop(concat3("table ", &d.name, " already exists")));
    }
    let columns = fold_keys(declared_columns(&d.columns), &d.primary_key)?;
    let foreign_keys = resolve_foreign_keys(store, &d.name, &columns, &d.foreign_keys)?;
    let schema = TableSchema {
        name: d.name.clone(),
        columns,
        foreign_keys,
        checks: clone_strings(&d.checks),
        uniques: clone_string_lists(&d.uniques),
        rls_enabled: false,
        policies: Vec::new(),
    };
    assert(schema@.policies =~= Seq::<PolicyV>::empty());
    Ok(Some(WalOp::CreateTable { schema }))
}

// ---- indexes and views ----------------------------------------------------------------------------

/// What `CREATE INDEX` comes to.
pub open spec fn index_plan(s: StoreV, d: IndexDefV, if_not_exists: bool) -> Planned {
    if name_pos(index_names(s.indexes), d.name, 0) is Some {
        if if_not_exists {
            Ok(None)
        } else {
            Err(sql_fail("index "@ + d.name + " already exists"@))
        }
    } else {
        match table_named(s, d.table) {
            None => Err(sql_fail("no such table: "@ + d.table)),
            Some(t) => match column_pos(t.schema, d.column) {
                None => Err(sql_fail("no such column: "@ + d.table + "."@ + d.column)),
                Some(p) => if t.schema.columns[p as int].ty is Vector {
                    Ok(Some(WalOpV::CreateIndex { def: d }))
                } else {
                    Err(
                        sql_fail(
                            "HNSW index requires a vector column; "@ + d.table + "."@ + (d.column
                                + " is not a vector"@),
                        ),
                    )
                },
            },
        }
    }
}

fn is_vector(ty: ColumnType) -> (r: bool)
    ensures
        r == (ty is Vector),
{
    match ty {
        ColumnType::Vector(_) => true,
        _ => false,
    }
}

pub fn plan_index(
    store: &Store,
    name: &str,
    table: &str,
    column: &str,
    params: IndexParams,
    if_not_exists: bool,
) -> (r: Result<Option<WalOp>, Stop>)
    ensures
        plan_result(r) == index_plan(
            store@,
            IndexDefV { name: name@, table: table@, column: column@, params },
            if_not_exists,
        ),
{
    if store.has_index(name) {
        if if_not_exists {
            return Ok(None);
        }
        return Err(sql_stop(concat3("index ", name, " already exists")));
    }
    match store.table(table) {
        None => Err(sql_stop(concat2("no such table: ", table))),
        Some(t) => match t.schema.column_index(column) {
            None => Err(sql_stop(concat4("no such column: ", table, ".", column))),
            Some(p) => {
                assert(t@.schema.columns[p as int] == t.schema.columns@[p as int]@);
                if is_vector(t.schema.columns[p].ty) {
                    Ok(
                        Some(
                            WalOp::CreateIndex {
                                def: IndexDef {
                                    name: owned(name),
                                    table: owned(table),
                                    column: owned(column),
                                    params,
                                },
                            },
                        ),
                    )
                } else {
                    let head = concat3("HNSW index requires a vector column; ", table, ".");
                    let tail = concat2(column, " is not a vector");
                    Err(sql_stop(concat2(&head, &tail)))
                }
            },
        },
    }
}

/// What `CREATE VIEW` comes to.
pub open spec fn view_plan(
    s: StoreV,
    name: Seq<char>,
    query: SelectV,
    sql: Seq<char>,
    or_replace: bool,
    if_not_exists: bool,
) -> Planned {
    if table_pos(s, name) is Some {
        Err(
            sql_fail(
                "cannot create view "@ + name + ": a table with that name already exists"@,
            ),
        )
    } else if name_pos(view_names(s.views), name, 0) is Some && !or_replace {
        if if_not_exists {
            Ok(None)
        } else {
            Err(sql_fail("view "@ + name + " already exists"@))
        }
    } else if leads_to(s.views, outer_names(query), name) {
        Err(
            sql_fail(
                "cannot create view "@ + name + ": the definition is recursive (unsupported)"@,
            ),
        )
    } else {
        Ok(Some(WalOpV::CreateView { name, sql }))
    }
}

pub fn plan_view(
    store: &Store,
    name: &str,
    query: &SelectStmt,
    sql: &str,
    or_replace: bool,
    if_not_exists: bool,
) -> (r: Result<Option<WalOp>, Stop>)
    ensures
        plan_result(r) == view_plan(
            store@,
            name@,
            query@,
            sql@,
            or_replace,
            if_not_exists,
        ),
{
    if store.find_table(name).is_some() {
        return Err(
            sql_stop(
                concat3(
                    "cannot create view ",
                    name,
                    ": a table with that name already exists",
                ),
            ),
        );
    }
    if store.has_view(name) && !or_replace {
        if if_not_exists {
            return Ok(None);
        }
        return Err(sql_stop(concat3("view ", name, " already exists")));
    }
    if view_would_cycle(store, name, query) {
        return Err(
            sql_stop(
                concat3(
                    "cannot create view ",
                    name,
                    ": the definition is recursive (unsupported)",
                ),
            ),
        );
    }
    Ok(Some(WalOp::CreateView { name: owned(name), sql: owned(sql) }))
}

// ---- DROP -----------------------------------------------------------------------------------------

/// What a `DROP` comes to, by whether the thing is there.
pub open spec fn drop_plan(there: bool, if_exists: bool, kind: Seq<char>, name: Seq<char>, op: WalOpV) -> Planned {
    if there {
        Ok(Some(op))
    } else if if_exists {
        Ok(None)
    } else {
        Err(sql_fail("no such "@ + kind + ": "@ + name))
    }
}

fn plan_drop(there: bool, if_exists: bool, kind: &str, name: &str, op: WalOp) -> (r: Result<
    Option<WalOp>,
    Stop,
>)
    ensures
        plan_result(r) == drop_plan(there, if_exists, kind@, name@, op@),
{
    if there {
        Ok(Some(op))
    } else if if_exists {
        Ok(None)
    } else {
        Err(sql_stop(concat4("no such ", kind, ": ", name)))
    }
}

// ---- ALTER TABLE ----------------------------------------------------------------------------------

/// A column added later is no part of the primary key.
pub open spec fn added_column(c: ColumnSpecV) -> ColumnV {
    ColumnV { primary_key: false, ..column_of(c) }
}

/// What `ALTER TABLE` comes to.
pub open spec fn alter_plan(s: StoreV, table: Seq<char>, a: AlterActionV) -> Planned {
    match table_named(s, table) {
        None => Err(sql_fail("no such table: "@ + table)),
        Some(t) => match a {
            AlterActionV::AddColumn(c) => if column_pos(t.schema, c.name) is Some {
                Err(sql_fail("column "@ + c.name + " already exists in "@ + table))
            } else {
                Ok(Some(WalOpV::AlterAddColumn { table, column: added_column(c) }))
            },
            AlterActionV::DropColumn { name, if_exists } => if column_pos(
                t.schema,
                name,
            ) is Some {
                Ok(Some(WalOpV::AlterDropColumn { table, column: name }))
            } else if if_exists {
                Ok(None)
            } else {
                Err(sql_fail("no such column: "@ + table + "."@ + name))
            },
            AlterActionV::RenameColumn { from, to } => Ok(
                Some(WalOpV::AlterRenameColumn { table, from, to }),
            ),
            AlterActionV::RenameTable { to } => Ok(Some(WalOpV::AlterRenameTable { table, to })),
            AlterActionV::SetRls(enabled) => Ok(Some(WalOpV::SetRls { table, enabled })),
        },
    }
}

pub fn plan_alter(store: &Store, table: &str, a: &AlterAction) -> (r: Result<Option<WalOp>, Stop>)
    ensures
        plan_result(r) == alter_plan(store@, table@, a@),
{
    match store.table(table) {
        None => Err(sql_stop(concat2("no such table: ", table))),
        Some(t) => match a {
            AlterAction::AddColumn(c) => {
                if t.schema.column_index(&c.name).is_some() {
                    return Err(
                        sql_stop(concat4("column ", &c.name, " already exists in ", table)),
                    );
                }
                let mut column = declared_column(c);
                column.primary_key = false;
                Ok(Some(WalOp::AlterAddColumn { table: owned(table), column }))
            },
            AlterAction::DropColumn { name, if_exists } => {
                if t.schema.column_index(name).is_some() {
                    return Ok(
                        Some(
                            WalOp::AlterDropColumn { table: owned(table), column: name.clone() },
                        ),
                    );
                }
                if *if_exists {
                    return Ok(None);
                }
                Err(sql_stop(concat4("no such column: ", table, ".", name)))
            },
            AlterAction::RenameColumn { from, to } => Ok(
                Some(
                    WalOp::AlterRenameColumn {
                        table: owned(table),
                        from: from.clone(),
                        to: to.clone(),
                    },
                ),
            ),
            AlterAction::RenameTable { to } => Ok(
                Some(WalOp::AlterRenameTable { table: owned(table), to: to.clone() }),
            ),
            AlterAction::SetRls(enabled) => Ok(
                Some(WalOp::SetRls { table: owned(table), enabled: *enabled }),
            ),
        },
    }
}

// ---- policies -------------------------------------------------------------------------------------

/// Whether the text of a predicate, where there is one, is an expression.
pub open spec fn readable_text(o: Option<Seq<char>>, reals: RealsV) -> Result<(), StopV> {
    match o {
        None => Ok(()),
        Some(text) => match stored_expr(text, reals) {
            Err(e) => Err(e),
            Ok(_) => Ok(()),
        },
    }
}

fn check_text(o: &Option<String>, reals: &Reals) -> (r: Result<(), Stop>)
    ensures
        readable_text(opt_text(*o), reals@) == (match r {
            Ok(_) => Ok(()),
            Err(s) => Err(s@),
        }),
{
    match o {
        None => Ok(()),
        Some(text) => {
            let _ = parse_expr(text, reals)?;
            Ok(())
        },
    }
}

/// What `CREATE POLICY` comes to. A predicate that is no expression is refused here,
/// so that none becomes durable.
pub open spec fn policy_plan(s: StoreV, d: PolicyDefV, reals: RealsV) -> Planned {
    match table_named(s, d.table) {
        None => Err(sql_fail("no such table: "@ + d.table)),
        Some(t) => if name_pos(policy_names(t.schema.policies), d.policy.name, 0) is Some {
            Err(sql_fail("policy "@ + d.policy.name + " already exists on "@ + d.table))
        } else {
            match readable_text(d.policy.using, reals) {
                Err(e) => Err(e),
                Ok(_) => match readable_text(d.policy.check, reals) {
                    Err(e) => Err(e),
                    Ok(_) => Ok(
                        Some(WalOpV::CreatePolicy { table: d.table, policy: d.policy }),
                    ),
                },
            }
        },
    }
}

pub fn plan_policy(store: &Store, d: &PolicyDef, reals: &Reals) -> (r: Result<Option<WalOp>, Stop>)
    ensures
        plan_result(r) == policy_plan(store@, d@, reals@),
{
    match store.table(&d.table) {
        None => {
            return Err(sql_stop(concat2("no such table: ", &d.table)));
        },
        Some(t) => if find_policy(&t.schema.policies, &d.name).is_some() {
            return Err(sql_stop(concat4("policy ", &d.name, " already exists on ", &d.table)));
        },
    }
    check_text(&d.using, reals)?;
    check_text(&d.check, reals)?;
    let policy = Policy {
        name: d.name.clone(),
        command: d.command,
        roles: clone_strings(&d.roles),
        using: clone_opt_string(&d.using),
        check: clone_opt_string(&d.check),
    };
    Ok(Some(WalOp::CreatePolicy { table: d.table.clone(), policy }))
}

/// Whether a table has a policy.
pub open spec fn has_policy(s: StoreV, table: Seq<char>, name: Seq<char>) -> bool {
    match table_named(s, table) {
        None => false,
        Some(t) => name_pos(policy_names(t.schema.policies), name, 0) is Some,
    }
}

/// What `DROP POLICY` comes to.
pub open spec fn policy_drop(s: StoreV, table: Seq<char>, name: Seq<char>, if_exists: bool) -> Planned {
    if has_policy(s, table, name) {
        Ok(Some(WalOpV::DropPolicy { table, name }))
    } else if if_exists {
        Ok(None)
    } else {
        Err(sql_fail("no such policy: "@ + name + " on "@ + table))
    }
}

pub fn plan_policy_drop(store: &Store, table: &str, name: &str, if_exists: bool) -> (r: Result<
    Option<WalOp>,
    Stop,
>)
    ensures
        plan_result(r) == policy_drop(store@, table@, name@, if_exists),
{
    let there = match store.table(table) {
        None => false,
        Some(t) => find_policy(&t.schema.policies, name).is_some(),
    };
    if there {
        Ok(Some(WalOp::DropPolicy { table: owned(table), name: owned(name) }))
    } else if if_exists {
        Ok(None)
    } else {
        Err(sql_stop(concat4("no such policy: ", name, " on ", table)))
    }
}

// ---- all of them ----------------------------------------------------------------------------------

pub open spec fn defines(q: StmtV) -> bool {
    q is CreateTable || q is DropTable || q is CreateIndex || q is DropIndex || q is AlterTable || q
        is CreateView || q is DropView || q is CreatePolicy || q is DropPolicy
}

/// What a definition comes to.
pub open spec fn ddl_plan(s: StoreV, q: StmtV, reals: RealsV) -> Planned {
    match q {
        StmtV::CreateTable(d) => table_plan(s, d),
        StmtV::AlterTable { table, action } => alter_plan(s, table, action),
        StmtV::DropTable { name, if_exists } => drop_plan(
            table_pos(s, name) is Some,
            if_exists,
            "table"@,
            name,
            WalOpV::DropTable { name },
        ),
        StmtV::CreateIndex { name, table, column, params, if_not_exists } => index_plan(
            s,
            IndexDefV { name, table, column, params },
            if_not_exists,
        ),
        StmtV::DropIndex { name, if_exists } => drop_plan(
            name_pos(index_names(s.indexes), name, 0) is Some,
            if_exists,
            "index"@,
            name,
            WalOpV::DropIndex { name },
        ),
        StmtV::CreateView { name, query, sql, or_replace, if_not_exists } => view_plan(
            s,
            name,
            query,
            sql,
            or_replace,
            if_not_exists,
        ),
        StmtV::DropView { name, if_exists } => drop_plan(
            name_pos(view_names(s.views), name, 0) is Some,
            if_exists,
            "view"@,
            name,
            WalOpV::DropView { name },
        ),
        StmtV::CreatePolicy(d) => policy_plan(s, d, reals),
        StmtV::DropPolicy { name, table, if_exists } => policy_drop(s, table, name, if_exists),
        _ => Ok(None),
    }
}

/// Plan a definition.
pub fn plan_ddl(store: &Store, stmt: &Stmt, reals: &Reals) -> (r: Result<Option<WalOp>, Stop>)
    ensures
        plan_result(r) == ddl_plan(store@, stmt@, reals@),
{
    match stmt {
        Stmt::CreateTable(d) => plan_table(store, d),
        Stmt::AlterTable { table, action } => plan_alter(store, table, action),
        Stmt::DropTable { name, if_exists } => plan_drop(
            store.find_table(name).is_some(),
            *if_exists,
            "table",
            name,
            WalOp::DropTable { name: name.clone() },
        ),
        Stmt::CreateIndex { name, table, column, params, if_not_exists } => plan_index(
            store,
            name,
            table,
            column,
            *params,
            *if_not_exists,
        ),
        Stmt::DropIndex { name, if_exists } => plan_drop(
            store.has_index(name),
            *if_exists,
            "index",
            name,
            WalOp::DropIndex { name: name.clone() },
        ),
        Stmt::CreateView { name, query, sql, or_replace, if_not_exists } => plan_view(
            store,
            name,
            query,
            sql,
            *or_replace,
            *if_not_exists,
        ),
        Stmt::DropView { name, if_exists } => plan_drop(
            store.has_view(name),
            *if_exists,
            "view",
            name,
            WalOp::DropView { name: name.clone() },
        ),
        Stmt::CreatePolicy(d) => plan_policy(store, d, reals),
        Stmt::DropPolicy { name, table, if_exists } => plan_policy_drop(
            store,
            table,
            name,
            *if_exists,
        ),
        _ => Ok(None),
    }
}

// ---- applying -------------------------------------------------------------------------------------

/// What existing rows get in a column that is added: the default, where it has a
/// value; else `NULL`.
pub open spec fn fill_of(c: ColumnV, env: EnvV) -> Result<ValueV, StopV> {
    match c.default_sql {
        None => Ok(ValueV::Null),
        Some(d) => match constant_of(d, 0, env) {
            Ok(v) => Ok(v),
            Err(StopV::Need(a)) => Err(StopV::Need(a)),
            Err(StopV::Fail(_)) => Ok(ValueV::Null),
        },
    }
}

pub fn fill_value(c: &Column, env: &Env) -> (r: Result<Value, Stop>)
    ensures
        value_result(r) == fill_of(c@, env@),
{
    match &c.default_sql {
        None => Ok(Value::Null),
        Some(d) => match eval_const_sql(d, 0, env) {
            Ok(v) => Ok(v),
            Err(Stop::Need(a)) => Err(Stop::Need(a)),
            Err(Stop::Fail(_)) => Ok(Value::Null),
        },
    }
}

/// What an operation does to the catalog. Views are not among these: their queries
/// are kept apart from the log.
pub open spec fn catalog_after(s: StoreV, op: WalOpV, env: EnvV) -> Result<StoreV, StopV> {
    match op {
        WalOpV::CreateTable { schema } => Ok(
            StoreV { tables: put_table(s.tables, new_table(schema)), ..s },
        ),
        WalOpV::DropTable { name } => Ok(
            StoreV {
                tables: match table_pos(s, name) {
                    Some(i) => s.tables.remove(i),
                    None => s.tables,
                },
                indexes: indexes_off(s.indexes, name),
                ..s
            },
        ),
        WalOpV::CreateIndex { def } => Ok(StoreV { indexes: put_index(s.indexes, def), ..s }),
        WalOpV::DropIndex { name } => Ok(
            StoreV {
                indexes: match name_pos(index_names(s.indexes), name, 0) {
                    Some(i) => s.indexes.remove(i),
                    None => s.indexes,
                },
                ..s
            },
        ),
        WalOpV::AlterAddColumn { table, column } => match fill_of(column, env) {
            Err(e) => Err(e),
            Ok(fill) => Ok(on_table(s, table, |t: TableV| with_column(t, column, fill))),
        },
        WalOpV::AlterDropColumn { table, column } => Ok(
            on_table(s, table, |t: TableV| without_column(t, column)),
        ),
        WalOpV::AlterRenameColumn { table, from, to } => Ok(
            on_table(s, table, |t: TableV| with_renamed(t, from, to)),
        ),
        WalOpV::AlterRenameTable { table, to } => Ok(
            StoreV { tables: renamed_table(s.tables, table, to), ..s },
        ),
        WalOpV::DropView { name } => Ok(
            StoreV {
                views: match name_pos(view_names(s.views), name, 0) {
                    Some(i) => s.views.remove(i),
                    None => s.views,
                },
                ..s
            },
        ),
        WalOpV::CreatePolicy { table, policy } => Ok(
            on_table(s, table, |t: TableV| with_policy(t, policy)),
        ),
        WalOpV::DropPolicy { table, name } => Ok(
            on_table(s, table, |t: TableV| without_policy(t, name)),
        ),
        WalOpV::SetRls { table, enabled } => Ok(
            on_table(s, table, |t: TableV| with_rls(t, enabled)),
        ),
        _ => Ok(s),
    }
}

/// What a step left of a store, held against what it should.
pub open spec fn stored(
    r: Result<(), Stop>,
    before: StoreV,
    after: StoreV,
    want: Result<StoreV, StopV>,
) -> bool {
    match r {
        Ok(_) => want == Ok::<StoreV, StopV>(after),
        Err(s) => want == Err::<StoreV, StopV>(s@) && after == before,
    }
}

/// Apply an `ALTER TABLE` operation.
pub fn apply_alter(store: &mut Store, op: &WalOp, env: &Env) -> (r: Result<(), Stop>)
    requires
        store_ok(old(store)@),
    ensures
        op@ is AlterAddColumn || op@ is AlterDropColumn || op@ is AlterRenameColumn || op@
            is AlterRenameTable || op@ is SetRls ==> stored(
            r,
            old(store)@,
            final(store)@,
            catalog_after(old(store)@, op@, env@),
        ),
        !(op@ is AlterAddColumn || op@ is AlterDropColumn || op@ is AlterRenameColumn || op@
            is AlterRenameTable || op@ is SetRls) ==> r is Ok && final(store)@ == old(store)@,
        store_ok(final(store)@),
{
    match op {
        WalOp::AlterAddColumn { table, column } => {
            let fill = fill_value(column, env)?;
            store.add_column(table, column.clone(), fill);
        },
        WalOp::AlterDropColumn { table, column } => {
            store.drop_column(table, column);
        },
        WalOp::AlterRenameColumn { table, from, to } => {
            store.rename_column(table, from, to);
        },
        WalOp::AlterRenameTable { table, to } => {
            store.rename_table(table, to);
        },
        WalOp::SetRls { table, enabled } => {
            store.set_rls(table, *enabled);
        },
        _ => {},
    }
    Ok(())
}

/// Apply an operation on the catalog.
pub fn apply_catalog(store: &mut Store, op: &WalOp, env: &Env) -> (r: Result<(), Stop>)
    requires
        store_ok(old(store)@),
    ensures
        stored(r, old(store)@, final(store)@, catalog_after(old(store)@, op@, env@)),
        store_ok(final(store)@),
{
    match op {
        WalOp::CreateTable { schema } => {
            store.insert_table(schema.clone());
            Ok(())
        },
        WalOp::DropTable { name } => {
            let _ = store.drop_table(name);
            Ok(())
        },
        WalOp::CreateIndex { def } => {
            store.register_index(def.clone());
            Ok(())
        },
        WalOp::DropIndex { name } => {
            let _ = store.drop_index(name);
            Ok(())
        },
        WalOp::DropView { name } => {
            let _ = store.drop_view(name);
            Ok(())
        },
        WalOp::CreatePolicy { table, policy } => {
            store.add_policy(table, policy.clone());
            Ok(())
        },
        WalOp::DropPolicy { table, name } => {
            store.drop_policy(table, name);
            Ok(())
        },
        _ => apply_alter(store, op, env),
    }
}

pub open spec fn published(s: StoreV, lsn: u64) -> StoreV {
    StoreV {
        committed_lsn: if lsn > s.committed_lsn {
            lsn
        } else {
            s.committed_lsn
        },
        ..s
    }
}

/// What a definition that became durable at `lsn` leaves.
pub open spec fn defined(s: StoreV, q: StmtV, op: WalOpV, lsn: u64, env: EnvV) -> Result<
    StoreV,
    StopV,
> {
    match q {
        StmtV::CreateView { name, query, .. } => Ok(
            published(
                StoreV { views: put_view(s.views, ViewV { name, query }), ..s },
                lsn,
            ),
        ),
        _ => match catalog_after(s, op, env) {
            Err(e) => Err(e),
            Ok(t) => Ok(published(t, lsn)),
        },
    }
}

/// Advance the newest snapshot for readers.
pub fn publish(store: &mut Store, lsn: u64)
    ensures
        final(store)@ == published(old(store)@, lsn),
        store_ok(old(store)@) ==> store_ok(final(store)@),
{
    if lsn > store.committed_lsn {
        store.committed_lsn = lsn;
    }
}

/// Put a definition that became durable at `lsn` into effect. What a column that is
/// added needs to be filled is asked for before anything changes.
pub fn finish_ddl(store: &mut Store, stmt: Stmt, op: &WalOp, lsn: u64, env: &Env) -> (r: Result<
    (),
    Stop,
>)
    requires
        store_ok(old(store)@),
    ensures
        stored(r, old(store)@, final(store)@, defined(old(store)@, stmt@, op@, lsn, env@)),
        store_ok(final(store)@),
{
    match stmt {
        Stmt::CreateView { name, query, .. } => {
            store.insert_view(name, *query);
        },
        _ => {
            apply_catalog(store, op, env)?;
        },
    }
    publish(store, lsn);
    Ok(())
}

} // verus!
