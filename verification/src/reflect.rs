//! The catalog as clients see it.
use vstd::prelude::*;
use crate::catalog::{
    clone_opt_string, clone_strings, columns_view, command_text, foreign_keys_view, opt_text,
    strings_view, Column, ColumnV, ForeignKey, ForeignKeyV, PolicyV, SchemaV, TableSchema,
};
use crate::conn::Connection;
use crate::scope::places_view;
use crate::sorting::{
    by_cells, law_sort_permutes, lemma_sorted_by_cells, permutes, sort_by_cells, sorted_places,
    CellKey,
};
use crate::store::{table_named, Store, TableV};
use crate::value::{row_view, rows_view, ColumnType, RowV, Value, ValueV};

verus! {

pub open spec fn pg_name(ty: ColumnType) -> Seq<char> {
    match ty {
        ColumnType::Integer => "bigint"@,
        ColumnType::Real => "double precision"@,
        ColumnType::Text => "text"@,
        ColumnType::Blob => "bytea"@,
        ColumnType::Vector(_) => "text"@,
    }
}

/// The name under which Postgres clients know a column type.
pub fn pg_type_name(ty: ColumnType) -> (r: &'static str)
    ensures
        r@ == pg_name(ty),
{
    match ty {
        ColumnType::Integer => "bigint",
        ColumnType::Real => "double precision",
        ColumnType::Text => "text",
        ColumnType::Blob => "bytea",
        ColumnType::Vector(_) => "text",
    }
}

/// A column as clients see it.
pub struct CatalogColumn {
    pub name: String,
    pub pg_type: &'static str,
    /// The storage class, which tells a vector from a text.
    pub ty: ColumnType,
    pub not_null: bool,
    pub primary_key: bool,
    /// Unique by a constraint of its own. A key column is unique anyway.
    pub unique: bool,
    pub default_sql: Option<String>,
    /// The place in the table, counted from one.
    pub position: i32,
}

pub struct CatalogColumnV {
    pub name: Seq<char>,
    pub pg_type: Seq<char>,
    pub ty: ColumnType,
    pub not_null: bool,
    pub primary_key: bool,
    pub unique: bool,
    pub default_sql: Option<Seq<char>>,
    pub position: i32,
}

impl View for CatalogColumn {
    type V = CatalogColumnV;

    open spec fn view(&self) -> CatalogColumnV {
        CatalogColumnV {
            name: self.name@,
            pg_type: self.pg_type@,
            ty: self.ty,
            not_null: self.not_null,
            primary_key: self.primary_key,
            unique: self.unique,
            default_sql: opt_text(self.default_sql),
            position: self.position,
        }
    }
}

pub struct CatalogForeignKey {
    pub name: String,
    pub columns: Vec<String>,
    pub foreign_table: String,
    pub foreign_columns: Vec<String>,
}

impl View for CatalogForeignKey {
    type V = ForeignKeyV;

    open spec fn view(&self) -> ForeignKeyV {
        ForeignKeyV {
            name: self.name@,
            columns: strings_view(self.columns@),
            foreign_table: self.foreign_table@,
            foreign_columns: strings_view(self.foreign_columns@),
        }
    }
}

/// A table as clients see it.
pub struct CatalogTable {
    pub name: String,
    pub columns: Vec<CatalogColumn>,
    pub foreign_keys: Vec<CatalogForeignKey>,
}

pub struct CatalogTableV {
    pub name: Seq<char>,
    pub columns: Seq<CatalogColumnV>,
    pub foreign_keys: Seq<ForeignKeyV>,
}

pub open spec fn catalog_columns_view(v: Seq<CatalogColumn>) -> Seq<CatalogColumnV> {
    Seq::new(v.len(), |i: int| v[i]@)
}

pub open spec fn catalog_keys_view(v: Seq<CatalogForeignKey>) -> Seq<ForeignKeyV> {
    Seq::new(v.len(), |i: int| v[i]@)
}

impl View for CatalogTable {
    type V = CatalogTableV;

    open spec fn view(&self) -> CatalogTableV {
        CatalogTableV {
            name: self.name@,
            columns: catalog_columns_view(self.columns@),
            foreign_keys: catalog_keys_view(self.foreign_keys@),
        }
    }
}

pub open spec fn catalog_tables_view(v: Seq<CatalogTable>) -> Seq<CatalogTableV> {
    Seq::new(v.len(), |i: int| v[i]@)
}

pub open spec fn reflected_column(c: ColumnV, i: int) -> CatalogColumnV {
    CatalogColumnV {
        name: c.name,
        pg_type: pg_name(c.ty),
        ty: c.ty,
        not_null: c.not_null,
        primary_key: c.primary_key,
        unique: c.unique && !c.primary_key,
        default_sql: c.default_sql,
        position: (i + 1) as i32,
    }
}

pub open spec fn reflected(t: SchemaV) -> CatalogTableV {
    CatalogTableV {
        name: t.name,
        columns: Seq::new(t.columns.len(), |i: int| reflected_column(t.columns[i], i)),
        foreign_keys: t.foreign_keys,
    }
}

// ---- tables by name -------------------------------------------------------------------------------

/// The names of tables, as rows to be sorted.
pub open spec fn name_rows(ts: Seq<TableV>) -> Seq<RowV> {
    Seq::new(ts.len(), |i: int| seq![ValueV::Text(ts[i].schema.name)])
}

pub open spec fn name_key() -> Seq<CellKey> {
    seq![CellKey { at: 0, asc: true, nulls_first: false }]
}

/// Where the tables stand in the order of their names.
pub open spec fn by_name(ts: Seq<TableV>) -> Seq<int> {
    match sorted_places(by_cells(name_rows(ts), name_key()), ts.len() as int) {
        Ok(o) => o,
        Err(_) => Seq::empty(),
    }
}

/// The definitions of all tables, in the order of their names.
pub open spec fn schemas_by_name(ts: Seq<TableV>) -> Seq<SchemaV> {
    Seq::new(by_name(ts).len(), |k: int| ts[by_name(ts)[k]].schema)
}

pub open spec fn schemas_view(v: Seq<TableSchema>) -> Seq<SchemaV> {
    Seq::new(v.len(), |i: int| v[i]@)
}

/// Every table is listed, and none twice.
pub proof fn law_catalog_is_complete(ts: Seq<TableV>)
    ensures
        permutes(by_name(ts), ts.len() as int),
{
    lemma_sorted_by_cells(name_rows(ts), name_key(), ts.len() as int);
    law_sort_permutes(by_cells(name_rows(ts), name_key()), ts.len() as int);
}

impl Store {
    /// The definitions of all tables, in the order of their names.
    pub fn table_schemas(&self) -> (r: Vec<TableSchema>)
        ensures
            schemas_view(r@) == schemas_by_name(self@.tables),
    {
        let ghost ts = self@.tables;
        let mut rows: Vec<Vec<Value>> = Vec::new();
        let mut i: usize = 0;
        assert(rows_view(rows@) =~= name_rows(ts).take(0));
        while i < self.tables.len()
            invariant
                i <= self.tables.len(),
                ts == self@.tables,
                rows_view(rows@) == name_rows(ts).take(i as int),
            decreases self.tables.len() - i,
        {
            assert(ts[i as int] == self.tables@[i as int]@);
            let ghost before = rows_view(rows@);
            let mut row: Vec<Value> = Vec::new();
            row.push(Value::Text(self.tables[i].schema.name.clone()));
            assert(row_view(row@) =~= name_rows(ts)[i as int]);
            rows.push(row);
            assert(rows_view(rows@) =~= before.push(name_rows(ts)[i as int]));
            assert(name_rows(ts).take(i + 1) =~= before.push(name_rows(ts)[i as int]));
            i += 1;
        }
        assert(name_rows(ts).take(i as int) =~= name_rows(ts));
        let mut keys: Vec<CellKey> = Vec::new();
        keys.push(CellKey { at: 0, asc: true, nulls_first: false });
        assert(keys@ =~= name_key());
        let order = sort_by_cells(&rows, &keys);
        let ghost places = places_view(order@);
        assert(rows@.len() == ts.len()) by {
            assert(rows_view(rows@).len() == ts.len());
        }
        let mut out: Vec<TableSchema> = Vec::new();
        let mut k: usize = 0;
        let ghost want = schemas_by_name(ts);
        assert(schemas_view(out@) =~= want.take(0));
        while k < order.len()
            invariant
                k <= order.len(),
                ts == self@.tables,
                places == places_view(order@),
                places == by_name(ts),
                want == schemas_by_name(ts),
                forall|j: int| 0 <= j < order.len() ==> order@[j] < ts.len(),
                schemas_view(out@) == want.take(k as int),
            decreases order.len() - k,
        {
            let at: usize = order[k];
            assert(order@[k as int] < ts.len());
            assert(places[k as int] == at);
            assert(ts[at as int] == self.tables@[at as int]@);
            let ghost before = schemas_view(out@);
            let s = self.tables[at].schema.clone();
            let ghost sv = s@;
            out.push(s);
            assert(schemas_view(out@) =~= before.push(sv));
            assert(want.take(k + 1) =~= before.push(sv));
            k += 1;
        }
        assert(want.take(k as int) =~= want);
        out
    }

    /// The names of all indexes.
    pub fn index_names(&self) -> (r: Vec<String>)
        ensures
            strings_view(r@) == crate::store::index_names(self@.indexes),
    {
        let ghost want = crate::store::index_names(self@.indexes);
        let mut out: Vec<String> = Vec::new();
        assert(strings_view(out@) =~= want.take(0));
        let mut i: usize = 0;
        while i < self.indexes.len()
            invariant
                i <= self.indexes.len(),
                want == crate::store::index_names(self@.indexes),
                strings_view(out@) == want.take(i as int),
            decreases self.indexes.len() - i,
        {
            assert(self@.indexes[i as int] == self.indexes@[i as int]@);
            let ghost before = strings_view(out@);
            let n = self.indexes[i].name.clone();
            out.push(n);
            assert(strings_view(out@) =~= before.push(want[i as int]));
            assert(want.take(i + 1) =~= before.push(want[i as int]));
            i += 1;
        }
        assert(want.take(i as int) =~= want);
        out
    }
}

// ---- reflection -----------------------------------------------------------------------------------

fn reflect_columns(v: &Vec<Column>) -> (r: Vec<CatalogColumn>)
    ensures
        catalog_columns_view(r@) == Seq::new(
            v@.len(),
            |i: int| reflected_column(columns_view(v@)[i], i),
        ),
{
    let ghost want = Seq::new(v@.len(), |i: int| reflected_column(columns_view(v@)[i], i));
    let mut out: Vec<CatalogColumn> = Vec::new();
    assert(catalog_columns_view(out@) =~= want.take(0));
    let mut i: usize = 0;
    while i < v.len()
        invariant
            i <= v.len(),
            want == Seq::new(v@.len(), |i: int| reflected_column(columns_view(v@)[i], i)),
            catalog_columns_view(out@) == want.take(i as int),
        decreases v.len() - i,
    {
        assert(columns_view(v@)[i as int] == v@[i as int]@);
        let ghost before = catalog_columns_view(out@);
        let place: usize = i + 1;
        let c = CatalogColumn {
            name: v[i].name.clone(),
            pg_type: pg_type_name(v[i].ty),
            ty: v[i].ty,
            not_null: v[i].not_null,
            primary_key: v[i].primary_key,
            unique: v[i].unique && !v[i].primary_key,
            default_sql: clone_opt_string(&v[i].default_sql),
            position: #[verifier::truncate] (place as i32),
        };
        let ghost cv = c@;
        assert(cv == reflected_column(v@[i as int]@, i as int));
        out.push(c);
        assert(catalog_columns_view(out@) =~= before.push(cv));
        assert(want.take(i + 1) =~= before.push(cv));
        i += 1;
    }
    assert(want.take(i as int) =~= want);
    out
}

fn reflect_keys(v: &Vec<ForeignKey>) -> (r: Vec<CatalogForeignKey>)
    ensures
        catalog_keys_view(r@) == foreign_keys_view(v@),
{
    let ghost want = foreign_keys_view(v@);
    let mut out: Vec<CatalogForeignKey> = Vec::new();
    assert(catalog_keys_view(out@) =~= want.take(0));
    let mut i: usize = 0;
    while i < v.len()
        invariant
            i <= v.len(),
            want == foreign_keys_view(v@),
            catalog_keys_view(out@) == want.take(i as int),
        decreases v.len() - i,
    {
        assert(want[i as int] == v@[i as int]@);
        let ghost before = catalog_keys_view(out@);
        let k = CatalogForeignKey {
            name: v[i].name.clone(),
            columns: clone_strings(&v[i].columns),
            foreign_table: v[i].foreign_table.clone(),
            foreign_columns: clone_strings(&v[i].foreign_columns),
        };
        let ghost kv = k@;
        out.push(k);
        assert(catalog_keys_view(out@) =~= before.push(kv));
        assert(want.take(i + 1) =~= before.push(kv));
        i += 1;
    }
    assert(want.take(i as int) =~= want);
    out
}

/// A table as clients see it.
pub fn reflect_table(s: &TableSchema) -> (r: CatalogTable)
    ensures
        r@ == reflected(s@),
{
    let r = CatalogTable {
        name: s.name.clone(),
        columns: reflect_columns(&s.columns),
        foreign_keys: reflect_keys(&s.foreign_keys),
    };
    assert(r@.columns =~= reflected(s@).columns);
    r
}

// ---- policies -------------------------------------------------------------------------------------

/// A row policy as clients see it.
pub struct CatalogPolicy {
    pub table: String,
    pub name: String,
    /// `ALL`, `SELECT`, `INSERT`, `UPDATE` or `DELETE`.
    pub command: &'static str,
    /// The roles that it is for; every role where there are none.
    pub roles: Vec<String>,
    pub using: Option<String>,
    pub check: Option<String>,
}

pub struct CatalogPolicyV {
    pub table: Seq<char>,
    pub name: Seq<char>,
    pub command: Seq<char>,
    pub roles: Seq<Seq<char>>,
    pub using: Option<Seq<char>>,
    pub check: Option<Seq<char>>,
}

impl View for CatalogPolicy {
    type V = CatalogPolicyV;

    open spec fn view(&self) -> CatalogPolicyV {
        CatalogPolicyV {
            table: self.table@,
            name: self.name@,
            command: self.command@,
            roles: strings_view(self.roles@),
            using: opt_text(self.using),
            check: opt_text(self.check),
        }
    }
}

pub open spec fn catalog_policies_view(v: Seq<CatalogPolicy>) -> Seq<CatalogPolicyV> {
    Seq::new(v.len(), |i: int| v[i]@)
}

pub open spec fn reflected_policy(table: Seq<char>, p: PolicyV) -> CatalogPolicyV {
    CatalogPolicyV {
        table,
        name: p.name,
        command: command_text(p.command),
        roles: p.roles,
        using: p.using,
        check: p.check,
    }
}

/// The policies of a table from `j` on, behind `acc`.
pub open spec fn own_policies(s: SchemaV, j: int, acc: Seq<CatalogPolicyV>) -> Seq<CatalogPolicyV>
    decreases s.policies.len() - j,
{
    if j < 0 || j >= s.policies.len() {
        acc
    } else {
        own_policies(s, j + 1, acc.push(reflected_policy(s.name, s.policies[j])))
    }
}

/// The policies of the tables from `i` on, behind `acc`.
pub open spec fn gathered(ts: Seq<TableV>, i: int, acc: Seq<CatalogPolicyV>) -> Seq<CatalogPolicyV>
    decreases ts.len() - i,
{
    if i < 0 || i >= ts.len() {
        acc
    } else {
        gathered(ts, i + 1, own_policies(ts[i].schema, 0, acc))
    }
}

pub open spec fn policy_rows(ps: Seq<CatalogPolicyV>) -> Seq<RowV> {
    Seq::new(ps.len(), |i: int| seq![ValueV::Text(ps[i].table), ValueV::Text(ps[i].name)])
}

pub open spec fn policy_keys() -> Seq<CellKey> {
    seq![
        CellKey { at: 0, asc: true, nulls_first: false },
        CellKey { at: 1, asc: true, nulls_first: false },
    ]
}

/// Where policies stand in the order of their tables and names.
pub open spec fn policy_order(ps: Seq<CatalogPolicyV>) -> Seq<int> {
    match sorted_places(by_cells(policy_rows(ps), policy_keys()), ps.len() as int) {
        Ok(o) => o,
        Err(_) => Seq::empty(),
    }
}

/// All policies, in the order of their tables and then of their names.
pub open spec fn policies_by_name(ts: Seq<TableV>) -> Seq<CatalogPolicyV> {
    let ps = gathered(ts, 0, Seq::empty());
    Seq::new(policy_order(ps).len(), |k: int| ps[policy_order(ps)[k]])
}

/// Every policy is listed, and none twice.
pub proof fn law_policies_are_complete(ts: Seq<TableV>)
    ensures
        permutes(
            policy_order(gathered(ts, 0, Seq::empty())),
            gathered(ts, 0, Seq::empty()).len() as int,
        ),
{
    let ps = gathered(ts, 0, Seq::empty());
    lemma_sorted_by_cells(policy_rows(ps), policy_keys(), ps.len() as int);
    law_sort_permutes(by_cells(policy_rows(ps), policy_keys()), ps.len() as int);
}

fn gather_policies(s: &TableSchema, out: &mut Vec<CatalogPolicy>)
    ensures
        catalog_policies_view(final(out)@) == own_policies(
            s@,
            0,
            catalog_policies_view(old(out)@),
        ),
{
    let ghost o0 = catalog_policies_view(out@);
    let mut j: usize = 0;
    while j < s.policies.len()
        invariant
            j <= s.policies.len(),
            o0 == catalog_policies_view(old(out)@),
            own_policies(s@, j as int, catalog_policies_view(out@)) == own_policies(s@, 0, o0),
        decreases s.policies.len() - j,
    {
        let p = &s.policies[j];
        assert(s@.policies[j as int] == p@);
        let ghost before = catalog_policies_view(out@);
        let c = CatalogPolicy {
            table: s.name.clone(),
            name: p.name.clone(),
            command: p.command.as_str(),
            roles: clone_strings(&p.roles),
            using: clone_opt_string(&p.using),
            check: clone_opt_string(&p.check),
        };
        let ghost cv = c@;
        out.push(c);
        assert(catalog_policies_view(out@) =~= before.push(cv));
        j += 1;
    }
}

impl Clone for CatalogPolicy {
    fn clone(&self) -> (r: CatalogPolicy)
        ensures
            r@ == self@,
    {
        CatalogPolicy {
            table: self.table.clone(),
            name: self.name.clone(),
            command: self.command,
            roles: clone_strings(&self.roles),
            using: clone_opt_string(&self.using),
            check: clone_opt_string(&self.check),
        }
    }
}

fn sort_policies(ps: Vec<CatalogPolicy>) -> (r: Vec<CatalogPolicy>)
    ensures
        ({
            let pv = catalog_policies_view(ps@);
            catalog_policies_view(r@) == Seq::new(
                policy_order(pv).len(),
                |k: int| pv[policy_order(pv)[k]],
            )
        }),
{
    let ghost pv = catalog_policies_view(ps@);
    let mut rows: Vec<Vec<Value>> = Vec::new();
    let mut i: usize = 0;
    assert(rows_view(rows@) =~= policy_rows(pv).take(0));
    while i < ps.len()
        invariant
            i <= ps.len(),
            pv == catalog_policies_view(ps@),
            rows_view(rows@) == policy_rows(pv).take(i as int),
        decreases ps.len() - i,
    {
        assert(pv[i as int] == ps@[i as int]@);
        let ghost before = rows_view(rows@);
        let mut row: Vec<Value> = Vec::new();
        row.push(Value::Text(ps[i].table.clone()));
        row.push(Value::Text(ps[i].name.clone()));
        assert(row_view(row@) =~= policy_rows(pv)[i as int]);
        rows.push(row);
        assert(rows_view(rows@) =~= before.push(policy_rows(pv)[i as int]));
        assert(policy_rows(pv).take(i + 1) =~= before.push(policy_rows(pv)[i as int]));
        i += 1;
    }
    assert(policy_rows(pv).take(i as int) =~= policy_rows(pv));
    let mut keys: Vec<CellKey> = Vec::new();
    keys.push(CellKey { at: 0, asc: true, nulls_first: false });
    keys.push(CellKey { at: 1, asc: true, nulls_first: false });
    assert(keys@ =~= policy_keys());
    let order = sort_by_cells(&rows, &keys);
    let ghost places = places_view(order@);
    assert(rows@.len() == pv.len()) by {
        assert(rows_view(rows@).len() == pv.len());
    }
    let ghost want = Seq::new(policy_order(pv).len(), |k: int| pv[policy_order(pv)[k]]);
    let mut out: Vec<CatalogPolicy> = Vec::new();
    let mut k: usize = 0;
    assert(catalog_policies_view(out@) =~= want.take(0));
    while k < order.len()
        invariant
            k <= order.len(),
            pv == catalog_policies_view(ps@),
            places == places_view(order@),
            places == policy_order(pv),
            want == Seq::new(policy_order(pv).len(), |k: int| pv[policy_order(pv)[k]]),
            forall|j: int| 0 <= j < order.len() ==> order@[j] < pv.len(),
            catalog_policies_view(out@) == want.take(k as int),
        decreases order.len() - k,
    {
        let at: usize = order[k];
        assert(order@[k as int] < pv.len());
        assert(places[k as int] == at);
        assert(pv[at as int] == ps@[at as int]@);
        let ghost before = catalog_policies_view(out@);
        let p = ps[at].clone();
        let ghost cv = p@;
        out.push(p);
        assert(catalog_policies_view(out@) =~= before.push(cv));
        assert(want.take(k + 1) =~= before.push(cv));
        k += 1;
    }
    assert(want.take(k as int) =~= want);
    out
}

impl Connection {
    /// The row policies as clients see them, in the order of their tables and names.
    pub fn policies(&self, store: &Store) -> (r: Vec<CatalogPolicy>)
        ensures
            catalog_policies_view(r@) == policies_by_name(store@.tables),
    {
        let ghost ts = store@.tables;
        let mut all: Vec<CatalogPolicy> = Vec::new();
        assert(catalog_policies_view(all@) =~= Seq::<CatalogPolicyV>::empty());
        let mut i: usize = 0;
        while i < store.tables.len()
            invariant
                i <= store.tables.len(),
                ts == store@.tables,
                gathered(ts, i as int, catalog_policies_view(all@)) == gathered(
                    ts,
                    0,
                    Seq::empty(),
                ),
            decreases store.tables.len() - i,
        {
            assert(ts[i as int] == store.tables@[i as int]@);
            gather_policies(&store.tables[i].schema, &mut all);
            i += 1;
        }
        sort_policies(all)
    }

    /// Whether a table enforces its row policies.
    pub fn rls_enabled(&self, store: &Store, table: &str) -> (r: bool)
        ensures
            r == (match table_named(store@, table@) {
                Some(t) => t.schema.rls_enabled,
                None => false,
            }),
    {
        match store.table(table) {
            Some(t) => t.schema.rls_enabled,
            None => false,
        }
    }

    /// The catalog as clients see it, tables in the order of their names.
    pub fn catalog(&self, store: &Store) -> (r: Vec<CatalogTable>)
        ensures
            catalog_tables_view(r@) == Seq::new(
                schemas_by_name(store@.tables).len(),
                |i: int| reflected(schemas_by_name(store@.tables)[i]),
            ),
    {
        reflect_all(store)
    }
}

fn reflect_all(store: &Store) -> (r: Vec<CatalogTable>)
    ensures
        catalog_tables_view(r@) == Seq::new(
            schemas_by_name(store@.tables).len(),
            |i: int| reflected(schemas_by_name(store@.tables)[i]),
        ),
{
    let schemas = store.table_schemas();
    let ghost sv = schemas_by_name(store@.tables);
    let ghost want = Seq::new(sv.len(), |i: int| reflected(sv[i]));
    let mut out: Vec<CatalogTable> = Vec::new();
    assert(catalog_tables_view(out@) =~= want.take(0));
    let mut i: usize = 0;
    while i < schemas.len()
        invariant
            i <= schemas.len(),
            sv == schemas_view(schemas@),
            want == Seq::new(sv.len(), |i: int| reflected(sv[i])),
            catalog_tables_view(out@) == want.take(i as int),
        decreases schemas.len() - i,
    {
        assert(sv[i as int] == schemas@[i as int]@);
        let ghost before = catalog_tables_view(out@);
        let t = reflect_table(&schemas[i]);
        let ghost tv = t@;
        out.push(t);
        assert(catalog_tables_view(out@) =~= before.push(tv));
        assert(want.take(i + 1) =~= before.push(tv));
        i += 1;
    }
    assert(want.take(i as int) =~= want);
    out
}

} // verus!
