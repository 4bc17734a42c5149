//! Table catalog: the schemas that names and types are bound against.
use vstd::prelude::*;
use crate::text::{names_match, same_name};
use crate::value::ColumnType;

verus! {

/// One column of a table.
#[derive(Debug)]
pub struct Column {
    pub name: String,
    pub ty: ColumnType,
    pub primary_key: bool,
    pub not_null: bool,
    /// A single-column `UNIQUE` constraint.
    pub unique: bool,
    /// An omitted value is filled from a per-table counter.
    pub autoincrement: bool,
    /// A `DEFAULT` clause as SQL text, parsed when an insert omits the column.
    pub default_sql: Option<String>,
}

/// What a [`Column`] says.
pub struct ColumnV {
    pub name: Seq<char>,
    pub ty: ColumnType,
    pub primary_key: bool,
    pub not_null: bool,
    pub unique: bool,
    pub autoincrement: bool,
    pub default_sql: Option<Seq<char>>,
}

/// A foreign key: local columns referencing as many columns of another table.
#[derive(Debug)]
pub struct ForeignKey {
    pub name: String,
    pub columns: Vec<String>,
    pub foreign_table: String,
    pub foreign_columns: Vec<String>,
}

/// What a [`ForeignKey`] says.
pub struct ForeignKeyV {
    pub name: Seq<char>,
    pub columns: Seq<Seq<char>>,
    pub foreign_table: Seq<char>,
    pub foreign_columns: Seq<Seq<char>>,
}

/// The statements that a row policy speaks of.
#[derive(Clone, Copy, Debug, PartialEq, Eq, Structural)]
pub enum PolicyCommand {
    All,
    Select,
    Insert,
    Update,
    Delete,
}

pub open spec fn command_text(c: PolicyCommand) -> Seq<char> {
    match c {
        PolicyCommand::All => "ALL"@,
        PolicyCommand::Select => "SELECT"@,
        PolicyCommand::Insert => "INSERT"@,
        PolicyCommand::Update => "UPDATE"@,
        PolicyCommand::Delete => "DELETE"@,
    }
}

impl PolicyCommand {
    pub fn as_str(&self) -> (r: &'static str)
        ensures
            r@ == command_text(*self),
    {
        match self {
            PolicyCommand::All => "ALL",
            PolicyCommand::Select => "SELECT",
            PolicyCommand::Insert => "INSERT",
            PolicyCommand::Update => "UPDATE",
            PolicyCommand::Delete => "DELETE",
        }
    }
}

/// A row policy: which rows of a table the named roles may read or write.
#[derive(Debug)]
pub struct Policy {
    pub name: String,
    pub command: PolicyCommand,
    /// The roles that it is for; every role where there are none.
    pub roles: Vec<String>,
    /// The `USING` predicate as SQL text.
    pub using: Option<String>,
    /// The `WITH CHECK` predicate as SQL text.
    pub check: Option<String>,
}

/// What a [`Policy`] says.
pub struct PolicyV {
    pub name: Seq<char>,
    pub command: PolicyCommand,
    pub roles: Seq<Seq<char>>,
    pub using: Option<Seq<char>>,
    pub check: Option<Seq<char>>,
}

/// A table's columns and constraints.
#[derive(Debug)]
pub struct TableSchema {
    pub name: String,
    pub columns: Vec<Column>,
    pub foreign_keys: Vec<ForeignKey>,
    /// `CHECK` predicates as SQL text.
    pub checks: Vec<String>,
    /// Table-level `UNIQUE (cols)` constraints.
    pub uniques: Vec<Vec<String>>,
    /// Whether the row policies are enforced.
    pub rls_enabled: bool,
    pub policies: Vec<Policy>,
}

/// What a [`TableSchema`] says.
pub struct SchemaV {
    pub name: Seq<char>,
    pub columns: Seq<ColumnV>,
    pub foreign_keys: Seq<ForeignKeyV>,
    pub checks: Seq<Seq<char>>,
    pub uniques: Seq<Seq<Seq<char>>>,
    pub rls_enabled: bool,
    pub policies: Seq<PolicyV>,
}

pub open spec fn opt_text(o: Option<String>) -> Option<Seq<char>> {
    match o {
        Some(s) => Some(s@),
        None => None,
    }
}

pub open spec fn strings_view(v: Seq<String>) -> Seq<Seq<char>> {
    Seq::new(v.len(), |i: int| v[i]@)
}

pub open spec fn string_lists_view(v: Seq<Vec<String>>) -> Seq<Seq<Seq<char>>> {
    Seq::new(v.len(), |i: int| strings_view(v[i]@))
}

impl View for Column {
    type V = ColumnV;

    open spec fn view(&self) -> ColumnV {
        ColumnV {
            name: self.name@,
            ty: self.ty,
            primary_key: self.primary_key,
            not_null: self.not_null,
            unique: self.unique,
            autoincrement: self.autoincrement,
            default_sql: opt_text(self.default_sql),
        }
    }
}

impl View for ForeignKey {
    type V = ForeignKeyV;

    open spec fn view(&self) -> ForeignKeyV {
        ForeignKeyV {
            name: self.name@,
            columns: strings_view(self.columns@),
            foreign_table: self.foreign_table@,
            foreign_columns: strings_view(self.foreign_columns@),
        }
    }
}

pub open spec fn columns_view(v: Seq<Column>) -> Seq<ColumnV> {
    Seq::new(v.len(), |i: int| v[i]@)
}

pub open spec fn foreign_keys_view(v: Seq<ForeignKey>) -> Seq<ForeignKeyV> {
    Seq::new(v.len(), |i: int| v[i]@)
}

impl View for Policy {
    type V = PolicyV;

    open spec fn view(&self) -> PolicyV {
        PolicyV {
            name: self.name@,
            command: self.command,
            roles: strings_view(self.roles@),
            using: opt_text(self.using),
            check: opt_text(self.check),
        }
    }
}

pub open spec fn policies_view(v: Seq<Policy>) -> Seq<PolicyV> {
    Seq::new(v.len(), |i: int| v[i]@)
}

impl View for TableSchema {
    type V = SchemaV;

    open spec fn view(&self) -> SchemaV {
        SchemaV {
            name: self.name@,
            columns: columns_view(self.columns@),
            foreign_keys: foreign_keys_view(self.foreign_keys@),
            checks: strings_view(self.checks@),
            uniques: string_lists_view(self.uniques@),
            rls_enabled: self.rls_enabled,
            policies: policies_view(self.policies@),
        }
    }
}

pub fn clone_opt_string(o: &Option<String>) -> (r: Option<String>)
    ensures
        opt_text(r) == opt_text(*o),
{
    match o {
        Some(s) => Some(s.clone()),
        None => None,
    }
}

pub fn clone_strings(v: &Vec<String>) -> (r: Vec<String>)
    ensures
        strings_view(r@) == strings_view(v@),
{
    let mut out: Vec<String> = Vec::new();
    let mut i: usize = 0;
    while i < v.len()
        invariant
            i <= v.len(),
            out.len() == i,
            forall|k: int| 0 <= k < i ==> out@[k]@ == v@[k]@,
        decreases v.len() - i,
    {
        out.push(v[i].clone());
        i += 1;
    }
    assert(strings_view(out@) =~= strings_view(v@));
    out
}

impl Clone for Column {
    fn clone(&self) -> (r: Column)
        ensures
            r@ == self@,
    {
        Column {
            name: self.name.clone(),
            ty: self.ty,
            primary_key: self.primary_key,
            not_null: self.not_null,
            unique: self.unique,
            autoincrement: self.autoincrement,
            default_sql: clone_opt_string(&self.default_sql),
        }
    }
}

impl Clone for ForeignKey {
    fn clone(&self) -> (r: ForeignKey)
        ensures
            r@ == self@,
    {
        ForeignKey {
            name: self.name.clone(),
            columns: clone_strings(&self.columns),
            foreign_table: self.foreign_table.clone(),
            foreign_columns: clone_strings(&self.foreign_columns),
        }
    }
}

pub fn clone_columns(v: &Vec<Column>) -> (r: Vec<Column>)
    ensures
        columns_view(r@) == columns_view(v@),
{
    let mut out: Vec<Column> = Vec::new();
    let mut i: usize = 0;
    while i < v.len()
        invariant
            i <= v.len(),
            out.len() == i,
            forall|k: int| 0 <= k < i ==> out@[k]@ == v@[k]@,
        decreases v.len() - i,
    {
        out.push(v[i].clone());
        i += 1;
    }
    assert(columns_view(out@) =~= columns_view(v@));
    out
}

pub fn clone_foreign_keys(v: &Vec<ForeignKey>) -> (r: Vec<ForeignKey>)
    ensures
        foreign_keys_view(r@) == foreign_keys_view(v@),
{
    let mut out: Vec<ForeignKey> = Vec::new();
    let mut i: usize = 0;
    while i < v.len()
        invariant
            i <= v.len(),
            out.len() == i,
            forall|k: int| 0 <= k < i ==> out@[k]@ == v@[k]@,
        decreases v.len() - i,
    {
        out.push(v[i].clone());
        i += 1;
    }
    assert(foreign_keys_view(out@) =~= foreign_keys_view(v@));
    out
}

pub fn clone_string_lists(v: &Vec<Vec<String>>) -> (r: Vec<Vec<String>>)
    ensures
        string_lists_view(r@) == string_lists_view(v@),
{
    let mut out: Vec<Vec<String>> = Vec::new();
    let mut i: usize = 0;
    while i < v.len()
        invariant
            i <= v.len(),
            out.len() == i,
            forall|k: int| 0 <= k < i ==> strings_view(out@[k]@) == strings_view(v@[k]@),
        decreases v.len() - i,
    {
        out.push(clone_strings(&v[i]));
        i += 1;
    }
    assert(string_lists_view(out@) =~= string_lists_view(v@));
    out
}

impl Clone for Policy {
    fn clone(&self) -> (r: Policy)
        ensures
            r@ == self@,
    {
        Policy {
            name: self.name.clone(),
            command: self.command,
            roles: clone_strings(&self.roles),
            using: clone_opt_string(&self.using),
            check: clone_opt_string(&self.check),
        }
    }
}

pub fn clone_policies(v: &Vec<Policy>) -> (r: Vec<Policy>)
    ensures
        policies_view(r@) == policies_view(v@),
{
    let mut out: Vec<Policy> = Vec::new();
    let mut i: usize = 0;
    while i < v.len()
        invariant
            i <= v.len(),
            out.len() == i,
            forall|k: int| 0 <= k < i ==> out@[k]@ == v@[k]@,
        decreases v.len() - i,
    {
        out.push(v[i].clone());
        i += 1;
    }
    assert(policies_view(out@) =~= policies_view(v@));
    out
}

impl Clone for TableSchema {
    fn clone(&self) -> (r: TableSchema)
        ensures
            r@ == self@,
    {
        TableSchema {
            name: self.name.clone(),
            columns: clone_columns(&self.columns),
            foreign_keys: clone_foreign_keys(&self.foreign_keys),
            checks: clone_strings(&self.checks),
            uniques: clone_string_lists(&self.uniques),
            rls_enabled: self.rls_enabled,
            policies: clone_policies(&self.policies),
        }
    }
}

/// The first column from `i` on with a name, case ignored.
pub open spec fn column_at(cols: Seq<ColumnV>, name: Seq<char>, i: int) -> Option<usize>
    decreases cols.len() - i,
{
    if i < 0 || i >= cols.len() {
        None
    } else if same_name(cols[i].name, name) {
        Some(i as usize)
    } else {
        column_at(cols, name, i + 1)
    }
}

/// Where a column stands in a schema.
pub open spec fn column_pos(s: SchemaV, name: Seq<char>) -> Option<usize> {
    column_at(s.columns, name, 0)
}

/// The primary-key columns, in declaration order.
pub open spec fn key_columns(cols: Seq<ColumnV>) -> Seq<usize>
    decreases cols.len(),
{
    if cols.len() == 0 {
        Seq::empty()
    } else {
        let rest = key_columns(cols.drop_last());
        if cols.last().primary_key {
            rest.push((cols.len() - 1) as usize)
        } else {
            rest
        }
    }
}

/// Singleton sets for the columns that are unique by themselves.
pub open spec fn unique_singles(cols: Seq<ColumnV>) -> Seq<Seq<usize>>
    decreases cols.len(),
{
    if cols.len() == 0 {
        Seq::empty()
    } else {
        let rest = unique_singles(cols.drop_last());
        if cols.last().unique {
            rest.push(seq![(cols.len() - 1) as usize])
        } else {
            rest
        }
    }
}

/// The places of the names that are columns.
pub open spec fn places(s: SchemaV, names: Seq<Seq<char>>) -> Seq<usize>
    decreases names.len(),
{
    if names.len() == 0 {
        Seq::empty()
    } else {
        let rest = places(s, names.drop_last());
        match column_pos(s, names.last()) {
            Some(i) => rest.push(i),
            None => rest,
        }
    }
}

/// The table-level unique sets of which every column exists.
pub open spec fn unique_lists(s: SchemaV, lists: Seq<Seq<Seq<char>>>) -> Seq<Seq<usize>>
    decreases lists.len(),
{
    if lists.len() == 0 {
        Seq::empty()
    } else {
        let rest = unique_lists(s, lists.drop_last());
        let p = places(s, lists.last());
        if p.len() == lists.last().len() {
            rest.push(p)
        } else {
            rest
        }
    }
}

/// Every unique key set: the primary key if there is one, then the columns
/// unique by themselves, then the table-level sets.
pub open spec fn unique_keys(s: SchemaV) -> Seq<Seq<usize>> {
    let pk = key_columns(s.columns);
    (if pk.len() > 0 {
        seq![pk]
    } else {
        Seq::empty()
    }) + unique_singles(s.columns) + unique_lists(s, s.uniques)
}

pub open spec fn index_lists_view(v: Seq<Vec<usize>>) -> Seq<Seq<usize>> {
    Seq::new(v.len(), |i: int| v[i]@)
}

/// A column that is found stands inside the schema and bears the name.
pub proof fn lemma_column_at(cols: Seq<ColumnV>, name: Seq<char>, i: int)
    requires
        0 <= i,
        cols.len() <= usize::MAX,
    ensures
        match column_at(cols, name, i) {
            Some(k) => i <= k < cols.len() && same_name(cols[k as int].name, name) && forall|j: int|
                i <= j < k ==> !same_name(cols[j].name, name),
            None => forall|j: int| i <= j < cols.len() ==> !same_name(cols[j].name, name),
        },
    decreases cols.len() - i,
{
    if i < cols.len() && !same_name(cols[i].name, name) {
        lemma_column_at(cols, name, i + 1);
    }
}

impl TableSchema {
    /// Where a column stands, found by name whatever its case.
    pub fn column_index(&self, name: &str) -> (r: Option<usize>)
        ensures
            r == column_pos(self@, name@),
            r is Some ==> r->0 < self.columns.len(),
    {
        let mut i: usize = 0;
        while i < self.columns.len()
            invariant
                i <= self.columns.len(),
                column_at(self@.columns, name@, i as int) == column_at(self@.columns, name@, 0),
            decreases self.columns.len() - i,
        {
            assert(self@.columns[i as int] == self.columns@[i as int]@);
            if names_match(&self.columns[i].name, name) {
                return Some(i);
            }
            i += 1;
        }
        None
    }

    /// The first primary-key column.
    pub fn primary_key_index(&self) -> (r: Option<usize>)
        ensures
            match r {
                Some(i) => i < self.columns.len() && self.columns@[i as int].primary_key
                    && forall|j: int| 0 <= j < i ==> !self.columns@[j].primary_key,
                None => forall|j: int|
                    0 <= j < self.columns.len() ==> !self.columns@[j].primary_key,
            },
    {
        let mut i: usize = 0;
        while i < self.columns.len()
            invariant
                i <= self.columns.len(),
                forall|j: int| 0 <= j < i ==> !self.columns@[j].primary_key,
            decreases self.columns.len() - i,
        {
            if self.columns[i].primary_key {
                return Some(i);
            }
            i += 1;
        }
        None
    }

    /// All primary-key columns, in declaration order.
    pub fn primary_key_indices(&self) -> (r: Vec<usize>)
        ensures
            r@ == key_columns(self@.columns),
    {
        let ghost cols = self@.columns;
        let mut out: Vec<usize> = Vec::new();
        let mut i: usize = 0;
        assert(cols.take(0) =~= Seq::<ColumnV>::empty());
        while i < self.columns.len()
            invariant
                i <= self.columns.len(),
                cols == self@.columns,
                out@ == key_columns(cols.take(i as int)),
            decreases self.columns.len() - i,
        {
            assert(cols.take(i + 1).drop_last() =~= cols.take(i as int));
            assert(cols.take(i + 1).last() == self.columns@[i as int]@);
            if self.columns[i].primary_key {
                out.push(i);
            }
            i += 1;
        }
        assert(cols.take(i as int) =~= cols);
        out
    }

    fn places_of(&self, names: &Vec<String>) -> (r: Vec<usize>)
        ensures
            r@ == places(self@, strings_view(names@)),
    {
        let ghost nv = strings_view(names@);
        let mut out: Vec<usize> = Vec::new();
        let mut i: usize = 0;
        assert(nv.take(0) =~= Seq::<Seq<char>>::empty());
        while i < names.len()
            invariant
                i <= names.len(),
                nv == strings_view(names@),
                out@ == places(self@, nv.take(i as int)),
            decreases names.len() - i,
        {
            assert(nv.take(i + 1).drop_last() =~= nv.take(i as int));
            assert(nv.take(i + 1).last() == names@[i as int]@);
            match self.column_index(&names[i]) {
                Some(k) => {
                    out.push(k);
                },
                None => {},
            }
            i += 1;
        }
        assert(nv.take(i as int) =~= nv);
        out
    }

    /// Every unique key set to enforce, as lists of column places.
    pub fn unique_sets(&self) -> (r: Vec<Vec<usize>>)
        ensures
            index_lists_view(r@) == unique_keys(self@),
    {
        let ghost cols = self@.columns;
        let mut sets: Vec<Vec<usize>> = Vec::new();
        let pk = self.primary_key_indices();
        let ghost head = if pk@.len() > 0 {
            seq![pk@]
        } else {
            Seq::<Seq<usize>>::empty()
        };
        if pk.len() > 0 {
            sets.push(pk);
        }
        assert(index_lists_view(sets@) =~= head);
        let mut i: usize = 0;
        assert(cols.take(0) =~= Seq::<ColumnV>::empty());
        assert(head =~= head + unique_singles(cols.take(0)));
        while i < self.columns.len()
            invariant
                i <= self.columns.len(),
                cols == self@.columns,
                index_lists_view(sets@) == head + unique_singles(cols.take(i as int)),
            decreases self.columns.len() - i,
        {
            assert(cols.take(i + 1).drop_last() =~= cols.take(i as int));
            assert(cols.take(i + 1).last() == self.columns@[i as int]@);
            if self.columns[i].unique {
                let ghost before = index_lists_view(sets@);
                let mut one: Vec<usize> = Vec::new();
                one.push(i);
                assert(one@ =~= seq![i]);
                let ghost ov = one@;
                sets.push(one);
                assert(index_lists_view(sets@) =~= before.push(ov));
                assert(index_lists_view(sets@) =~= head + unique_singles(cols.take(i + 1)));
            }
            i += 1;
        }
        assert(cols.take(i as int) =~= cols);
        let ghost base = head + unique_singles(cols);
        let ghost lists = string_lists_view(self.uniques@);
        let mut u: usize = 0;
        assert(lists.take(0) =~= Seq::<Seq<Seq<char>>>::empty());
        assert(base =~= base + unique_lists(self@, lists.take(0)));
        while u < self.uniques.len()
            invariant
                u <= self.uniques.len(),
                lists == string_lists_view(self.uniques@),
                index_lists_view(sets@) == base + unique_lists(self@, lists.take(u as int)),
            decreases self.uniques.len() - u,
        {
            assert(lists.take(u + 1).drop_last() =~= lists.take(u as int));
            assert(lists.take(u + 1).last() == strings_view(self.uniques@[u as int]@));
            let idxs = self.places_of(&self.uniques[u]);
            if idxs.len() == self.uniques[u].len() {
                let ghost before = index_lists_view(sets@);
                let ghost iv = idxs@;
                sets.push(idxs);
                assert(index_lists_view(sets@) =~= before.push(iv));
                assert(index_lists_view(sets@) =~= base + unique_lists(self@, lists.take(u + 1)));
            }
            u += 1;
        }
        assert(lists.take(u as int) =~= lists);
        sets
    }
}

} // verus!
