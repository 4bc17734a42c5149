//! The multi-version table store.
//!
//! Every row version is stamped with the log sequence number of the transaction
//! that created it and, once deleted or replaced, of the one that did so. Readers
//! see the store as of a snapshot number. A version that an unfinished transaction
//! created or deleted carries the stamp [`PENDING`] and the owner of that
//! transaction, so that several can be under way at once without seeing each
//! other's changes.
use vstd::prelude::*;
use crate::catalog::{SchemaV, TableSchema};
use crate::sql::{SelectStmt, SelectV};
use crate::text::{names_match, same_name};
use crate::value::{clone_row, row_view, RowV, Value};
use crate::vector::{IndexDef, IndexDefV};

verus! {

/// The stamp of a change that is not committed.
pub const PENDING: u64 = 0xFFFF_FFFF_FFFF_FFFF;

/// One version of a row.
#[derive(Debug)]
pub struct RowVersion {
    /// Unique in its table, never reused.
    pub vid: u64,
    pub values: Vec<Value>,
    /// Where it was created, or [`PENDING`].
    pub create_lsn: u64,
    /// Zero while it lives, else where it was deleted, or [`PENDING`].
    pub delete_lsn: u64,
    /// The transaction behind a pending stamp; zero when all is committed.
    pub owner: u64,
}

pub struct VersionV {
    pub vid: u64,
    pub values: RowV,
    pub create_lsn: u64,
    pub delete_lsn: u64,
    pub owner: u64,
}

impl View for RowVersion {
    type V = VersionV;

    open spec fn view(&self) -> VersionV {
        VersionV {
            vid: self.vid,
            values: row_view(self.values@),
            create_lsn: self.create_lsn,
            delete_lsn: self.delete_lsn,
            owner: self.owner,
        }
    }
}

pub open spec fn versions_view(v: Seq<RowVersion>) -> Seq<VersionV> {
    Seq::new(v.len(), |i: int| v[i]@)
}

/// Whether a snapshot reader sees a version: created by then, not deleted by then.
pub open spec fn reader_sees(v: VersionV, s: u64) -> bool {
    v.create_lsn <= s && (v.delete_lsn == 0 || v.delete_lsn > s)
}

/// Whether the transaction `me` sees a version at snapshot `s`: as a reader does,
/// but with its own pending changes applied.
pub open spec fn writer_sees(v: VersionV, s: u64, me: u64) -> bool {
    let created = if v.create_lsn == PENDING {
        v.owner == me
    } else {
        v.create_lsn <= s
    };
    let deleted = if v.delete_lsn == PENDING {
        v.owner == me
    } else {
        v.delete_lsn != 0 && v.delete_lsn <= s
    };
    created && !deleted
}

/// Visibility for a reader, or for a transaction where one is given.
pub open spec fn sees(v: VersionV, s: u64, writer: Option<u64>) -> bool {
    match writer {
        Some(me) => writer_sees(v, s, me),
        None => reader_sees(v, s),
    }
}

impl RowVersion {
    pub fn visible_to_reader(&self, s: u64) -> (r: bool)
        ensures
            r == reader_sees(self@, s),
    {
        self.create_lsn <= s && (self.delete_lsn == 0 || self.delete_lsn > s)
    }

    pub fn visible_to_writer(&self, s: u64, me: u64) -> (r: bool)
        ensures
            r == writer_sees(self@, s, me),
    {
        let created = if self.create_lsn == PENDING {
            self.owner == me
        } else {
            self.create_lsn <= s
        };
        let deleted = if self.delete_lsn == PENDING {
            self.owner == me
        } else {
            self.delete_lsn != 0 && self.delete_lsn <= s
        };
        created && !deleted
    }
}

/// Visibility for a reader, or for a transaction where one is given.
pub fn row_visible(v: &RowVersion, snapshot: u64, writer: Option<u64>) -> (r: bool)
    ensures
        r == sees(v@, snapshot, writer),
{
    match writer {
        Some(me) => v.visible_to_writer(snapshot, me),
        None => v.visible_to_reader(snapshot),
    }
}

/// Deleted by a committed transaction.
pub open spec fn dead_at_head(v: VersionV) -> bool {
    v.delete_lsn != 0 && v.delete_lsn != PENDING
}

pub fn is_dead_at_head(v: &RowVersion) -> (r: bool)
    ensures
        r == dead_at_head(v@),
{
    v.delete_lsn != 0 && v.delete_lsn != PENDING
}

// ---- tables -----------------------------------------------------------------------------------

#[derive(Debug)]
pub struct Table {
    pub schema: TableSchema,
    pub rows: Vec<RowVersion>,
    pub next_vid: u64,
    /// What the next omitted auto-increment value will be.
    pub next_autoinc: i64,
}

pub struct TableV {
    pub schema: SchemaV,
    pub rows: Seq<VersionV>,
    pub next_vid: u64,
    pub next_autoinc: i64,
}

impl View for Table {
    type V = TableV;

    open spec fn view(&self) -> TableV {
        TableV {
            schema: self.schema@,
            rows: versions_view(self.rows@),
            next_vid: self.next_vid,
            next_autoinc: self.next_autoinc,
        }
    }
}

pub open spec fn new_table(schema: SchemaV) -> TableV {
    TableV { schema, rows: Seq::empty(), next_vid: 1, next_autoinc: 1 }
}

/// The first version with an id, from `i` on.
pub open spec fn version_pos(rows: Seq<VersionV>, vid: u64, i: int) -> Option<int>
    decreases rows.len() - i,
{
    if i < 0 || i >= rows.len() {
        None
    } else if rows[i].vid == vid {
        Some(i)
    } else {
        version_pos(rows, vid, i + 1)
    }
}

impl Table {
    pub fn new(schema: TableSchema) -> (t: Table)
        ensures
            t@ == new_table(schema@),
    {
        let t = Table { schema, rows: Vec::new(), next_vid: 1, next_autoinc: 1 };
        assert(t@.rows =~= Seq::<VersionV>::empty());
        t
    }

    /// Where the version with an id stands.
    pub fn find_version(&self, vid: u64) -> (r: Option<usize>)
        ensures
            match r {
                Some(i) => version_pos(self@.rows, vid, 0) == Some(i as int) && i < self.rows.len(),
                None => version_pos(self@.rows, vid, 0) is None,
            },
    {
        let ghost rv = self@.rows;
        let mut i: usize = 0;
        while i < self.rows.len()
            invariant
                i <= self.rows.len(),
                rv == versions_view(self.rows@),
                version_pos(rv, vid, i as int) == version_pos(rv, vid, 0),
            decreases self.rows.len() - i,
        {
            assert(rv[i as int] == self.rows@[i as int]@);
            if self.rows[i].vid == vid {
                return Some(i);
            }
            i += 1;
        }
        None
    }

    /// The version with an id.
    pub fn version(&self, vid: u64) -> (r: Option<&RowVersion>)
        ensures
            match r {
                Some(v) => match version_pos(self@.rows, vid, 0) {
                    Some(i) => 0 <= i < self@.rows.len() && v@ == self@.rows[i],
                    None => false,
                },
                None => version_pos(self@.rows, vid, 0) is None,
            },
    {
        match self.find_version(vid) {
            Some(i) => {
                assert(self@.rows[i as int] == self.rows@[i as int]@);
                Some(&self.rows[i])
            },
            None => None,
        }
    }
}

impl Table {
    /// Take the next version id.
    pub fn alloc_vid(&mut self) -> (r: u64)
        requires
            old(self).next_vid < u64::MAX,
        ensures
            r == old(self)@.next_vid,
            final(self)@ == (TableV { next_vid: (r + 1) as u64, ..old(self)@ }),
    {
        let v: u64 = self.next_vid;
        self.next_vid = v + 1;
        v
    }

    /// The version with an id, to be changed in place.
    pub fn version_mut(&mut self, vid: u64) -> (r: Option<&mut RowVersion>)
        ensures
            match r {
                Some(v) => match version_pos(old(self)@.rows, vid, 0) {
                    Some(i) => {
                        &&& 0 <= i < old(self)@.rows.len()
                        &&& (*v)@ == old(self)@.rows[i]
                        &&& final(self)@ == (TableV {
                            rows: old(self)@.rows.update(i, (*final(v))@),
                            ..old(self)@
                        })
                    },
                    None => false,
                },
                None => version_pos(old(self)@.rows, vid, 0) is None && final(self)@ == old(self)@,
            },
    {
        let found: Option<usize> = self.find_version(vid);
        match found {
            Some(i) => {
                assert(self@.rows[i as int] == self.rows@[i as int]@);
                let v = &mut self.rows[i];
                proof {
                    assert(versions_view(old(self).rows@.update(i as int, *final(v)))
                        =~= old(self)@.rows.update(i as int, (*final(v))@));
                }
                Some(v)
            },
            None => None,
        }
    }
}

impl Clone for RowVersion {
    fn clone(&self) -> (r: RowVersion)
        ensures
            r@ == self@,
    {
        RowVersion {
            vid: self.vid,
            values: clone_row(&self.values),
            create_lsn: self.create_lsn,
            delete_lsn: self.delete_lsn,
            owner: self.owner,
        }
    }
}

impl Clone for Table {
    fn clone(&self) -> (r: Table)
        ensures
            r@ == self@,
    {
        let mut rows: Vec<RowVersion> = Vec::new();
        let mut i: usize = 0;
        assert(versions_view(rows@) =~= self@.rows.take(0));
        while i < self.rows.len()
            invariant
                i <= self.rows.len(),
                versions_view(rows@) == self@.rows.take(i as int),
            decreases self.rows.len() - i,
        {
            let ghost before = versions_view(rows@);
            let v = self.rows[i].clone();
            let ghost vv = v@;
            rows.push(v);
            assert(versions_view(rows@) =~= before.push(vv));
            assert(self@.rows.take(i + 1) =~= before.push(vv));
            i += 1;
        }
        assert(self@.rows.take(i as int) =~= self@.rows);
        Table {
            schema: self.schema.clone(),
            rows,
            next_vid: self.next_vid,
            next_autoinc: self.next_autoinc,
        }
    }
}

/// A view: a name and the query it stands for.
pub struct ViewDef {
    pub name: String,
    pub query: SelectStmt,
}

pub struct ViewV {
    pub name: Seq<char>,
    pub query: SelectV,
}

impl View for ViewDef {
    type V = ViewV;

    open spec fn view(&self) -> ViewV {
        ViewV { name: self.name@, query: self.query@ }
    }
}

/// All tables, index definitions and views. Names are unique up to ASCII case.
pub struct Store {
    pub tables: Vec<Table>,
    pub indexes: Vec<IndexDef>,
    pub views: Vec<ViewDef>,
    /// The newest snapshot published to readers.
    pub committed_lsn: u64,
}

pub struct StoreV {
    pub tables: Seq<TableV>,
    pub indexes: Seq<IndexDefV>,
    pub views: Seq<ViewV>,
    pub committed_lsn: u64,
}

pub open spec fn tables_view(v: Seq<Table>) -> Seq<TableV> {
    Seq::new(v.len(), |i: int| v[i]@)
}

pub open spec fn index_defs_view(v: Seq<IndexDef>) -> Seq<IndexDefV> {
    Seq::new(v.len(), |i: int| v[i]@)
}

pub open spec fn view_defs_view(v: Seq<ViewDef>) -> Seq<ViewV> {
    Seq::new(v.len(), |i: int| v[i]@)
}

impl View for Store {
    type V = StoreV;

    open spec fn view(&self) -> StoreV {
        StoreV {
            tables: tables_view(self.tables@),
            indexes: index_defs_view(self.indexes@),
            views: view_defs_view(self.views@),
            committed_lsn: self.committed_lsn,
        }
    }
}

/// The first name from `i` on that matches, case ignored.
pub open spec fn name_pos(names: Seq<Seq<char>>, name: Seq<char>, i: int) -> Option<int>
    decreases names.len() - i,
{
    if i < 0 || i >= names.len() {
        None
    } else if same_name(names[i], name) {
        Some(i)
    } else {
        name_pos(names, name, i + 1)
    }
}

pub open spec fn table_names(ts: Seq<TableV>) -> Seq<Seq<char>> {
    Seq::new(ts.len(), |i: int| ts[i].schema.name)
}

pub open spec fn index_names(ix: Seq<IndexDefV>) -> Seq<Seq<char>> {
    Seq::new(ix.len(), |i: int| ix[i].name)
}

pub open spec fn view_names(vs: Seq<ViewV>) -> Seq<Seq<char>> {
    Seq::new(vs.len(), |i: int| vs[i].name)
}

pub open spec fn table_pos(s: StoreV, name: Seq<char>) -> Option<int> {
    name_pos(table_names(s.tables), name, 0)
}

/// The table a name refers to.
pub open spec fn table_named(s: StoreV, name: Seq<char>) -> Option<TableV> {
    match table_pos(s, name) {
        Some(i) => Some(s.tables[i]),
        None => None,
    }
}

pub open spec fn distinct_names(names: Seq<Seq<char>>) -> bool {
    forall|i: int, j: int|
        #![trigger names[i], names[j]]
        0 <= i < names.len() && 0 <= j < names.len() && same_name(names[i], names[j]) ==> i == j
}

/// What holds of every store: no two tables, indexes or views share a name.
pub open spec fn store_ok(s: StoreV) -> bool {
    &&& distinct_names(table_names(s.tables))
    &&& distinct_names(index_names(s.indexes))
    &&& distinct_names(view_names(s.views))
}

pub proof fn lemma_name_pos(names: Seq<Seq<char>>, name: Seq<char>, i: int)
    requires
        0 <= i,
    ensures
        match name_pos(names, name, i) {
            Some(k) => i <= k < names.len() && same_name(names[k], name) && forall|j: int|
                i <= j < k ==> !same_name(#[trigger] names[j], name),
            None => forall|j: int| i <= j < names.len() ==> !same_name(#[trigger] names[j], name),
        },
    decreases names.len() - i,
{
    if i < names.len() && !same_name(names[i], name) {
        lemma_name_pos(names, name, i + 1);
    }
}

pub open spec fn empty_store() -> StoreV {
    StoreV {
        tables: Seq::empty(),
        indexes: Seq::empty(),
        views: Seq::empty(),
        committed_lsn: 0,
    }
}

/// A store with one table replaced.
pub open spec fn with_table(s: StoreV, i: int, t: TableV) -> StoreV {
    StoreV { tables: s.tables.update(i, t), ..s }
}

/// A table put in under its name: in place of one with that name, else behind.
pub open spec fn put_table(ts: Seq<TableV>, t: TableV) -> Seq<TableV> {
    match name_pos(table_names(ts), t.schema.name, 0) {
        Some(i) => ts.update(i, t),
        None => ts.push(t),
    }
}

pub open spec fn put_index(ix: Seq<IndexDefV>, d: IndexDefV) -> Seq<IndexDefV> {
    match name_pos(index_names(ix), d.name, 0) {
        Some(i) => ix.update(i, d),
        None => ix.push(d),
    }
}

pub open spec fn put_view(vs: Seq<ViewV>, v: ViewV) -> Seq<ViewV> {
    match name_pos(view_names(vs), v.name, 0) {
        Some(i) => vs.update(i, v),
        None => vs.push(v),
    }
}

/// The indexes that are not on a table.
pub open spec fn indexes_off(ix: Seq<IndexDefV>, table: Seq<char>) -> Seq<IndexDefV>
    decreases ix.len(),
{
    if ix.len() == 0 {
        Seq::empty()
    } else {
        let rest = indexes_off(ix.drop_last(), table);
        if same_name(ix.last().table, table) {
            rest
        } else {
            rest.push(ix.last())
        }
    }
}

/// The first index from `i` on that covers a column.
pub open spec fn index_on(ix: Seq<IndexDefV>, table: Seq<char>, column: Seq<char>, i: int) -> Option<
    int,
>
    decreases ix.len() - i,
{
    if i < 0 || i >= ix.len() {
        None
    } else if same_name(ix[i].table, table) && same_name(ix[i].column, column) {
        Some(i)
    } else {
        index_on(ix, table, column, i + 1)
    }
}

impl Store {
    pub fn new() -> (s: Store)
        ensures
            s@ == empty_store(),
            store_ok(s@),
    {
        let s = Store {
            tables: Vec::new(),
            indexes: Vec::new(),
            views: Vec::new(),
            committed_lsn: 0,
        };
        assert(s@.tables =~= Seq::<TableV>::empty());
        assert(s@.indexes =~= Seq::<IndexDefV>::empty());
        assert(s@.views =~= Seq::<ViewV>::empty());
        s
    }

    /// Where a table stands.
    pub fn find_table(&self, name: &str) -> (r: Option<usize>)
        ensures
            match r {
                Some(i) => table_pos(self@, name@) == Some(i as int) && i < self.tables.len()
                    && same_name(self@.tables[i as int].schema.name, name@),
                None => table_pos(self@, name@) is None,
            },
    {
        let ghost names = table_names(self@.tables);
        let mut i: usize = 0;
        while i < self.tables.len()
            invariant
                i <= self.tables.len(),
                names == table_names(self@.tables),
                name_pos(names, name@, i as int) == name_pos(names, name@, 0),
            decreases self.tables.len() - i,
        {
            assert(names[i as int] == self.tables@[i as int].schema.name@);
            if names_match(&self.tables[i].schema.name, name) {
                return Some(i);
            }
            i += 1;
        }
        None
    }

    pub fn table(&self, name: &str) -> (r: Option<&Table>)
        ensures
            match r {
                Some(t) => table_named(self@, name@) == Some(t@),
                None => table_named(self@, name@) is None,
            },
    {
        match self.find_table(name) {
            Some(i) => {
                assert(self@.tables[i as int] == self.tables@[i as int]@);
                Some(&self.tables[i])
            },
            None => None,
        }
    }

    /// The table a name refers to, to be changed in place.
    pub fn table_mut(&mut self, name: &str) -> (r: Option<&mut Table>)
        ensures
            match r {
                Some(t) => match table_pos(old(self)@, name@) {
                    Some(i) => {
                        &&& 0 <= i < old(self)@.tables.len()
                        &&& (*t)@ == old(self)@.tables[i]
                        &&& final(self)@ == with_table(old(self)@, i, (*final(t))@)
                    },
                    None => false,
                },
                None => table_pos(old(self)@, name@) is None && final(self)@ == old(self)@,
            },
    {
        let found: Option<usize> = self.find_table(name);
        match found {
            Some(i) => {
                assert(self@.tables[i as int] == self.tables@[i as int]@);
                let t = &mut self.tables[i];
                proof {
                    assert(tables_view(old(self).tables@.update(i as int, *final(t)))
                        =~= old(self)@.tables.update(i as int, (*final(t))@));
                }
                Some(t)
            },
            None => None,
        }
    }

    pub fn has_table(&self, name: &str) -> (r: bool)
        ensures
            r == (table_named(self@, name@) is Some),
    {
        self.find_table(name).is_some()
    }

    fn find_index(&self, name: &str) -> (r: Option<usize>)
        ensures
            match r {
                Some(i) => name_pos(index_names(self@.indexes), name@, 0) == Some(i as int) && i
                    < self.indexes.len(),
                None => name_pos(index_names(self@.indexes), name@, 0) is None,
            },
    {
        let ghost names = index_names(self@.indexes);
        let mut i: usize = 0;
        while i < self.indexes.len()
            invariant
                i <= self.indexes.len(),
                names == index_names(self@.indexes),
                name_pos(names, name@, i as int) == name_pos(names, name@, 0),
            decreases self.indexes.len() - i,
        {
            assert(names[i as int] == self.indexes@[i as int].name@);
            if names_match(&self.indexes[i].name, name) {
                return Some(i);
            }
            i += 1;
        }
        None
    }

    fn find_view(&self, name: &str) -> (r: Option<usize>)
        ensures
            match r {
                Some(i) => name_pos(view_names(self@.views), name@, 0) == Some(i as int) && i
                    < self.views.len(),
                None => name_pos(view_names(self@.views), name@, 0) is None,
            },
    {
        let ghost names = view_names(self@.views);
        let mut i: usize = 0;
        while i < self.views.len()
            invariant
                i <= self.views.len(),
                names == view_names(self@.views),
                name_pos(names, name@, i as int) == name_pos(names, name@, 0),
            decreases self.views.len() - i,
        {
            assert(names[i as int] == self.views@[i as int].name@);
            if names_match(&self.views[i].name, name) {
                return Some(i);
            }
            i += 1;
        }
        None
    }

    /// Put a table in under its name, replacing one of the same name.
    pub fn put(&mut self, t: Table)
        requires
            store_ok(old(self)@),
        ensures
            final(self)@ == (StoreV { tables: put_table(old(self)@.tables, t@), ..old(self)@ }),
            store_ok(final(self)@),
    {
        let ghost before = self@;
        let ghost tv = t@;
        let ghost names = table_names(self@.tables);
        proof {
            lemma_name_pos(names, tv.schema.name, 0);
        }
        match self.find_table(&t.schema.name) {
            Some(i) => {
                self.tables.set(i, t);
                assert(self@.tables =~= before.tables.update(i as int, tv));
                assert(table_names(self@.tables) =~= names.update(i as int, tv.schema.name));
                proof {
                    lemma_update_names(names, i as int, tv.schema.name);
                }
            },
            None => {
                self.tables.push(t);
                assert(self@.tables =~= before.tables.push(tv));
                assert(table_names(self@.tables) =~= names.push(tv.schema.name));
                proof {
                    lemma_push_names(names, tv.schema.name);
                }
            },
        }
        assert(self@.indexes =~= before.indexes);
        assert(self@.views =~= before.views);
    }

    /// Add a table, replacing one of the same name.
    pub fn insert_table(&mut self, schema: TableSchema)
        requires
            store_ok(old(self)@),
        ensures
            final(self)@ == (StoreV {
                tables: put_table(old(self)@.tables, new_table(schema@)),
                ..old(self)@
            }),
            store_ok(final(self)@),
    {
        self.put(Table::new(schema));
    }
}

pub proof fn lemma_update_names(names: Seq<Seq<char>>, i: int, n: Seq<char>)
    requires
        distinct_names(names),
        0 <= i < names.len(),
        same_name(names[i], n),
    ensures
        distinct_names(names.update(i, n)),
{
    let u = names.update(i, n);
    assert forall|a: int, b: int|
        #![trigger u[a], u[b]]
        0 <= a < u.len() && 0 <= b < u.len() && same_name(u[a], u[b]) implies a == b by {
        assert(same_name(names[a], names[b]));
    }
}

pub proof fn lemma_push_names(names: Seq<Seq<char>>, n: Seq<char>)
    requires
        distinct_names(names),
        forall|j: int| 0 <= j < names.len() ==> !same_name(#[trigger] names[j], n),
    ensures
        distinct_names(names.push(n)),
{
    let u = names.push(n);
    assert forall|a: int, b: int|
        #![trigger u[a], u[b]]
        0 <= a < u.len() && 0 <= b < u.len() && same_name(u[a], u[b]) implies a == b by {
        if a < names.len() && b < names.len() {
            assert(same_name(names[a], names[b]));
        } else if a < names.len() {
            assert(!same_name(names[a], n));
        } else if b < names.len() {
            assert(!same_name(names[b], n));
        }
    }
}

pub proof fn lemma_remove_names(names: Seq<Seq<char>>, i: int)
    requires
        distinct_names(names),
        0 <= i < names.len(),
    ensures
        distinct_names(names.remove(i)),
        forall|j: int|
            0 <= j < names.remove(i).len() ==> !same_name(#[trigger] names.remove(i)[j], names[i]),
{
    let u = names.remove(i);
    assert forall|a: int, b: int|
        #![trigger u[a], u[b]]
        0 <= a < u.len() && 0 <= b < u.len() && same_name(u[a], u[b]) implies a == b by {
        let x = if a < i {
            a
        } else {
            a + 1
        };
        let y = if b < i {
            b
        } else {
            b + 1
        };
        assert(u[a] == names[x] && u[b] == names[y]);
    }
    assert forall|j: int| 0 <= j < u.len() implies !same_name(#[trigger] u[j], names[i]) by {
        let x = if j < i {
            j
        } else {
            j + 1
        };
        assert(u[j] == names[x]);
    }
}

proof fn lemma_indexes_off(ix: Seq<IndexDefV>, table: Seq<char>)
    requires
        distinct_names(index_names(ix)),
    ensures
        distinct_names(index_names(indexes_off(ix, table))),
        forall|j: int|
            0 <= j < indexes_off(ix, table).len() ==> exists|k: int|
                0 <= k < ix.len() && ix[k] == #[trigger] indexes_off(ix, table)[j],
    decreases ix.len(),
{
    if ix.len() > 0 {
        let names = index_names(ix);
        let front = ix.drop_last();
        assert(index_names(front) =~= names.drop_last());
        assert(distinct_names(index_names(front))) by {
            assert forall|a: int, b: int|
                #![trigger index_names(front)[a], index_names(front)[b]]
                0 <= a < front.len() && 0 <= b < front.len() && same_name(
                    index_names(front)[a],
                    index_names(front)[b],
                ) implies a == b by {
                assert(same_name(names[a], names[b]));
            }
        }
        lemma_indexes_off(front, table);
        let rest = indexes_off(front, table);
        let all = indexes_off(ix, table);
        assert forall|j: int| 0 <= j < all.len() implies exists|k: int|
            0 <= k < ix.len() && ix[k] == #[trigger] all[j] by {
            if j < rest.len() {
                assert(rest[j] == all[j]);
                let k = choose|k: int| 0 <= k < front.len() && front[k] == rest[j];
                assert(ix[k] == all[j]);
            } else {
                assert(ix[ix.len() - 1] == all[j]);
            }
        }
        if !same_name(ix.last().table, table) {
            let rn = index_names(rest);
            assert(index_names(all) =~= rn.push(ix.last().name));
            assert forall|j: int| 0 <= j < rn.len() implies !same_name(
                #[trigger] rn[j],
                ix.last().name,
            ) by {
                assert(rest[j] == rest[j]);
                let k = choose|k: int| 0 <= k < front.len() && front[k] == rest[j];
                assert(names[k] == rn[j]);
                assert(names[ix.len() - 1] == ix.last().name);
                if same_name(names[k], names[ix.len() - 1]) {
                    assert(k == ix.len() - 1);
                }
            }
            lemma_push_names(rn, ix.last().name);
        }
    }
}

impl Store {
    /// Remove a table and its indexes; whether it existed.
    pub fn drop_table(&mut self, name: &str) -> (r: bool)
        requires
            store_ok(old(self)@),
        ensures
            r == (table_pos(old(self)@, name@) is Some),
            final(self)@ == (StoreV {
                tables: match table_pos(old(self)@, name@) {
                    Some(i) => old(self)@.tables.remove(i),
                    None => old(self)@.tables,
                },
                indexes: indexes_off(old(self)@.indexes, name@),
                ..old(self)@
            }),
            store_ok(final(self)@),
    {
        let ghost before = self@;
        let existed = match self.find_table(name) {
            Some(i) => {
                let t = self.tables.remove(i);
                proof {
                    lemma_remove_names(table_names(before.tables), i as int);
                    assert(self@.tables =~= before.tables.remove(i as int));
                    assert(table_names(self@.tables) =~= table_names(before.tables).remove(i as int));
                }
                true
            },
            None => {
                assert(self@.tables =~= before.tables);
                false
            },
        };
        let mut kept: Vec<IndexDef> = Vec::new();
        let mut i: usize = 0;
        assert(before.indexes.take(0) =~= Seq::<IndexDefV>::empty());
        assert(index_defs_view(kept@) =~= Seq::<IndexDefV>::empty());
        while i < self.indexes.len()
            invariant
                i <= self.indexes.len(),
                before.indexes == index_defs_view(self.indexes@),
                index_defs_view(kept@) == indexes_off(before.indexes.take(i as int), name@),
            decreases self.indexes.len() - i,
        {
            assert(before.indexes.take(i + 1).drop_last() =~= before.indexes.take(i as int));
            assert(before.indexes.take(i + 1).last() == self.indexes@[i as int]@);
            if !names_match(&self.indexes[i].table, name) {
                let ghost kv = index_defs_view(kept@);
                let d = self.indexes[i].clone();
                let ghost dv = d@;
                kept.push(d);
                assert(index_defs_view(kept@) =~= kv.push(dv));
            }
            i += 1;
        }
        assert(before.indexes.take(i as int) =~= before.indexes);
        self.indexes = kept;
        proof {
            lemma_indexes_off(before.indexes, name@);
            assert(self@.views =~= before.views);
        }
        existed
    }

    // ---- views --------------------------------------------------------------------------

    pub fn has_view(&self, name: &str) -> (r: bool)
        ensures
            r == (name_pos(view_names(self@.views), name@, 0) is Some),
    {
        self.find_view(name).is_some()
    }

    /// The query a view stands for.
    pub fn view_query(&self, name: &str) -> (r: Option<&SelectStmt>)
        ensures
            match name_pos(view_names(self@.views), name@, 0) {
                Some(i) => match r {
                    Some(q) => q@ == self@.views[i].query,
                    None => false,
                },
                None => r is None,
            },
    {
        match self.find_view(name) {
            Some(i) => {
                assert(self@.views[i as int] == self.views@[i as int]@);
                Some(&self.views[i].query)
            },
            None => None,
        }
    }

    /// Register a view, replacing one of the same name.
    pub fn insert_view(&mut self, name: String, query: SelectStmt)
        requires
            store_ok(old(self)@),
        ensures
            final(self)@ == (StoreV {
                views: put_view(old(self)@.views, ViewV { name: name@, query: query@ }),
                ..old(self)@
            }),
            store_ok(final(self)@),
    {
        let ghost before = self@;
        let ghost vv = ViewV { name: name@, query: query@ };
        let ghost names = view_names(before.views);
        proof {
            lemma_name_pos(names, vv.name, 0);
        }
        match self.find_view(&name) {
            Some(i) => {
                self.views.set(i, ViewDef { name, query });
                assert(self@.views =~= before.views.update(i as int, vv));
                assert(view_names(self@.views) =~= names.update(i as int, vv.name));
                proof {
                    lemma_update_names(names, i as int, vv.name);
                }
            },
            None => {
                self.views.push(ViewDef { name, query });
                assert(self@.views =~= before.views.push(vv));
                assert(view_names(self@.views) =~= names.push(vv.name));
                proof {
                    lemma_push_names(names, vv.name);
                }
            },
        }
        assert(self@.tables =~= before.tables);
        assert(self@.indexes =~= before.indexes);
    }

    /// Remove a view; whether it existed.
    pub fn drop_view(&mut self, name: &str) -> (r: bool)
        requires
            store_ok(old(self)@),
        ensures
            r == (name_pos(view_names(old(self)@.views), name@, 0) is Some),
            final(self)@ == (StoreV {
                views: match name_pos(view_names(old(self)@.views), name@, 0) {
                    Some(i) => old(self)@.views.remove(i),
                    None => old(self)@.views,
                },
                ..old(self)@
            }),
            store_ok(final(self)@),
    {
        let ghost before = self@;
        match self.find_view(name) {
            Some(i) => {
                let v = self.views.remove(i);
                proof {
                    lemma_remove_names(view_names(before.views), i as int);
                    assert(self@.views =~= before.views.remove(i as int));
                    assert(view_names(self@.views) =~= view_names(before.views).remove(i as int));
                    assert(self@.tables =~= before.tables);
                    assert(self@.indexes =~= before.indexes);
                }
                true
            },
            None => false,
        }
    }

    // ---- index definitions -----------------------------------------------------------------

    pub fn has_index(&self, name: &str) -> (r: bool)
        ensures
            r == (name_pos(index_names(self@.indexes), name@, 0) is Some),
    {
        self.find_index(name).is_some()
    }

    /// Whether a table has any vector index.
    pub fn table_has_index(&self, table: &str) -> (r: bool)
        ensures
            r == exists|i: int|
                0 <= i < self@.indexes.len() && same_name(
                    #[trigger] self@.indexes[i].table,
                    table@,
                ),
    {
        let mut i: usize = 0;
        while i < self.indexes.len()
            invariant
                i <= self.indexes.len(),
                forall|j: int| 0 <= j < i ==> !same_name(#[trigger] self@.indexes[j].table, table@),
            decreases self.indexes.len() - i,
        {
            assert(self@.indexes[i as int] == self.indexes@[i as int]@);
            if names_match(&self.indexes[i].table, table) {
                assert(same_name(self@.indexes[i as int].table, table@));
                return true;
            }
            i += 1;
        }
        false
    }

    /// Register an index definition, replacing one of the same name.
    pub fn register_index(&mut self, def: IndexDef)
        requires
            store_ok(old(self)@),
        ensures
            final(self)@ == (StoreV {
                indexes: put_index(old(self)@.indexes, def@),
                ..old(self)@
            }),
            store_ok(final(self)@),
    {
        let ghost before = self@;
        let ghost dv = def@;
        let ghost names = index_names(before.indexes);
        proof {
            lemma_name_pos(names, dv.name, 0);
        }
        match self.find_index(&def.name) {
            Some(i) => {
                self.indexes.set(i, def);
                assert(self@.indexes =~= before.indexes.update(i as int, dv));
                assert(index_names(self@.indexes) =~= names.update(i as int, dv.name));
                proof {
                    lemma_update_names(names, i as int, dv.name);
                }
            },
            None => {
                self.indexes.push(def);
                assert(self@.indexes =~= before.indexes.push(dv));
                assert(index_names(self@.indexes) =~= names.push(dv.name));
                proof {
                    lemma_push_names(names, dv.name);
                }
            },
        }
        assert(self@.tables =~= before.tables);
        assert(self@.views =~= before.views);
    }

    /// Remove an index definition; whether it existed.
    pub fn drop_index(&mut self, name: &str) -> (r: bool)
        requires
            store_ok(old(self)@),
        ensures
            r == (name_pos(index_names(old(self)@.indexes), name@, 0) is Some),
            final(self)@ == (StoreV {
                indexes: match name_pos(index_names(old(self)@.indexes), name@, 0) {
                    Some(i) => old(self)@.indexes.remove(i),
                    None => old(self)@.indexes,
                },
                ..old(self)@
            }),
            store_ok(final(self)@),
    {
        let ghost before = self@;
        match self.find_index(name) {
            Some(i) => {
                let v = self.indexes.remove(i);
                proof {
                    lemma_remove_names(index_names(before.indexes), i as int);
                    assert(self@.indexes =~= before.indexes.remove(i as int));
                    assert(index_names(self@.indexes) =~= index_names(before.indexes).remove(
                        i as int,
                    ));
                    assert(self@.tables =~= before.tables);
                    assert(self@.views =~= before.views);
                }
                true
            },
            None => false,
        }
    }

    /// The index that covers a column.
    pub fn index_for(&self, table: &str, column: &str) -> (r: Option<&IndexDef>)
        ensures
            match index_on(self@.indexes, table@, column@, 0) {
                Some(i) => match r {
                    Some(d) => d@ == self@.indexes[i],
                    None => false,
                },
                None => r is None,
            },
    {
        let ghost iv = self@.indexes;
        let mut i: usize = 0;
        while i < self.indexes.len()
            invariant
                i <= self.indexes.len(),
                iv == index_defs_view(self.indexes@),
                iv == self@.indexes,
                index_on(iv, table@, column@, i as int) == index_on(iv, table@, column@, 0),
            decreases self.indexes.len() - i,
        {
            assert(iv[i as int] == self.indexes@[i as int]@);
            if names_match(&self.indexes[i].table, table) && names_match(
                &self.indexes[i].column,
                column,
            ) {
                return Some(&self.indexes[i]);
            }
            i += 1;
        }
        None
    }

    /// The definition of an index.
    pub fn index_def(&self, name: &str) -> (r: Option<IndexDef>)
        ensures
            match name_pos(index_names(self@.indexes), name@, 0) {
                Some(i) => match r {
                    Some(d) => d@ == self@.indexes[i],
                    None => false,
                },
                None => r is None,
            },
    {
        match self.find_index(name) {
            Some(i) => {
                assert(self@.indexes[i as int] == self.indexes@[i as int]@);
                Some(self.indexes[i].clone())
            },
            None => None,
        }
    }
}

} // verus!
