//! Keeping vector indexes in step with their tables.
use vstd::prelude::*;
use crate::catalog::column_pos;
use crate::graph::{graph_ok, marked_dead, worn, GraphV, VectorIndex};
use crate::store::{
    dead_at_head, is_dead_at_head, table_named, RowVersion, Store, StoreV, TableV, VersionV,
};
use crate::text::{names_match, same_name};
use crate::value::{row_view, RowV, Value, ValueV};
use crate::vector::{IndexDef, IndexDefV};

verus! {

/// A vector of a table, for an index.
pub struct Entry {
    pub vid: u64,
    pub vector: Vec<u32>,
    /// Whether the row is deleted for new readers.
    pub dead: bool,
}

pub struct EntryV {
    pub vid: u64,
    pub vector: Seq<u32>,
    pub dead: bool,
}

impl View for Entry {
    type V = EntryV;

    open spec fn view(&self) -> EntryV {
        EntryV { vid: self.vid, vector: self.vector@, dead: self.dead }
    }
}

pub open spec fn entries_view(v: Seq<Entry>) -> Seq<EntryV> {
    Seq::new(v.len(), |i: int| v[i]@)
}

/// The vector in a column of a row, if there is one.
pub open spec fn vector_at(r: RowV, col: int) -> Option<Seq<u32>> {
    if 0 <= col < r.len() {
        match r[col] {
            ValueV::Vector(x) => Some(x),
            _ => None,
        }
    } else {
        None
    }
}

/// The vectors in a column of the versions from `i` on.
pub open spec fn entries_from(rows: Seq<VersionV>, col: int, i: int, acc: Seq<EntryV>) -> Seq<EntryV>
    decreases rows.len() - i,
{
    if i < 0 || i >= rows.len() {
        acc
    } else {
        match vector_at(rows[i].values, col) {
            None => entries_from(rows, col, i + 1, acc),
            Some(vector) => entries_from(
                rows,
                col,
                i + 1,
                acc.push(EntryV { vid: rows[i].vid, vector, dead: dead_at_head(rows[i]) }),
            ),
        }
    }
}

/// What an index has to hold: every vector of its column, in the order of the
/// versions.
pub open spec fn entries_of(s: StoreV, d: IndexDefV) -> Seq<EntryV> {
    match table_named(s, d.table) {
        None => Seq::empty(),
        Some(t) => match column_pos(t.schema, d.column) {
            None => Seq::empty(),
            Some(c) => entries_from(t.rows, c as int, 0, Seq::empty()),
        },
    }
}

/// Those from `i` on that are not deleted.
pub open spec fn live_from(v: Seq<EntryV>, i: int, acc: Seq<EntryV>) -> Seq<EntryV>
    decreases v.len() - i,
{
    if i < 0 || i >= v.len() {
        acc
    } else if v[i].dead {
        live_from(v, i + 1, acc)
    } else {
        live_from(v, i + 1, acc.push(v[i]))
    }
}

fn copy_codes(v: &[u32]) -> (r: Vec<u32>)
    ensures
        r@ == v@,
{
    let mut out: Vec<u32> = Vec::new();
    let mut i: usize = 0;
    while i < v.len()
        invariant
            i <= v@.len(),
            out@ == v@.take(i as int),
        decreases v@.len() - i,
    {
        out.push(v[i]);
        assert(v@.take(i + 1) =~= v@.take(i as int).push(v@[i as int]));
        i += 1;
    }
    assert(v@.take(i as int) =~= v@);
    out
}

fn vector_in(values: &[Value], col: usize) -> (r: Option<Vec<u32>>)
    ensures
        vector_at(row_view(values@), col as int) == (match r {
            Some(v) => Some(v@),
            None => None,
        }),
{
    if col >= values.len() {
        return None;
    }
    assert(row_view(values@)[col as int] == values@[col as int]@);
    match values[col].as_vector() {
        Some(x) => Some(copy_codes(x)),
        None => None,
    }
}

fn column_entries(rows: &Vec<RowVersion>, col: usize) -> (r: Vec<Entry>)
    ensures
        entries_view(r@) == entries_from(
            crate::store::versions_view(rows@),
            col as int,
            0,
            Seq::empty(),
        ),
{
    let ghost rv = crate::store::versions_view(rows@);
    let mut out: Vec<Entry> = Vec::new();
    assert(entries_view(out@) =~= Seq::<EntryV>::empty());
    let mut i: usize = 0;
    while i < rows.len()
        invariant
            i <= rows@.len(),
            rv == crate::store::versions_view(rows@),
            entries_from(rv, col as int, i as int, entries_view(out@)) == entries_from(
                rv,
                col as int,
                0,
                Seq::empty(),
            ),
        decreases rows@.len() - i,
    {
        assert(rv[i as int] == rows@[i as int]@);
        match vector_in(rows[i].values.as_slice(), col) {
            None => {},
            Some(vector) => {
                let e = Entry { vid: rows[i].vid, vector, dead: is_dead_at_head(&rows[i]) };
                let ghost before = entries_view(out@);
                let ghost ev = e@;
                out.push(e);
                assert(entries_view(out@) =~= before.push(ev));
            },
        }
        i += 1;
    }
    out
}

/// What an index has to hold when it is built anew. A version that is deleted already
/// goes in and is marked.
pub fn index_entries(store: &Store, def: &IndexDef) -> (r: Vec<Entry>)
    ensures
        entries_view(r@) == entries_of(store@, def@),
{
    match store.table(&def.table) {
        None => {
            let out: Vec<Entry> = Vec::new();
            assert(entries_view(out@) =~= Seq::<EntryV>::empty());
            out
        },
        Some(t) => match t.schema.column_index(&def.column) {
            None => {
                let out: Vec<Entry> = Vec::new();
                assert(entries_view(out@) =~= Seq::<EntryV>::empty());
                out
            },
            Some(col) => column_entries(&t.rows, col),
        },
    }
}

/// What an index holds after it was compacted: what is not deleted for new readers.
pub fn live_entries(entries: Vec<Entry>) -> (r: Vec<Entry>)
    ensures
        entries_view(r@) == live_from(entries_view(entries@), 0, Seq::empty()),
{
    let ghost ev = entries_view(entries@);
    let mut out: Vec<Entry> = Vec::new();
    assert(entries_view(out@) =~= Seq::<EntryV>::empty());
    let mut i: usize = 0;
    while i < entries.len()
        invariant
            i <= entries@.len(),
            ev == entries_view(entries@),
            live_from(ev, i as int, entries_view(out@)) == live_from(ev, 0, Seq::empty()),
        decreases entries@.len() - i,
    {
        assert(ev[i as int] == entries@[i as int]@);
        if !entries[i].dead {
            let e = Entry {
                vid: entries[i].vid,
                vector: copy_codes(entries[i].vector.as_slice()),
                dead: false,
            };
            let ghost before = entries_view(out@);
            let ghost xv = e@;
            out.push(e);
            assert(entries_view(out@) =~= before.push(xv));
        }
        i += 1;
    }
    out
}

/// The indexes from `i` on that a new row of a table goes into, with its vector.
pub open spec fn adds_from(
    ix: Seq<IndexDefV>,
    i: int,
    t: TableV,
    table: Seq<char>,
    values: RowV,
    acc: Seq<(Seq<char>, Seq<u32>)>,
) -> Seq<(Seq<char>, Seq<u32>)>
    decreases ix.len() - i,
{
    if i < 0 || i >= ix.len() {
        acc
    } else {
        let hit = if same_name(ix[i].table, table) {
            match column_pos(t.schema, ix[i].column) {
                Some(c) => vector_at(values, c as int),
                None => None,
            }
        } else {
            None
        };
        match hit {
            Some(x) => adds_from(ix, i + 1, t, table, values, acc.push((ix[i].name, x))),
            None => adds_from(ix, i + 1, t, table, values, acc),
        }
    }
}

pub open spec fn adds_view(v: Seq<(String, Vec<u32>)>) -> Seq<(Seq<char>, Seq<u32>)> {
    Seq::new(v.len(), |i: int| (v[i].0@, v[i].1@))
}

/// The indexes that a new row of a table goes into, with its vector.
pub fn index_adds(store: &Store, table: &str, values: &[Value]) -> (r: Vec<(String, Vec<u32>)>)
    ensures
        adds_view(r@) == (match table_named(store@, table@) {
            None => Seq::empty(),
            Some(t) => adds_from(
                store@.indexes,
                0,
                t,
                table@,
                row_view(values@),
                Seq::empty(),
            ),
        }),
{
    let mut out: Vec<(String, Vec<u32>)> = Vec::new();
    assert(adds_view(out@) =~= Seq::<(Seq<char>, Seq<u32>)>::empty());
    match store.table(table) {
        None => out,
        Some(t) => {
            let ghost tv = t@;
            let ghost ix = store@.indexes;
            let ghost vv = row_view(values@);
            let mut i: usize = 0;
            while i < store.indexes.len()
                invariant
                    i <= store.indexes@.len(),
                    tv == t@,
                    ix == store@.indexes,
                    vv == row_view(values@),
                    adds_from(ix, i as int, tv, table@, vv, adds_view(out@)) == adds_from(
                        ix,
                        0,
                        tv,
                        table@,
                        vv,
                        Seq::empty(),
                    ),
                decreases store.indexes@.len() - i,
            {
                assert(ix[i as int] == store.indexes@[i as int]@);
                if names_match(&store.indexes[i].table, table) {
                    match t.schema.column_index(&store.indexes[i].column) {
                        Some(c) => match vector_in(values, c) {
                            Some(x) => {
                                let ghost before = adds_view(out@);
                                let name = store.indexes[i].name.clone();
                                let ghost e = (name@, x@);
                                out.push((name, x));
                                assert(adds_view(out@) =~= before.push(e));
                            },
                            None => {},
                        },
                        None => {},
                    }
                }
                i += 1;
            }
            out
        },
    }
}

/// A graph with the versions from `i` on marked as deleted.
pub open spec fn marked_from(g: GraphV, vids: Seq<u64>, i: int) -> GraphV
    decreases vids.len() - i,
{
    if i < 0 || i >= vids.len() {
        g
    } else {
        marked_from(marked_dead(g, vids[i]), vids, i + 1)
    }
}

/// Take note of versions that a commit deleted; whether the graph is now worth
/// compacting.
pub fn mark_all(ix: &mut VectorIndex, vids: &Vec<u64>) -> (r: bool)
    requires
        graph_ok(old(ix)@),
    ensures
        final(ix)@ == marked_from(old(ix)@, vids@, 0),
        graph_ok(final(ix)@),
        r == worn(final(ix)@),
{
    let ghost g = ix@;
    let mut i: usize = 0;
    while i < vids.len()
        invariant
            i <= vids@.len(),
            graph_ok(ix@),
            marked_from(ix@, vids@, i as int) == marked_from(g, vids@, 0),
        decreases vids@.len() - i,
    {
        ix.mark_dead(vids[i]);
        i += 1;
    }
    ix.needs_maintenance()
}

/// The oldest snapshot that a graph compacted at `lsn` can answer.
pub fn compaction_floor(ix: &VectorIndex, lsn: u64) -> (r: u64)
    ensures
        r == (if lsn > ix@.rebuild_floor {
            lsn
        } else {
            ix@.rebuild_floor
        }),
{
    if lsn > ix.rebuild_floor {
        lsn
    } else {
        ix.rebuild_floor
    }
}

} // verus!
