//! `INSERT`, `UPDATE` and `DELETE`.
//!
//! A statement drafts the table as it will be, on a copy, and puts the draft in
//! place only when all of it went well: a statement that fails changes nothing.
//! New versions carry the stamp of pending changes and the owner's number; the
//! versions they replace are stamped as deleted by that owner.
use vstd::prelude::*;
use crate::asks::{Stop, StopV};
use crate::catalog::{column_pos, strings_view, SchemaV, TableSchema};
use crate::env::{fail, sql_fail, sql_stop, Env, EnvV};
use crate::error::{internal_err, EngineError};
use crate::eval::{ev, eval, group_view, root_ctx, EvalCtx};
use crate::policy::{readable, screen};
use crate::query::{project, projection, ResultSet, ResultV};
use crate::relational::{World, WorldV};
use crate::runner::{run_select, selected};
use crate::scope::{Scope, ScopeV};
use crate::select::Sight;
use crate::sql::{
    expr_lists_view, exprs_view, opt_items_view, opt_strings_view, Expr, ExprV, InsertSource,
    InsertSourceV, ItemV, SelItem, SelectStmt, SelectV,
};
use crate::store::{
    version_pos, versions_view, with_table, PENDING, RowVersion, Store, StoreV, Table, TableV,
    VersionV,
};
use crate::text::{concat2, concat3, nat_string, nat_text, owned};
use crate::value::{clone_row, row_view, rows_view, RowV, Value, ValueV};
use crate::wal::{ops_view, WalOp, WalOpV};

verus! {

/// Who writes, and what it sees.
pub struct WriteCtx<'a> {
    pub snapshot: u64,
    pub owner: u64,
    /// The session's search width for vector indexes.
    pub ef_search: Option<u64>,
    pub env: &'a Env<'a>,
}

pub struct WriteV {
    pub snapshot: u64,
    pub owner: u64,
    pub ef_search: Option<u64>,
    pub env: EnvV,
}

impl<'a> View for WriteCtx<'a> {
    type V = WriteV;

    open spec fn view(&self) -> WriteV {
        WriteV {
            snapshot: self.snapshot,
            owner: self.owner,
            ef_search: self.ef_search,
            env: self.env@,
        }
    }
}

pub open spec fn world_of(s: StoreV, wc: WriteV) -> WorldV {
    WorldV {
        store: s,
        sight: Sight {
            snapshot: wc.snapshot,
            writer: Some(wc.owner),
            ef_search: wc.ef_search,
        },
        env: wc.env,
    }
}

/// What a statement did: the operations to make durable, how many rows it
/// touched, and what its `RETURNING` shows.
pub struct Mutation {
    pub wal: Vec<WalOp>,
    pub changes: i64,
    pub result: Option<ResultSet>,
}

pub struct MutationV {
    pub wal: Seq<WalOpV>,
    pub changes: i64,
    pub result: Option<ResultV>,
}

pub open spec fn opt_set_view(o: Option<ResultSet>) -> Option<ResultV> {
    match o {
        Some(r) => Some(r@),
        None => None,
    }
}

impl View for Mutation {
    type V = MutationV;

    open spec fn view(&self) -> MutationV {
        MutationV {
            wal: ops_view(self.wal@),
            changes: self.changes,
            result: opt_set_view(self.result),
        }
    }
}

// ---- drafts ---------------------------------------------------------------------------------------

/// A table as it will be, the operations behind it, and the rows touched so far.
pub struct Draft {
    pub table: Table,
    pub wal: Vec<WalOp>,
    pub rows: Vec<Vec<Value>>,
}

pub struct DraftV {
    pub table: TableV,
    pub wal: Seq<WalOpV>,
    pub rows: Seq<RowV>,
}

impl View for Draft {
    type V = DraftV;

    open spec fn view(&self) -> DraftV {
        DraftV { table: self.table@, wal: ops_view(self.wal@), rows: rows_view(self.rows@) }
    }
}

pub open spec fn fresh_draft(t: TableV) -> DraftV {
    DraftV { table: t, wal: Seq::empty(), rows: Seq::empty() }
}

pub open spec fn pending_version(vid: u64, values: RowV, owner: u64) -> VersionV {
    VersionV { vid, values, create_lsn: PENDING, delete_lsn: 0, owner }
}

/// With a new version of its own.
pub open spec fn appended(d: DraftV, name: Seq<char>, values: RowV, owner: u64) -> Result<
    DraftV,
    StopV,
> {
    let vid = d.table.next_vid;
    if vid == u64::MAX {
        Err(fail(internal_err("no version ids are left"@)))
    } else {
        Ok(
            DraftV {
                table: TableV {
                    rows: d.table.rows.push(pending_version(vid, values, owner)),
                    next_vid: (vid + 1) as u64,
                    ..d.table
                },
                wal: d.wal.push(WalOpV::Insert { table: name, vid, values }),
                rows: d.rows.push(values),
            },
        )
    }
}

pub open spec fn stamped(v: VersionV, owner: u64) -> VersionV {
    VersionV { delete_lsn: PENDING, owner, ..v }
}

/// With a version stamped as deleted.
pub open spec fn superseded(d: DraftV, name: Seq<char>, vid: u64, owner: u64) -> DraftV {
    DraftV {
        table: match version_pos(d.table.rows, vid, 0) {
            Some(i) => TableV {
                rows: d.table.rows.update(i, stamped(d.table.rows[i], owner)),
                ..d.table
            },
            None => d.table,
        },
        wal: d.wal.push(WalOpV::Delete { table: name, vid }),
        ..d
    }
}

impl Draft {
    pub fn new(t: &Table) -> (d: Draft)
        ensures
            d@ == fresh_draft(t@),
    {
        let d = Draft { table: t.clone(), wal: Vec::new(), rows: Vec::new() };
        assert(ops_view(d.wal@) =~= Seq::<WalOpV>::empty());
        assert(rows_view(d.rows@) =~= Seq::<RowV>::empty());
        d
    }

    /// Add a version; its number is given back.
    pub fn append_version(&mut self, name: &str, values: Vec<Value>, owner: u64) -> (r: Result<
        u64,
        Stop,
    >)
        ensures
            match r {
                Ok(vid) => vid == old(self)@.table.next_vid && appended(
                    old(self)@,
                    name@,
                    row_view(values@),
                    owner,
                ) == Ok::<DraftV, StopV>(final(self)@),
                Err(s) => appended(old(self)@, name@, row_view(values@), owner) == Err::<
                    DraftV,
                    StopV,
                >(s@),
            },
    {
        if self.table.next_vid == u64::MAX {
            return Err(Stop::Fail(EngineError::internal(owned("no version ids are left"))));
        }
        let ghost before = self@;
        let ghost vv = row_view(values@);
        let vid: u64 = self.table.next_vid;
        self.table.next_vid = vid + 1;
        self.rows.push(clone_row(&values));
        self.wal.push(WalOp::Insert { table: owned(name), vid, values: clone_row(&values) });
        self.table.rows.push(
            RowVersion { vid, values, create_lsn: PENDING, delete_lsn: 0, owner },
        );
        proof {
            assert(versions_view(self.table.rows@) =~= before.table.rows.push(
                pending_version(vid, vv, owner),
            ));
            assert(ops_view(self.wal@) =~= before.wal.push(
                WalOpV::Insert { table: name@, vid, values: vv },
            ));
            assert(rows_view(self.rows@) =~= before.rows.push(vv));
        }
        Ok(vid)
    }

    /// Stamp a version as deleted.
    pub fn supersede(&mut self, name: &str, vid: u64, owner: u64)
        ensures
            final(self)@ == superseded(old(self)@, name@, vid, owner),
    {
        let ghost before = self@;
        match self.table.version_mut(vid) {
            Some(v) => {
                v.delete_lsn = PENDING;
                v.owner = owner;
            },
            None => {},
        }
        self.wal.push(WalOp::Delete { table: owned(name), vid });
        proof {
            assert(ops_view(self.wal@) =~= before.wal.push(WalOpV::Delete { table: name@, vid }));
        }
    }
}

/// What a `RETURNING` shows of the touched rows: those that the principal may
/// read.
pub open spec fn returned(
    items: Option<Seq<ItemV>>,
    schema: SchemaV,
    rows: Seq<RowV>,
    env: EnvV,
) -> Result<Option<ResultV>, StopV> {
    match items {
        None => Ok(None),
        Some(v) => match readable(schema, rows, env) {
            Err(e) => Err(e),
            Ok(shown) => match projection(
                v,
                ScopeV { schema: Some(schema), cols: None },
                shown,
                env,
            ) {
                Err(e) => Err(e),
                Ok(r) => Ok(Some(r)),
            },
        },
    }
}

pub fn project_returning(
    items: &Option<Vec<SelItem>>,
    schema: &TableSchema,
    rows: &Vec<Vec<Value>>,
    env: &Env,
) -> (r: Result<Option<ResultSet>, Stop>)
    ensures
        returned(opt_items_view(*items), schema@, rows_view(rows@), env@) == (match r {
            Ok(o) => Ok(opt_set_view(o)),
            Err(s) => Err(s@),
        }),
{
    match items {
        None => Ok(None),
        Some(v) => {
            let mut refs: Vec<&[Value]> = Vec::new();
            let mut i: usize = 0;
            assert(group_view(refs@) =~= rows_view(rows@).take(0));
            while i < rows.len()
                invariant
                    i <= rows.len(),
                    group_view(refs@) == rows_view(rows@).take(i as int),
                decreases rows.len() - i,
            {
                let ghost before = group_view(refs@);
                let row: &[Value] = rows[i].as_slice();
                refs.push(row);
                assert(group_view(refs@) =~= before.push(row_view(rows@[i as int]@)));
                assert(rows_view(rows@).take(i + 1) =~= before.push(row_view(rows@[i as int]@)));
                i += 1;
            }
            assert(rows_view(rows@).take(i as int) =~= rows_view(rows@));
            let scope = Scope { schema: Some(schema), cols: None };
            let shown = screen(schema, refs, env)?;
            let out = project(v, &scope, &shown, env)?;
            Ok(Some(out))
        },
    }
}

/// A draft put in place.
pub open spec fn finish(
    s: StoreV,
    i: int,
    d: DraftV,
    changes: nat,
    returning: Option<Seq<ItemV>>,
    env: EnvV,
) -> Result<(StoreV, MutationV), StopV> {
    match returned(returning, d.table.schema, d.rows, env) {
        Err(e) => Err(e),
        Ok(result) => Ok(
            (with_table(s, i, d.table), MutationV { wal: d.wal, changes: changes as i64, result }),
        ),
    }
}

/// What a statement gave and left, held against what it should.
pub open spec fn wrote(
    r: Result<Mutation, Stop>,
    before: StoreV,
    after: StoreV,
    want: Result<(StoreV, MutationV), StopV>,
) -> bool {
    match r {
        Ok(m) => want == Ok::<(StoreV, MutationV), StopV>((after, m@)),
        Err(s) => want == Err::<(StoreV, MutationV), StopV>(s@) && after == before,
    }
}

pub fn put_draft(
    store: &mut Store,
    i: usize,
    d: Draft,
    changes: usize,
    returning: &Option<Vec<SelItem>>,
    env: &Env,
) -> (r: Result<Mutation, Stop>)
    requires
        i < old(store)@.tables.len(),
    ensures
        wrote(
            r,
            old(store)@,
            final(store)@,
            finish(
                old(store)@,
                i as int,
                d@,
                changes as nat,
                opt_items_view(*returning),
                env@,
            ),
        ),
{
    let result = project_returning(returning, &d.table.schema, &d.rows, env)?;
    let ghost before = store@;
    let ghost tv = d.table@;
    let wal = d.wal;
    store.tables.set(i, d.table);
    assert(store@.tables =~= before.tables.update(i as int, tv));
    Ok(Mutation { wal, changes: changes as i64, result })
}

// ---- INSERT: the rows -----------------------------------------------------------------------------

pub open spec fn no_column(name: Seq<char>) -> StopV {
    sql_fail("no such column: "@ + name)
}

pub open spec fn targets_from(names: Seq<Seq<char>>, schema: SchemaV, i: int, acc: Seq<usize>) -> Result<
    Seq<usize>,
    StopV,
>
    decreases names.len() - i,
{
    if i < 0 || i >= names.len() {
        Ok(acc)
    } else {
        match column_pos(schema, names[i]) {
            None => Err(no_column(names[i])),
            Some(p) => targets_from(names, schema, i + 1, acc.push(p)),
        }
    }
}

/// The columns that an `INSERT` gives values for: all, where none are named.
pub open spec fn targets_of(names: Option<Seq<Seq<char>>>, schema: SchemaV) -> Result<
    Seq<usize>,
    StopV,
> {
    match names {
        Some(v) => targets_from(v, schema, 0, Seq::empty()),
        None => Ok(Seq::new(schema.columns.len(), |i: int| i as usize)),
    }
}

pub open spec fn places_result(r: Result<Vec<usize>, Stop>) -> Result<Seq<usize>, StopV> {
    match r {
        Ok(v) => Ok(v@),
        Err(s) => Err(s@),
    }
}

pub fn insert_targets(schema: &TableSchema, columns: &Option<Vec<String>>) -> (r: Result<
    Vec<usize>,
    Stop,
>)
    ensures
        places_result(r) == targets_of(opt_strings_view(*columns), schema@),
{
    let mut out: Vec<usize> = Vec::new();
    match columns {
        Some(names) => {
            let ghost nv = strings_view(names@);
            let mut i: usize = 0;
            while i < names.len()
                invariant
                    i <= names.len(),
                    nv == strings_view(names@),
                    opt_strings_view(*columns) == Some(nv),
                    targets_from(nv, schema@, i as int, out@) == targets_from(
                        nv,
                        schema@,
                        0,
                        Seq::empty(),
                    ),
                decreases names.len() - i,
            {
                assert(nv[i as int] == names@[i as int]@);
                match schema.column_index(&names[i]) {
                    Some(p) => {
                        out.push(p);
                    },
                    None => {
                        return Err(sql_stop(concat2("no such column: ", &names[i])));
                    },
                }
                i += 1;
            }
            Ok(out)
        },
        None => {
            let n: usize = schema.columns.len();
            let mut i: usize = 0;
            while i < n
                invariant
                    i <= n,
                    out@.len() == i,
                    forall|k: int| 0 <= k < i ==> out@[k] == k,
                decreases n - i,
            {
                out.push(i);
                i += 1;
            }
            assert(out@ =~= Seq::new(schema@.columns.len(), |i: int| i as usize));
            Ok(out)
        },
    }
}

/// What is given for each column of a row; nothing where its default is wanted.
pub type SlotV = Seq<Option<ValueV>>;

pub open spec fn opt_value(o: Option<Value>) -> Option<ValueV> {
    match o {
        Some(v) => Some(v@),
        None => None,
    }
}

pub open spec fn slot_view(s: Seq<Option<Value>>) -> SlotV {
    Seq::new(s.len(), |i: int| opt_value(s[i]))
}

pub open spec fn slots_view(v: Seq<Vec<Option<Value>>>) -> Seq<SlotV> {
    Seq::new(v.len(), |i: int| slot_view(v[i]@))
}

pub open spec fn blank_slot(n: nat) -> SlotV {
    Seq::new(n, |i: int| None)
}

pub open spec fn slot_put(s: SlotV, i: usize, v: Option<ValueV>) -> SlotV {
    if (i as int) < s.len() {
        s.update(i as int, v)
    } else {
        s
    }
}

fn blank(n: usize) -> (r: Vec<Option<Value>>)
    ensures
        slot_view(r@) == blank_slot(n as nat),
{
    let mut out: Vec<Option<Value>> = Vec::new();
    let mut i: usize = 0;
    while i < n
        invariant
            i <= n,
            out@.len() == i,
            forall|k: int| 0 <= k < i ==> out@[k] is None,
        decreases n - i,
    {
        out.push(None);
        i += 1;
    }
    assert(slot_view(out@) =~= blank_slot(n as nat));
    out
}

fn put_slot(s: &mut Vec<Option<Value>>, i: usize, v: Option<Value>)
    ensures
        slot_view(final(s)@) == slot_put(
            slot_view(old(s)@),
            i,
            opt_value(v),
        ),
{
    let ghost before = slot_view(s@);
    let ghost vv = opt_value(v);
    if i < s.len() {
        s.set(i, v);
        assert(slot_view(s@) =~= before.update(i as int, vv));
    }
}

/// The values of one row of a `VALUES` list, put into their columns.
pub open spec fn given_from(
    exprs: Seq<ExprV>,
    targets: Seq<usize>,
    env: EnvV,
    k: int,
    slot: SlotV,
) -> Result<SlotV, StopV>
    decreases exprs.len() - k,
{
    if k < 0 || k >= exprs.len() {
        Ok(slot)
    } else if exprs[k] is Default {
        given_from(exprs, targets, env, k + 1, slot_put(slot, targets[k], None))
    } else {
        match ev(exprs[k], root_ctx(), env) {
            Err(e) => Err(e),
            Ok(v) => given_from(exprs, targets, env, k + 1, slot_put(slot, targets[k], Some(v))),
        }
    }
}

pub open spec fn count_fail(targets: nat, values: nat) -> StopV {
    sql_fail(
        "INSERT has "@ + nat_text(targets) + " target column(s) but "@ + (nat_text(values)
            + " value(s)"@),
    )
}

/// One row of a `VALUES` list. A row of no values is one of defaults, where no
/// columns are named.
pub open spec fn given(
    exprs: Seq<ExprV>,
    named: bool,
    targets: Seq<usize>,
    n: nat,
    env: EnvV,
) -> Result<SlotV, StopV> {
    if exprs.len() == 0 && !named {
        Ok(blank_slot(n))
    } else if exprs.len() != targets.len() {
        Err(count_fail(targets.len(), exprs.len()))
    } else {
        given_from(exprs, targets, env, 0, blank_slot(n))
    }
}

pub open spec fn all_given_from(
    rows: Seq<Seq<ExprV>>,
    named: bool,
    targets: Seq<usize>,
    n: nat,
    env: EnvV,
    i: int,
    acc: Seq<SlotV>,
) -> Result<Seq<SlotV>, StopV>
    decreases rows.len() - i,
{
    if i < 0 || i >= rows.len() {
        Ok(acc)
    } else {
        match given(rows[i], named, targets, n, env) {
            Err(e) => Err(e),
            Ok(s) => all_given_from(rows, named, targets, n, env, i + 1, acc.push(s)),
        }
    }
}

pub open spec fn placed_from(row: RowV, targets: Seq<usize>, k: int, slot: SlotV) -> SlotV
    decreases row.len() - k,
{
    if k < 0 || k >= row.len() {
        slot
    } else {
        placed_from(row, targets, k + 1, slot_put(slot, targets[k], Some(row[k])))
    }
}

pub open spec fn width_fail(values: nat, targets: nat) -> StopV {
    sql_fail(
        "INSERT … SELECT produced "@ + nat_text(values) + " column(s) for "@ + (nat_text(targets)
            + " target(s)"@),
    )
}

pub open spec fn all_placed_from(
    rows: Seq<RowV>,
    targets: Seq<usize>,
    n: nat,
    i: int,
    acc: Seq<SlotV>,
) -> Result<Seq<SlotV>, StopV>
    decreases rows.len() - i,
{
    if i < 0 || i >= rows.len() {
        Ok(acc)
    } else if rows[i].len() != targets.len() {
        Err(width_fail(rows[i].len(), targets.len()))
    } else {
        all_placed_from(
            rows,
            targets,
            n,
            i + 1,
            acc.push(placed_from(rows[i], targets, 0, blank_slot(n))),
        )
    }
}

/// The rows that a query yields to a writer.
#[verifier::opaque]
pub open spec fn query_rows(s: StoreV, wc: WriteV, q: SelectV) -> Result<Seq<RowV>, StopV> {
    match selected(world_of(s, wc), q) {
        Err(e) => Err(e),
        Ok(r) => Ok(r.rows),
    }
}

/// What an `INSERT` gives for each of its rows.
pub open spec fn slots_of(
    s: StoreV,
    schema: SchemaV,
    names: Option<Seq<Seq<char>>>,
    source: InsertSourceV,
    wc: WriteV,
) -> Result<Seq<SlotV>, StopV> {
    match targets_of(names, schema) {
        Err(e) => Err(e),
        Ok(targets) => match source {
            InsertSourceV::Values(rows) => all_given_from(
                rows,
                names is Some,
                targets,
                schema.columns.len(),
                wc.env,
                0,
                Seq::empty(),
            ),
            InsertSourceV::Select(q) => match query_rows(s, wc, q) {
                Err(e) => Err(e),
                Ok(rows) => all_placed_from(
                    rows,
                    targets,
                    schema.columns.len(),
                    0,
                    Seq::empty(),
                ),
            },
        },
    }
}

pub open spec fn slot_result(r: Result<Vec<Option<Value>>, Stop>) -> Result<SlotV, StopV> {
    match r {
        Ok(v) => Ok(slot_view(v@)),
        Err(s) => Err(s@),
    }
}

pub open spec fn slots_result(r: Result<Vec<Vec<Option<Value>>>, Stop>) -> Result<
    Seq<SlotV>,
    StopV,
> {
    match r {
        Ok(v) => Ok(slots_view(v@)),
        Err(s) => Err(s@),
    }
}

fn is_default(e: &Expr) -> (r: bool)
    ensures
        r == (e@ is Default),
{
    match e {
        Expr::Default => true,
        _ => false,
    }
}

fn value_slot(exprs: &Vec<Expr>, named: bool, targets: &Vec<usize>, n: usize, env: &Env) -> (r:
    Result<Vec<Option<Value>>, Stop>)
    ensures
        slot_result(r) == given(exprs_view(exprs@), named, targets@, n as nat, env@),
{
    let ghost xv = exprs_view(exprs@);
    let mut slot = blank(n);
    if exprs.len() == 0 && !named {
        return Ok(slot);
    }
    if exprs.len() != targets.len() {
        let head = concat3(
            "INSERT has ",
            &nat_string(targets.len() as u64),
            " target column(s) but ",
        );
        let tail = concat2(&nat_string(exprs.len() as u64), " value(s)");
        return Err(sql_stop(concat2(&head, &tail)));
    }
    let ctx = EvalCtx::root();
    let mut k: usize = 0;
    while k < exprs.len()
        invariant
            k <= exprs.len(),
            xv == exprs_view(exprs@),
            exprs.len() == targets.len(),
            ctx@ == root_ctx(),
            given_from(xv, targets@, env@, k as int, slot_view(slot@)) == given_from(
                xv,
                targets@,
                env@,
                0,
                blank_slot(n as nat),
            ),
            given(xv, named, targets@, n as nat, env@) == given_from(
                xv,
                targets@,
                env@,
                0,
                blank_slot(n as nat),
            ),
        decreases exprs.len() - k,
    {
        assert(xv[k as int] == exprs@[k as int]@);
        if is_default(&exprs[k]) {
            put_slot(&mut slot, targets[k], None);
        } else {
            let v = eval(&exprs[k], &ctx, env)?;
            put_slot(&mut slot, targets[k], Some(v));
        }
        k += 1;
    }
    Ok(slot)
}

fn value_slots(
    rows: &Vec<Vec<Expr>>,
    named: bool,
    targets: &Vec<usize>,
    n: usize,
    env: &Env,
) -> (r: Result<Vec<Vec<Option<Value>>>, Stop>)
    ensures
        slots_result(r) == all_given_from(
            expr_lists_view(rows@),
            named,
            targets@,
            n as nat,
            env@,
            0,
            Seq::empty(),
        ),
{
    let ghost rv = expr_lists_view(rows@);
    let mut out: Vec<Vec<Option<Value>>> = Vec::new();
    assert(slots_view(out@) =~= Seq::<SlotV>::empty());
    let mut i: usize = 0;
    while i < rows.len()
        invariant
            i <= rows.len(),
            rv == expr_lists_view(rows@),
            all_given_from(rv, named, targets@, n as nat, env@, i as int, slots_view(out@))
                == all_given_from(rv, named, targets@, n as nat, env@, 0, Seq::empty()),
        decreases rows.len() - i,
    {
        assert(rv[i as int] == exprs_view(rows@[i as int]@));
        let s = value_slot(&rows[i], named, targets, n, env)?;
        let ghost before = slots_view(out@);
        let ghost sv = slot_view(s@);
        out.push(s);
        assert(slots_view(out@) =~= before.push(sv));
        i += 1;
    }
    Ok(out)
}

fn query_slots(rows: &Vec<Vec<Value>>, targets: &Vec<usize>, n: usize) -> (r: Result<
    Vec<Vec<Option<Value>>>,
    Stop,
>)
    ensures
        slots_result(r) == all_placed_from(
            rows_view(rows@),
            targets@,
            n as nat,
            0,
            Seq::empty(),
        ),
{
    let ghost rv = rows_view(rows@);
    let mut out: Vec<Vec<Option<Value>>> = Vec::new();
    assert(slots_view(out@) =~= Seq::<SlotV>::empty());
    let mut i: usize = 0;
    while i < rows.len()
        invariant
            i <= rows.len(),
            rv == rows_view(rows@),
            all_placed_from(rv, targets@, n as nat, i as int, slots_view(out@))
                == all_placed_from(rv, targets@, n as nat, 0, Seq::empty()),
        decreases rows.len() - i,
    {
        let row = &rows[i];
        assert(rv[i as int] == row_view(row@));
        assert(row_view(row@).len() == row@.len());
        if row.len() != targets.len() {
            let head = concat3(
                "INSERT … SELECT produced ",
                &nat_string(row.len() as u64),
                " column(s) for ",
            );
            let tail = concat2(&nat_string(targets.len() as u64), " target(s)");
            return Err(sql_stop(concat2(&head, &tail)));
        }
        let mut slot = blank(n);
        let ghost rowv = row_view(row@);
        let mut k: usize = 0;
        while k < row.len()
            invariant
                k <= row.len(),
                row.len() == targets.len(),
                rowv == row_view(row@),
                placed_from(rowv, targets@, k as int, slot_view(slot@)) == placed_from(
                    rowv,
                    targets@,
                    0,
                    blank_slot(n as nat),
                ),
            decreases row.len() - k,
        {
            assert(rowv[k as int] == row@[k as int]@);
            put_slot(&mut slot, targets[k], Some(row[k].clone()));
            k += 1;
        }
        let ghost before = slots_view(out@);
        let ghost sv = slot_view(slot@);
        out.push(slot);
        assert(slots_view(out@) =~= before.push(sv));
        i += 1;
    }
    Ok(out)
}

fn rows_to_insert(store: &Store, sel: &SelectStmt, wc: &WriteCtx) -> (r: Result<
    Vec<Vec<Value>>,
    Stop,
>)
    ensures
        query_rows(store@, wc@, sel@) == (match r {
            Ok(v) => Ok(rows_view(v@)),
            Err(s) => Err(s@),
        }),
{
    reveal(query_rows);
    let w = World {
        store,
        sight: Sight {
            snapshot: wc.snapshot,
            writer: Some(wc.owner),
            ef_search: wc.ef_search,
        },
        env: wc.env,
    };
    let rs = run_select(&w, sel)?;
    Ok(rs.rows)
}

/// What an `INSERT` gives for each of its rows.
pub fn build_insert_slots(
    store: &Store,
    schema: &TableSchema,
    columns: &Option<Vec<String>>,
    source: &InsertSource,
    wc: &WriteCtx,
) -> (r: Result<Vec<Vec<Option<Value>>>, Stop>)
    ensures
        slots_result(r) == slots_of(
            store@,
            schema@,
            opt_strings_view(*columns),
            source@,
            wc@,
        ),
{
    let targets = insert_targets(schema, columns)?;
    let n: usize = schema.columns.len();
    assert(schema@.columns.len() == n);
    match source {
        InsertSource::Values(rows) => value_slots(rows, columns.is_some(), &targets, n, wc.env),
        InsertSource::Select(sel) => {
            let rows = rows_to_insert(store, sel, wc)?;
            query_slots(&rows, &targets, n)
        },
    }
}

} // verus!
