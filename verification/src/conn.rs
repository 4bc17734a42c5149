//! A connection: the state of its transaction, and what each statement does to it.
//!
//! A connection decides; a host owns the shared things. Before a statement that
//! [`writes`] the host takes the write lane, unless the connection holds it. What it
//! has to do afterwards the outcome says: nothing, give the lane back, have the
//! records of a transaction made durable, or have a definition made durable and put
//! into effect. Where a statement fails, the lane goes back unless the connection
//! still holds it.
use vstd::prelude::*;
use crate::asks::{Stop, StopV};
use crate::catalog::PolicyCommand;
use crate::ddl::{
    ddl_plan, defined, defines, fill_of, fill_value, finish_ddl, plan_ddl, plan_result, stored,
};
use crate::env::{Env, EnvV};
use crate::error::{txn_err, EngineError, EngineStatus, ErrorV};
use crate::group_commit::records_view;
use crate::inserts::{
    all_put, insert_draft, inserted, put_row, put_rows_from, run_insert, ProgressV, TermsV,
};
use crate::mvcc::{
    named_ids_view, pending_of, pending_sets_view, removals_from, rolled_back, saved_for,
    undone_from, PendingSet, PendingSetV,
};
use crate::query::{ResultSet, ResultV};
use crate::recovery::records;
use crate::relational::{World, WorldV};
use crate::runner::{run_select, selected};
use crate::select::Sight;
use crate::session::{new_session, session_after, SessionContext, SessionSet, SessionV};
use crate::sql::{SelectStmt, SelectV, Stmt, StmtV};
use crate::statements::VECTOR_EF_SEARCH_GUC;
use crate::store::{
    lemma_name_pos, store_ok, table_names, table_pos, with_table, Store, StoreV, TableV, VersionV,
};
use crate::text::{
    concat2, lower_chars, lower_text, names_match, nat_string, nat_text, owned, same_name, spells,
};
use crate::updates::{
    changes_put_from, delete_draft, deleted, deletes_put_from, run_delete, run_update, update_draft,
    updated,
};
use crate::value::{row_view, ColumnType, RowV, Value, ValueV};
use crate::wal::{ops_view, WalOp, WalOpV};
use crate::writes::{appended, superseded, wrote, DraftV, Mutation, MutationV, WriteCtx, WriteV};

verus! {

// ---- state ----------------------------------------------------------------------------------------

/// A place in a transaction to come back to.
pub struct Savepoint {
    pub name: String,
    /// What the transaction had pending.
    pub pending: Vec<PendingSet>,
    /// How many operations it had.
    pub wal_len: usize,
}

pub struct SavepointV {
    pub name: Seq<char>,
    pub pending: Seq<PendingSetV>,
    pub wal_len: nat,
}

impl View for Savepoint {
    type V = SavepointV;

    open spec fn view(&self) -> SavepointV {
        SavepointV {
            name: self.name@,
            pending: pending_sets_view(self.pending@),
            wal_len: self.wal_len as nat,
        }
    }
}

pub open spec fn savepoints_view(v: Seq<Savepoint>) -> Seq<SavepointV> {
    Seq::new(v.len(), |i: int| v[i]@)
}

pub struct Txn {
    /// The snapshot that it reads.
    pub snapshot: u64,
    /// Whether it holds the write lane.
    pub writer: bool,
    /// The operations to be made durable when it commits.
    pub wal_ops: Vec<WalOp>,
    /// The owner of its pending versions.
    pub owner: u64,
    pub savepoints: Vec<Savepoint>,
}

pub struct TxnV {
    pub snapshot: u64,
    pub writer: bool,
    pub wal_ops: Seq<WalOpV>,
    pub owner: u64,
    pub savepoints: Seq<SavepointV>,
}

impl View for Txn {
    type V = TxnV;

    open spec fn view(&self) -> TxnV {
        TxnV {
            snapshot: self.snapshot,
            writer: self.writer,
            wal_ops: ops_view(self.wal_ops@),
            owner: self.owner,
            savepoints: savepoints_view(self.savepoints@),
        }
    }
}

pub open spec fn opt_txn_view(o: Option<Txn>) -> Option<TxnV> {
    match o {
        Some(t) => Some(t@),
        None => None,
    }
}

pub open spec fn new_txn(snapshot: u64, owner: u64, writer: bool) -> TxnV {
    TxnV { snapshot, writer, wal_ops: Seq::empty(), owner, savepoints: Seq::empty() }
}

impl Txn {
    pub fn new(snapshot: u64, owner: u64, writer: bool) -> (t: Txn)
        ensures
            t@ == new_txn(snapshot, owner, writer),
    {
        let t = Txn {
            snapshot,
            writer,
            wal_ops: Vec::new(),
            owner,
            savepoints: Vec::new(),
        };
        assert(ops_view(t.wal_ops@) =~= Seq::<WalOpV>::empty());
        assert(savepoints_view(t.savepoints@) =~= Seq::<SavepointV>::empty());
        t
    }
}

pub struct Connection {
    pub txn: Option<Txn>,
    /// How many rows the last statement touched.
    pub last_changes: i64,
    /// The sequence number of the last commit.
    pub last_lsn: i64,
    /// The session's search width for vector indexes.
    pub vector_ef_search: Option<usize>,
    pub session: SessionContext,
}

pub struct ConnV {
    pub txn: Option<TxnV>,
    pub last_changes: i64,
    pub last_lsn: i64,
    pub vector_ef_search: Option<usize>,
    pub session: SessionV,
}

impl View for Connection {
    type V = ConnV;

    open spec fn view(&self) -> ConnV {
        ConnV {
            txn: opt_txn_view(self.txn),
            last_changes: self.last_changes,
            last_lsn: self.last_lsn,
            vector_ef_search: self.vector_ef_search,
            session: self.session@,
        }
    }
}

pub open spec fn new_conn() -> ConnV {
    ConnV {
        txn: None,
        last_changes: 0,
        last_lsn: 0,
        vector_ef_search: None,
        session: new_session(),
    }
}

/// Whether a connection holds the write lane.
pub open spec fn holds_lane(c: ConnV) -> bool {
    c.txn is Some && c.txn->0.writer
}

/// What a host has to do behind a statement.
pub enum Next {
    Nothing,
    /// Give the write lane back.
    Release,
    /// Have a transaction made durable.
    Append { owner: u64, ops: Vec<WalOp> },
    /// Have a definition made durable, and put it into effect.
    Define { op: WalOp },
}

pub enum NextV {
    Nothing,
    Release,
    Append { owner: u64, ops: Seq<WalOpV> },
    Define { op: WalOpV },
}

impl View for Next {
    type V = NextV;

    open spec fn view(&self) -> NextV {
        match self {
            Next::Nothing => NextV::Nothing,
            Next::Release => NextV::Release,
            Next::Append { owner, ops } => NextV::Append { owner: *owner, ops: ops_view(ops@) },
            Next::Define { op } => NextV::Define { op: op@ },
        }
    }
}

/// What a statement gave.
pub struct Outcome {
    pub result: ResultSet,
    pub next: Next,
    /// Per table, the versions that a rollback removed, for indexes to follow.
    pub gone: Vec<(String, Vec<u64>)>,
}

pub struct OutcomeV {
    pub result: ResultV,
    pub next: NextV,
    pub gone: Seq<(Seq<char>, Seq<u64>)>,
}

impl View for Outcome {
    type V = OutcomeV;

    open spec fn view(&self) -> OutcomeV {
        OutcomeV {
            result: self.result@,
            next: self.next@,
            gone: named_ids_view(self.gone@),
        }
    }
}

pub open spec fn outcome_result(r: Result<Outcome, Stop>) -> Result<OutcomeV, StopV> {
    match r {
        Ok(o) => Ok(o@),
        Err(s) => Err(s@),
    }
}

/// No rows.
pub open spec fn no_rows() -> ResultV {
    ResultV { columns: Seq::empty(), types: Seq::empty(), rows: Seq::empty() }
}

fn empty_set() -> (r: ResultSet)
    ensures
        r@ == no_rows(),
{
    let r = ResultSet { columns: Vec::new(), types: Vec::new(), rows: Vec::new() };
    assert(r@.columns =~= no_rows().columns);
    assert(r@.types =~= no_rows().types);
    assert(r@.rows =~= no_rows().rows);
    r
}

pub open spec fn gave(result: ResultV, next: NextV) -> OutcomeV {
    OutcomeV { result, next, gone: Seq::empty() }
}

fn give(result: ResultSet, next: Next) -> (o: Outcome)
    ensures
        o@ == gave(result@, next@),
{
    let gone: Vec<(String, Vec<u64>)> = Vec::new();
    assert(named_ids_view(gone@) =~= Seq::<(Seq<char>, Seq<u64>)>::empty());
    Outcome { result, next, gone }
}

/// Where a connection and the store stand after a statement, and what it gave.
pub struct RanV {
    pub conn: ConnV,
    pub store: StoreV,
    pub out: Result<OutcomeV, StopV>,
}

pub open spec fn txn_fail(m: Seq<char>) -> StopV {
    StopV::Fail(txn_err(m))
}

fn txn_stop(m: String) -> (s: Stop)
    ensures
        s@ == txn_fail(m@),
{
    Stop::Fail(EngineError::txn(m))
}

// ---- transactions ---------------------------------------------------------------------------------

pub open spec fn begun(c: ConnV, s: StoreV, owner: u64) -> RanV {
    if c.txn is Some {
        RanV { conn: c, store: s, out: Err(txn_fail("a transaction is already active"@)) }
    } else {
        RanV {
            conn: ConnV { txn: Some(new_txn(s.committed_lsn, owner, false)), ..c },
            store: s,
            out: Ok(gave(no_rows(), NextV::Nothing)),
        }
    }
}

/// What a transaction that commits leaves to do: its records become durable; where
/// it has none, a held lane goes back.
pub open spec fn commit_next(t: TxnV) -> NextV {
    if !t.writer {
        NextV::Nothing
    } else if t.wal_ops.len() == 0 {
        NextV::Release
    } else {
        NextV::Append { owner: t.owner, ops: t.wal_ops }
    }
}

pub open spec fn committing(c: ConnV, s: StoreV) -> RanV {
    match c.txn {
        None => RanV {
            conn: c,
            store: s,
            out: Err(txn_fail("no active transaction to commit"@)),
        },
        Some(t) => RanV {
            conn: ConnV { txn: None, ..c },
            store: s,
            out: Ok(gave(no_rows(), commit_next(t))),
        },
    }
}

/// The store without what a transaction has pending, and what that removed.
pub open spec fn torn_down(s: StoreV, t: TxnV) -> (StoreV, Seq<(Seq<char>, Seq<u64>)>) {
    if t.writer {
        (
            rolled_back(s, t.owner, Seq::empty()),
            removals_from(s.tables, t.owner, Seq::empty(), 0, Seq::empty()),
        )
    } else {
        (s, Seq::empty())
    }
}

pub open spec fn rolling_back(c: ConnV, s: StoreV) -> RanV {
    match c.txn {
        None => RanV {
            conn: c,
            store: s,
            out: Err(txn_fail("no active transaction to roll back"@)),
        },
        Some(t) => RanV {
            conn: ConnV { txn: None, ..c },
            store: torn_down(s, t).0,
            out: Ok(
                OutcomeV {
                    result: no_rows(),
                    next: if t.writer {
                        NextV::Release
                    } else {
                        NextV::Nothing
                    },
                    gone: torn_down(s, t).1,
                },
            ),
        },
    }
}

pub open spec fn saved(c: ConnV, s: StoreV, name: Seq<char>) -> RanV {
    match c.txn {
        None => RanV {
            conn: c,
            store: s,
            out: Err(txn_fail("SAVEPOINT requires an active transaction"@)),
        },
        Some(t) => RanV {
            conn: ConnV {
                txn: Some(
                    TxnV {
                        savepoints: t.savepoints.push(
                            SavepointV {
                                name,
                                pending: pending_of(s, t.owner),
                                wal_len: t.wal_ops.len(),
                            },
                        ),
                        ..t
                    },
                ),
                ..c
            },
            store: s,
            out: Ok(gave(no_rows(), NextV::Nothing)),
        },
    }
}

/// The last of the first `n` savepoints with a name, case ignored.
pub open spec fn savepoint_pos(v: Seq<SavepointV>, name: Seq<char>, n: int) -> Option<int>
    decreases n,
{
    if n <= 0 || n > v.len() {
        None
    } else if same_name(v[n - 1].name, name) {
        Some(n - 1)
    } else {
        savepoint_pos(v, name, n - 1)
    }
}

pub open spec fn released(c: ConnV, s: StoreV, name: Seq<char>) -> RanV {
    match c.txn {
        None => RanV {
            conn: c,
            store: s,
            out: Err(txn_fail("RELEASE requires an active transaction"@)),
        },
        Some(t) => match savepoint_pos(t.savepoints, name, t.savepoints.len() as int) {
            None => RanV {
                conn: c,
                store: s,
                out: Err(txn_fail("no such savepoint: "@ + name)),
            },
            Some(at) => RanV {
                conn: ConnV {
                    txn: Some(TxnV { savepoints: t.savepoints.take(at), ..t }),
                    ..c
                },
                store: s,
                out: Ok(gave(no_rows(), NextV::Nothing)),
            },
        },
    }
}

/// The first `n` operations, or all where there are fewer.
pub open spec fn cut(ops: Seq<WalOpV>, n: nat) -> Seq<WalOpV> {
    if n < ops.len() {
        ops.take(n as int)
    } else {
        ops
    }
}

pub open spec fn back_to(c: ConnV, s: StoreV, name: Seq<char>) -> RanV {
    match c.txn {
        None => RanV {
            conn: c,
            store: s,
            out: Err(txn_fail("ROLLBACK TO requires an active transaction"@)),
        },
        Some(t) => match savepoint_pos(t.savepoints, name, t.savepoints.len() as int) {
            None => RanV {
                conn: c,
                store: s,
                out: Err(txn_fail("no such savepoint: "@ + name)),
            },
            Some(at) => {
                let sp = t.savepoints[at];
                RanV {
                    conn: ConnV {
                        txn: Some(
                            TxnV {
                                wal_ops: cut(t.wal_ops, sp.wal_len),
                                savepoints: t.savepoints.take(at + 1),
                                ..t
                            },
                        ),
                        ..c
                    },
                    store: if t.writer {
                        rolled_back(s, t.owner, sp.pending)
                    } else {
                        s
                    },
                    out: Ok(
                        OutcomeV {
                            result: no_rows(),
                            next: NextV::Nothing,
                            gone: if t.writer {
                                removals_from(s.tables, t.owner, sp.pending, 0, Seq::empty())
                            } else {
                                Seq::empty()
                            },
                        },
                    ),
                }
            },
        },
    }
}

fn find_savepoint(v: &Vec<Savepoint>, name: &str) -> (r: Option<usize>)
    ensures
        savepoint_pos(savepoints_view(v@), name@, v@.len() as int) == (match r {
            Some(p) => Some(p as int),
            None => None,
        }),
        r is Some ==> r->0 < v@.len(),
{
    let ghost sv = savepoints_view(v@);
    let mut n: usize = v.len();
    while n > 0
        invariant
            n <= v@.len(),
            sv == savepoints_view(v@),
            savepoint_pos(sv, name@, n as int) == savepoint_pos(sv, name@, v@.len() as int),
        decreases n,
    {
        assert(sv[n - 1] == v@[n - 1]@);
        if names_match(&v[n - 1].name, name) {
            return Some(n - 1);
        }
        n -= 1;
    }
    None
}

fn no_gone() -> (r: Vec<(String, Vec<u64>)>)
    ensures
        named_ids_view(r@) == Seq::<(Seq<char>, Seq<u64>)>::empty(),
{
    let gone: Vec<(String, Vec<u64>)> = Vec::new();
    assert(named_ids_view(gone@) =~= Seq::<(Seq<char>, Seq<u64>)>::empty());
    gone
}

impl Connection {
    pub fn new() -> (c: Connection)
        ensures
            c@ == new_conn(),
    {
        Connection {
            txn: None,
            last_changes: 0,
            last_lsn: 0,
            vector_ef_search: None,
            session: SessionContext::default(),
        }
    }

    pub fn in_transaction(&self) -> (r: bool)
        ensures
            r == (self@.txn is Some),
    {
        self.txn.is_some()
    }

    /// Whether this connection holds the write lane.
    pub fn is_writer(&self) -> (r: bool)
        ensures
            r == holds_lane(self@),
    {
        match &self.txn {
            Some(t) => t.writer,
            None => false,
        }
    }

    /// Whether the write lane has to be taken for a statement: a writer holds it already,
    /// and within a transaction a definition is refused.
    pub fn takes_lane(&self, stmt: &Stmt) -> (r: bool)
        ensures
            r == (!holds_lane(self@) && (is_dml(stmt@) || (defines(stmt@) && self@.txn is None))),
    {
        !self.is_writer() && (writes_rows(stmt) || (is_definition(stmt) && !self.in_transaction()))
    }

    /// Start a transaction that reads what is committed now.
    pub fn begin(&mut self, store: &Store, owner: u64) -> (r: Result<Outcome, Stop>)
        ensures
            begun(old(self)@, store@, owner) == (RanV {
                conn: final(self)@,
                store: store@,
                out: outcome_result(r),
            }),
    {
        if self.txn.is_some() {
            return Err(txn_stop(owned("a transaction is already active")));
        }
        self.txn = Some(Txn::new(store.committed_lsn, owner, false));
        Ok(give(empty_set(), Next::Nothing))
    }

    /// End the transaction; its records are still to be made durable.
    pub fn commit(&mut self, store: &Store) -> (r: Result<Outcome, Stop>)
        ensures
            committing(old(self)@, store@) == (RanV {
                conn: final(self)@,
                store: store@,
                out: outcome_result(r),
            }),
    {
        match self.txn.take() {
            None => Err(txn_stop(owned("no active transaction to commit"))),
            Some(t) => Ok(give(empty_set(), finish_commit(t))),
        }
    }

    /// Give the transaction up.
    pub fn rollback(&mut self, store: &mut Store) -> (r: Result<Outcome, Stop>)
        requires
            store_ok(old(store)@),
        ensures
            rolling_back(old(self)@, old(store)@) == (RanV {
                conn: final(self)@,
                store: final(store)@,
                out: outcome_result(r),
            }),
            store_ok(final(store)@),
    {
        match self.txn.take() {
            None => Err(txn_stop(owned("no active transaction to roll back"))),
            Some(t) => {
                let next = if t.writer {
                    Next::Release
                } else {
                    Next::Nothing
                };
                let gone = tear_down(store, &t);
                Ok(Outcome { result: empty_set(), next, gone })
            },
        }
    }

    /// Set a savepoint. A later one with the same name hides an earlier one.
    pub fn savepoint(&mut self, store: &Store, name: &str) -> (r: Result<Outcome, Stop>)
        ensures
            saved(old(self)@, store@, name@) == (RanV {
                conn: final(self)@,
                store: store@,
                out: outcome_result(r),
            }),
    {
        match self.txn.take() {
            None => Err(txn_stop(owned("SAVEPOINT requires an active transaction"))),
            Some(txn) => {
                let mut t = txn;
                let ghost before = savepoints_view(t.savepoints@);
                let sp = Savepoint {
                    name: owned(name),
                    pending: store.pending_snapshot(t.owner),
                    wal_len: t.wal_ops.len(),
                };
                let ghost sv = sp@;
                t.savepoints.push(sp);
                assert(savepoints_view(t.savepoints@) =~= before.push(sv));
                self.txn = Some(t);
                Ok(give(empty_set(), Next::Nothing))
            },
        }
    }

    /// Forget a savepoint and those set after it; what was done since stays.
    pub fn release_savepoint(&mut self, store: &Store, name: &str) -> (r: Result<Outcome, Stop>)
        ensures
            released(old(self)@, store@, name@) == (RanV {
                conn: final(self)@,
                store: store@,
                out: outcome_result(r),
            }),
    {
        match self.txn.take() {
            None => Err(txn_stop(owned("RELEASE requires an active transaction"))),
            Some(txn) => {
                let mut t = txn;
                let ghost tv = t@;
                match find_savepoint(&t.savepoints, name) {
                    None => {
                        self.txn = Some(t);
                        Err(txn_stop(concat2("no such savepoint: ", name)))
                    },
                    Some(at) => {
                        t.savepoints.truncate(at);
                        assert(savepoints_view(t.savepoints@) =~= tv.savepoints.take(at as int));
                        self.txn = Some(t);
                        Ok(give(empty_set(), Next::Nothing))
                    },
                }
            },
        }
    }

    /// Undo what was done since a savepoint, which stays; later ones go.
    pub fn rollback_to(&mut self, store: &mut Store, name: &str) -> (r: Result<Outcome, Stop>)
        requires
            store_ok(old(store)@),
        ensures
            back_to(old(self)@, old(store)@, name@) == (RanV {
                conn: final(self)@,
                store: final(store)@,
                out: outcome_result(r),
            }),
            store_ok(final(store)@),
    {
        match self.txn.take() {
            None => Err(txn_stop(owned("ROLLBACK TO requires an active transaction"))),
            Some(txn) => {
                let mut t = txn;
                let ghost tv = t@;
                match find_savepoint(&t.savepoints, name) {
                    None => {
                        self.txn = Some(t);
                        Err(txn_stop(concat2("no such savepoint: ", name)))
                    },
                    Some(at) => {
                        assert(tv.savepoints[at as int] == t.savepoints@[at as int]@);
                        let gone = if t.writer {
                            store.rollback_to_savepoint(t.owner, &t.savepoints[at].pending)
                        } else {
                            no_gone()
                        };
                        let wal_len: usize = t.savepoints[at].wal_len;
                        if wal_len < t.wal_ops.len() {
                            t.wal_ops.truncate(wal_len);
                            assert(ops_view(t.wal_ops@) =~= tv.wal_ops.take(wal_len as int));
                        }
                        let count: usize = t.savepoints.len();
                        assert(at < count);
                        t.savepoints.truncate(at + 1);
                        assert(savepoints_view(t.savepoints@) =~= tv.savepoints.take(at + 1));
                        self.txn = Some(t);
                        Ok(Outcome { result: empty_set(), next: Next::Nothing, gone })
                    },
                }
            },
        }
    }
}

fn finish_commit(t: Txn) -> (n: Next)
    ensures
        n@ == commit_next(t@),
{
    if !t.writer {
        Next::Nothing
    } else if t.wal_ops.len() == 0 {
        Next::Release
    } else {
        Next::Append { owner: t.owner, ops: t.wal_ops }
    }
}

fn tear_down(store: &mut Store, t: &Txn) -> (gone: Vec<(String, Vec<u64>)>)
    requires
        store_ok(old(store)@),
    ensures
        (final(store)@, named_ids_view(gone@)) == torn_down(old(store)@, t@),
        store_ok(final(store)@),
{
    if t.writer {
        store.rollback_owner(t.owner)
    } else {
        no_gone()
    }
}

// ---- DML ------------------------------------------------------------------------------------------

/// What a statement that writes rows does to a store.
#[verifier::opaque]
pub open spec fn dml(s: StoreV, q: StmtV, wc: WriteV) -> Result<(StoreV, MutationV), StopV> {
    match q {
        StmtV::Insert { table, columns, source, on_conflict, returning } => inserted(
            s,
            table,
            columns,
            source,
            on_conflict,
            returning,
            wc,
        ),
        StmtV::Update { table, sets, from, filter, returning } => updated(
            s,
            table,
            sets,
            from,
            filter,
            returning,
            wc,
        ),
        StmtV::Delete { table, using, filter, returning } => deleted(
            s,
            table,
            using,
            filter,
            returning,
            wc,
        ),
        _ => Ok((s, MutationV { wal: Seq::empty(), changes: 0, result: None })),
    }
}

pub open spec fn is_dml(q: StmtV) -> bool {
    q is Insert || q is Update || q is Delete
}

proof fn lemma_put_schema(t: TermsV, rows: Seq<RowV>, i: int, p: ProgressV)
    requires
        put_rows_from(t, rows, i, p) is Ok,
    ensures
        put_rows_from(t, rows, i, p)->Ok_0.draft.table.schema == p.draft.table.schema,
    decreases rows.len() - i,
{
    if 0 <= i < rows.len() {
        lemma_put_schema(t, rows, i + 1, put_row(t, p, rows[i], i as u64)->Ok_0);
    }
}

proof fn lemma_change_schema(d: DraftV, name: Seq<char>, c: Seq<(u64, RowV)>, owner: u64, i: int)
    ensures
        changes_put_from(d, name, c, owner, i) is Ok ==> changes_put_from(
            d,
            name,
            c,
            owner,
            i,
        )->Ok_0.table.schema == d.table.schema,
        deletes_put_from(d, name, c, owner, i).table.schema == d.table.schema,
    decreases c.len() - i,
{
    if 0 <= i < c.len() {
        let e = superseded(d, name, c[i].0, owner);
        lemma_change_schema(e, name, c, owner, i + 1);
        match appended(e, name, c[i].1, owner) {
            Ok(f) => {
                lemma_change_schema(f, name, c, owner, i + 1);
            },
            Err(_) => {},
        }
    }
}

/// Writing rows leaves the catalog as it is.
pub open spec fn same_catalog(s: StoreV, t: StoreV) -> bool {
    &&& t.indexes == s.indexes
    &&& t.views == s.views
    &&& t.committed_lsn == s.committed_lsn
    &&& t.tables.len() == s.tables.len()
    &&& forall|i: int|
        0 <= i < s.tables.len() ==> (#[trigger] t.tables[i]).schema == s.tables[i].schema
}

proof fn lemma_same_catalog(s: StoreV, t: StoreV)
    requires
        store_ok(s),
        same_catalog(s, t),
    ensures
        store_ok(t),
{
    assert(table_names(t.tables) =~= table_names(s.tables));
}

proof fn lemma_finish(s: StoreV, name: Seq<char>, d: DraftV)
    requires
        table_pos(s, name) is Some,
        d.table.schema == s.tables[table_pos(s, name)->0].schema,
    ensures
        same_catalog(s, with_table(s, table_pos(s, name)->0, d.table)),
{
    lemma_name_pos(table_names(s.tables), name, 0);
}

/// A statement that writes rows leaves every table's definition, the indexes, the
/// views and what is committed as they are.
pub proof fn law_dml_keeps_catalog(s: StoreV, q: StmtV, wc: WriteV)
    requires
        dml(s, q, wc) is Ok,
    ensures
        same_catalog(s, dml(s, q, wc)->Ok_0.0),
{
    reveal(dml);
    match q {
        StmtV::Insert { table, columns, source, on_conflict, returning } => {
            let i = table_pos(s, table)->0;
            let t0 = s.tables[i];
            let d = insert_draft(s, t0, table, columns, source, on_conflict, wc)->Ok_0;
            let slots = crate::writes::slots_of(s, t0.schema, columns, source, wc)->Ok_0;
            let (rows, auto) = crate::inserts::staged_of(
                slots,
                t0.schema,
                table,
                t0.next_autoinc,
                wc.env,
            )->Ok_0;
            let t = TableV { next_autoinc: auto, ..t0 };
            let terms = crate::inserts::terms_of(
                s,
                t0,
                table,
                on_conflict,
                crate::inserts::clash_rules(t0.schema, on_conflict, wc.env)->Ok_0,
                wc,
            );
            let p = ProgressV {
                draft: crate::writes::fresh_draft(t),
                live: crate::inserts::live_from(
                    t.rows,
                    terms.pk,
                    s.committed_lsn,
                    wc.owner,
                    0,
                    Seq::empty(),
                ),
            };
            assert(all_put(s, t, terms, rows, wc) == Ok::<DraftV, StopV>(d));
            lemma_put_schema(terms, rows, 0, p);
            lemma_finish(s, table, d);
        },
        StmtV::Update { table, sets, from, filter, returning } => {
            let i = table_pos(s, table)->0;
            let t0 = s.tables[i];
            let d = update_draft(s, t0, table, sets, from, filter, wc)->Ok_0;
            let c = crate::updates::changes_of(s, t0, table, sets, from, filter, wc)->Ok_0;
            lemma_change_schema(crate::writes::fresh_draft(t0), table, c, wc.owner, 0);
            lemma_finish(s, table, d);
        },
        StmtV::Delete { table, using, filter, returning } => {
            let i = table_pos(s, table)->0;
            let t0 = s.tables[i];
            let d = delete_draft(s, t0, table, using, filter, wc)->Ok_0;
            let src = crate::updates::sources_of(s, t0.schema, table, using, wc)->Ok_0;
            let guard = crate::policy::guard_of(t0.schema, PolicyCommand::Delete, wc.env)->Ok_0;
            let c = crate::updates::deletes_from(
                t0.rows,
                t0.schema,
                guard,
                src,
                filter,
                wc,
                0,
                Seq::empty(),
            )->Ok_0;
            lemma_change_schema(crate::writes::fresh_draft(t0), table, c, wc.owner, 0);
            lemma_finish(s, table, d);
        },
        _ => {},
    }
}

fn write_rows(store: &mut Store, stmt: &Stmt, wc: &WriteCtx) -> (r: Result<Mutation, Stop>)
    requires
        store_ok(old(store)@),
    ensures
        wrote(r, old(store)@, final(store)@, dml(old(store)@, stmt@, wc@)),
        store_ok(final(store)@),
{
    let ghost before = store@;
    proof {
        reveal(dml);
    }
    let r = match stmt {
        Stmt::Insert { table, columns, source, on_conflict, returning } => run_insert(
            store,
            table,
            columns,
            source,
            on_conflict,
            returning,
            wc,
        ),
        Stmt::Update { table, sets, from, filter, returning } => run_update(
            store,
            table,
            sets,
            from,
            filter,
            returning,
            wc,
        ),
        Stmt::Delete { table, using, filter, returning } => run_delete(
            store,
            table,
            using,
            filter,
            returning,
            wc,
        ),
        _ => {
            let wal: Vec<WalOp> = Vec::new();
            assert(ops_view(wal@) =~= Seq::<WalOpV>::empty());
            Ok(Mutation { wal, changes: 0, result: None })
        },
    };
    proof {
        if r is Ok {
            law_dml_keeps_catalog(before, stmt@, wc@);
            lemma_same_catalog(before, store@);
        }
    }
    r
}

pub open spec fn width(ef: Option<usize>) -> Option<u64> {
    match ef {
        Some(n) => Some(n as u64),
        None => None,
    }
}

pub open spec fn write_ctx(t: TxnV, c: ConnV, env: EnvV) -> WriteV {
    WriteV {
        snapshot: t.snapshot,
        owner: t.owner,
        ef_search: width(c.vector_ef_search),
        env,
    }
}

/// The transaction that a statement writes in: the one there is, else one of its
/// own.
pub open spec fn writing_txn(c: ConnV, s: StoreV, owner: u64) -> TxnV {
    match c.txn {
        Some(t) => TxnV { writer: true, ..t },
        None => new_txn(s.committed_lsn, owner, true),
    }
}

pub open spec fn result_or_empty(o: Option<ResultV>) -> ResultV {
    match o {
        Some(r) => r,
        None => no_rows(),
    }
}

/// What a statement that writes rows does. Outside a transaction it is one of its
/// own, which commits at once or leaves nothing. Inside one, a statement that fails
/// leaves what was pending before.
pub open spec fn wrote_rows(c: ConnV, s: StoreV, q: StmtV, owner: u64, env: EnvV) -> RanV {
    let t = writing_txn(c, s, owner);
    match dml(s, q, write_ctx(t, c, env)) {
        Err(e) => if c.txn is Some {
            RanV { conn: ConnV { txn: Some(t), ..c }, store: s, out: Err(e) }
        } else {
            RanV { conn: c, store: torn_down(s, t).0, out: Err(e) }
        },
        Ok((after, m)) => {
            let u = TxnV { wal_ops: t.wal_ops + m.wal, ..t };
            RanV {
                conn: ConnV {
                    txn: if c.txn is Some {
                        Some(u)
                    } else {
                        None
                    },
                    last_changes: m.changes,
                    ..c
                },
                store: after,
                out: Ok(
                    gave(
                        result_or_empty(m.result),
                        if c.txn is Some {
                            NextV::Nothing
                        } else {
                            commit_next(u)
                        },
                    ),
                ),
            }
        },
    }
}

fn width_of(ef: Option<usize>) -> (r: Option<u64>)
    ensures
        r == width(ef),
{
    match ef {
        Some(n) => Some(n as u64),
        None => None,
    }
}

impl Connection {
    /// Run a statement that writes rows.
    pub fn exec_dml(&mut self, store: &mut Store, stmt: &Stmt, owner: u64, env: &Env) -> (r: Result<
        Outcome,
        Stop,
    >)
        requires
            store_ok(old(store)@),
        ensures
            wrote_rows(old(self)@, old(store)@, stmt@, owner, env@) == (RanV {
                conn: final(self)@,
                store: final(store)@,
                out: outcome_result(r),
            }),
            store_ok(final(store)@),
    {
        let ghost c0 = self@;
        let ghost s0 = store@;
        let implicit = self.txn.is_none();
        let mut txn = match self.txn.take() {
            Some(t) => t,
            None => Txn::new(store.committed_lsn, owner, true),
        };
        txn.writer = true;
        let ghost tv = txn@;
        assert(tv == writing_txn(c0, s0, owner));
        let wc = WriteCtx {
            snapshot: txn.snapshot,
            owner: txn.owner,
            ef_search: width_of(self.vector_ef_search),
            env,
        };
        assert(wc@ == write_ctx(tv, c0, env@));
        match write_rows(store, stmt, &wc) {
            Ok(m) => {
                let ghost mv = m@;
                let mut wal = m.wal;
                txn.wal_ops.append(&mut wal);
                assert(ops_view(txn.wal_ops@) =~= tv.wal_ops + mv.wal);
                self.last_changes = m.changes;
                let result = match m.result {
                    Some(r) => r,
                    None => empty_set(),
                };
                if implicit {
                    Ok(give(result, finish_commit(txn)))
                } else {
                    self.txn = Some(txn);
                    Ok(give(result, Next::Nothing))
                }
            },
            Err(e) => {
                if implicit {
                    let _gone = tear_down(store, &txn);
                } else {
                    self.txn = Some(txn);
                }
                Err(e)
            },
        }
    }
}

// ---- DDL ------------------------------------------------------------------------------------------

/// What a definition comes to. What a column that is added needs to be filled is
/// asked for at this point, before anything becomes durable.
#[verifier::opaque]
pub open spec fn foreseen(s: StoreV, q: StmtV, env: EnvV) -> Result<Option<WalOpV>, StopV> {
    match ddl_plan(s, q, env.reals) {
        Ok(Some(WalOpV::AlterAddColumn { table, column })) => match fill_of(column, env) {
            Err(e) => Err(e),
            Ok(_) => Ok(Some(WalOpV::AlterAddColumn { table, column })),
        },
        r => r,
    }
}

fn foresee(store: &Store, stmt: &Stmt, env: &Env) -> (r: Result<Option<WalOp>, Stop>)
    ensures
        plan_result(r) == foreseen(store@, stmt@, env@),
{
    proof {
        reveal(foreseen);
    }
    let plan = plan_ddl(store, stmt, env.reals)?;
    match &plan {
        Some(WalOp::AlterAddColumn { column, .. }) => {
            let _fill = fill_value(column, env)?;
        },
        _ => {},
    }
    Ok(plan)
}

/// What a definition does before it is durable. It runs outside transactions only.
pub open spec fn defining(c: ConnV, s: StoreV, q: StmtV, env: EnvV) -> RanV {
    if c.txn is Some {
        RanV {
            conn: c,
            store: s,
            out: Err(
                txn_fail(
                    "DDL is only supported in autocommit (not inside a transaction) in Phase 1"@,
                ),
            ),
        }
    } else {
        RanV {
            conn: ConnV { last_changes: 0, ..c },
            store: s,
            out: match foreseen(s, q, env) {
                Err(e) => Err(e),
                Ok(None) => Ok(gave(no_rows(), NextV::Release)),
                Ok(Some(op)) => Ok(gave(no_rows(), NextV::Define { op })),
            },
        }
    }
}

impl Connection {
    pub fn exec_ddl(&mut self, store: &Store, stmt: &Stmt, env: &Env) -> (r: Result<Outcome, Stop>)
        ensures
            defining(old(self)@, store@, stmt@, env@) == (RanV {
                conn: final(self)@,
                store: store@,
                out: outcome_result(r),
            }),
    {
        if self.txn.is_some() {
            return Err(
                txn_stop(
                    owned(
                        "DDL is only supported in autocommit (not inside a transaction) in Phase 1",
                    ),
                ),
            );
        }
        self.last_changes = 0;
        match foresee(store, stmt, env)? {
            None => Ok(give(empty_set(), Next::Release)),
            Some(op) => Ok(give(empty_set(), Next::Define { op })),
        }
    }

    /// Put a definition that became durable at `lsn` into effect.
    pub fn define(&mut self, store: &mut Store, stmt: Stmt, op: &WalOp, lsn: u64, env: &Env) -> (r:
        Result<(), Stop>)
        requires
            store_ok(old(store)@),
        ensures
            stored(
                r,
                old(store)@,
                final(store)@,
                defined(old(store)@, stmt@, op@, lsn, own_env(old(self)@, env@)),
            ),
            store_ok(final(store)@),
            final(self)@ == (if r is Ok {
                ConnV { last_lsn: lsn as i64, ..old(self)@ }
            } else {
                old(self)@
            }),
    {
        let own = Env {
            reals: env.reals,
            now: env.now,
            params: env.params,
            session: &self.session,
            place: env.place,
        };
        finish_ddl(store, stmt, op, lsn, &own)?;
        self.last_lsn = #[verifier::truncate] (lsn as i64);
        Ok(())
    }

    /// Take note of the sequence number at which a transaction became durable.
    pub fn acknowledge(&mut self, lsn: u64)
        ensures
            final(self)@ == (ConnV { last_lsn: lsn as i64, ..old(self)@ }),
    {
        self.last_lsn = #[verifier::truncate] (lsn as i64);
    }
}

/// The records of a transaction.
pub fn encode_records(ops: &[WalOp]) -> (r: Vec<Vec<u8>>)
    ensures
        records_view(r@) == records(ops_view(ops@)),
{
    proof {
        reveal(crate::recovery::record);
    }
    let ghost want = records(ops_view(ops@));
    let mut out: Vec<Vec<u8>> = Vec::new();
    assert(records_view(out@) =~= want.take(0));
    let mut i: usize = 0;
    while i < ops.len()
        invariant
            i <= ops.len(),
            want == records(ops_view(ops@)),
            records_view(out@) == want.take(i as int),
        decreases ops.len() - i,
    {
        proof {
            reveal(crate::recovery::record);
        }
        let ghost before = records_view(out@);
        let rec = ops[i].encode();
        let ghost rv = rec@;
        assert(ops_view(ops@)[i as int] == ops@[i as int]@);
        out.push(rec);
        assert(records_view(out@) =~= before.push(rv));
        assert(want.take(i + 1) =~= before.push(rv));
        i += 1;
    }
    let ghost before = records_view(out@);
    let mark = WalOp::Commit.encode();
    let ghost mv = mark@;
    out.push(mark);
    assert(records_view(out@) =~= before.push(mv));
    assert(want =~= before.push(mv));
    out
}

// ---- the rest -------------------------------------------------------------------------------------

/// What a `SHOW` gives: one row with one text.
pub open spec fn one_text(column: Seq<char>, value: Seq<char>) -> ResultV {
    ResultV {
        columns: seq![column],
        types: seq![ColumnType::Text],
        rows: seq![seq![ValueV::Text(value)]],
    }
}

fn text_row(column: String, value: String) -> (r: ResultSet)
    ensures
        r@ == one_text(column@, value@),
{
    let ghost cv = column@;
    let ghost vv = value@;
    let mut columns: Vec<String> = Vec::new();
    columns.push(column);
    let mut types: Vec<ColumnType> = Vec::new();
    types.push(ColumnType::Text);
    let mut row: Vec<Value> = Vec::new();
    row.push(Value::Text(value));
    assert(row_view(row@) =~= seq![ValueV::Text(vv)]);
    let mut rows: Vec<Vec<Value>> = Vec::new();
    rows.push(row);
    let r = ResultSet { columns, types, rows };
    assert(r@.columns =~= seq![cv]);
    assert(r@.types =~= seq![ColumnType::Text]);
    assert(r@.rows =~= seq![seq![ValueV::Text(vv)]]);
    r
}

/// The value of a setting: the isolation level under its names, else nothing.
pub open spec fn setting(name: Seq<char>) -> Seq<char> {
    let key = lower_text(name);
    if key == "transaction_isolation"@ || key == "default_transaction_isolation"@ || key
        == "transaction isolation level"@ {
        "repeatable read"@
    } else {
        ""@
    }
}

pub open spec fn shown(name: Seq<char>) -> ResultV {
    one_text(
        if name.len() == 0 {
            "setting"@
        } else {
            name
        },
        setting(name),
    )
}

pub fn show_result(name: &str) -> (r: ResultSet)
    ensures
        r@ == shown(name@),
{
    let key = lower_chars(name);
    let value = if spells(&key, "transaction_isolation") || spells(
        &key,
        "default_transaction_isolation",
    ) || spells(&key, "transaction isolation level") {
        "repeatable read"
    } else {
        ""
    };
    assert(key@.len() == name@.len());
    let column = if key.len() == 0 {
        owned("setting")
    } else {
        owned(name)
    };
    text_row(column, owned(value))
}

/// What the plan of a statement reads.
pub open spec fn plan_text(q: StmtV) -> Seq<char> {
    match q {
        StmtV::Select(_) => "Query plan: scan / nested-loop join over the MVCC snapshot"@,
        StmtV::Insert { .. } => "Insert"@,
        StmtV::Update { .. } => "Update (scan + supersede)"@,
        StmtV::Delete { .. } => "Delete (scan + supersede)"@,
        _ => "Utility statement"@,
    }
}

pub fn explain_result(stmt: &Stmt) -> (r: ResultSet)
    ensures
        r@ == one_text("QUERY PLAN"@, plan_text(stmt@)),
{
    let plan = match stmt {
        Stmt::Select(_) => "Query plan: scan / nested-loop join over the MVCC snapshot",
        Stmt::Insert { .. } => "Insert",
        Stmt::Update { .. } => "Update (scan + supersede)",
        Stmt::Delete { .. } => "Delete (scan + supersede)",
        _ => "Utility statement",
    };
    text_row(owned("QUERY PLAN"), owned(plan))
}

/// What a query reads: the snapshot of the transaction, with its own pending changes
/// where it has any; else what is committed.
pub open spec fn sight_of(c: ConnV, s: StoreV) -> Sight {
    Sight {
        snapshot: match c.txn {
            Some(t) => t.snapshot,
            None => s.committed_lsn,
        },
        writer: match c.txn {
            Some(t) => if t.writer {
                Some(t.owner)
            } else {
                None
            },
            None => None,
        },
        ef_search: width(c.vector_ef_search),
    }
}

/// What a query gives.
#[verifier::opaque]
pub open spec fn queried(s: StoreV, sight: Sight, q: SelectV, env: EnvV) -> Result<ResultV, StopV> {
    selected(WorldV { store: s, sight, env }, q)
}

pub open spec fn width_text(ef: Option<usize>) -> Seq<char> {
    match ef {
        Some(n) => nat_text(n as nat),
        None => ""@,
    }
}

/// What a statement runs against: the principal is the connection's own.
pub open spec fn own_env(c: ConnV, env: EnvV) -> EnvV {
    EnvV { session: c.session, ..env }
}

/// What a statement does.
pub open spec fn ran(c: ConnV, s: StoreV, q: StmtV, owner: u64, given: EnvV) -> RanV {
    let env = own_env(c, given);
    match q {
        StmtV::Begin => begun(c, s, owner),
        StmtV::Commit => committing(c, s),
        StmtV::Rollback => rolling_back(c, s),
        StmtV::Savepoint(name) => saved(c, s, name),
        StmtV::ReleaseSavepoint(name) => released(c, s, name),
        StmtV::RollbackTo(name) => back_to(c, s, name),
        StmtV::Select(sel) => match queried(s, sight_of(c, s), sel, env) {
            Err(e) => RanV { conn: c, store: s, out: Err(e) },
            Ok(r) => RanV {
                conn: ConnV { last_changes: 0, ..c },
                store: s,
                out: Ok(gave(r, NextV::Nothing)),
            },
        },
        StmtV::Noop => RanV { conn: c, store: s, out: Ok(gave(no_rows(), NextV::Nothing)) },
        StmtV::SetSession(set) => RanV {
            conn: ConnV { session: session_after(c.session, set), ..c },
            store: s,
            out: Ok(gave(no_rows(), NextV::Nothing)),
        },
        StmtV::SetVectorEf(ef) => RanV {
            conn: ConnV { vector_ef_search: ef, last_changes: 0, ..c },
            store: s,
            out: Ok(gave(no_rows(), NextV::Nothing)),
        },
        StmtV::Show(name) => RanV {
            conn: c,
            store: s,
            out: Ok(
                gave(
                    if same_name(name, VECTOR_EF_SEARCH_GUC@) {
                        one_text(VECTOR_EF_SEARCH_GUC@, width_text(c.vector_ef_search))
                    } else {
                        shown(name)
                    },
                    NextV::Nothing,
                ),
            ),
        },
        StmtV::Explain(inner) => RanV {
            conn: c,
            store: s,
            out: Ok(gave(one_text("QUERY PLAN"@, plan_text(*inner)), NextV::Nothing)),
        },
        _ => if is_dml(q) {
            wrote_rows(c, s, q, owner, env)
        } else {
            defining(c, s, q, env)
        },
    }
}

/// Whether a statement writes rows.
pub fn writes_rows(stmt: &Stmt) -> (r: bool)
    ensures
        r == is_dml(stmt@),
{
    matches!(stmt, Stmt::Insert { .. } | Stmt::Update { .. } | Stmt::Delete { .. })
}

/// Whether a statement changes the catalog.
pub fn is_definition(stmt: &Stmt) -> (r: bool)
    ensures
        r == defines(stmt@),
{
    match stmt {
        Stmt::CreateTable(_)
        | Stmt::DropTable { .. }
        | Stmt::CreateIndex { .. }
        | Stmt::DropIndex { .. }
        | Stmt::AlterTable { .. }
        | Stmt::CreateView { .. }
        | Stmt::DropView { .. }
        | Stmt::CreatePolicy(_)
        | Stmt::DropPolicy { .. } => true,
        _ => false,
    }
}

/// Whether a statement needs the write lane.
pub fn writes(stmt: &Stmt) -> (r: bool)
    ensures
        r == (is_dml(stmt@) || defines(stmt@)),
{
    writes_rows(stmt) || is_definition(stmt)
}

impl Connection {
    /// The snapshot to read, and the owner whose pending changes are read too.
    pub fn read_snapshot(&self, store: &Store) -> (r: Sight)
        ensures
            r == sight_of(self@, store@),
    {
        let (snapshot, writer): (u64, Option<u64>) = match &self.txn {
            Some(t) => if t.writer {
                (t.snapshot, Some(t.owner))
            } else {
                (t.snapshot, None)
            },
            None => (store.committed_lsn, None),
        };
        Sight { snapshot, writer, ef_search: width_of(self.vector_ef_search) }
    }

    /// Run a query.
    pub fn query(&mut self, store: &Store, sel: &SelectStmt, env: &Env) -> (r: Result<
        Outcome,
        Stop,
    >)
        ensures
            ({
                let c = old(self)@;
                match queried(store@, sight_of(c, store@), sel@, env@) {
                    Err(e) => outcome_result(r) == Err::<OutcomeV, StopV>(e) && final(self)@ == c,
                    Ok(v) => outcome_result(r) == Ok::<OutcomeV, StopV>(gave(v, NextV::Nothing))
                        && final(self)@ == (ConnV { last_changes: 0, ..c }),
                }
            }),
    {
        proof {
            reveal(queried);
        }
        let sight = self.read_snapshot(store);
        let w = World { store, sight, env };
        match run_select(&w, sel) {
            Err(e) => Err(e),
            Ok(rs) => {
                self.last_changes = 0;
                Ok(give(rs, Next::Nothing))
            },
        }
    }

    /// What a `SHOW` gives.
    pub fn show(&self, name: &str) -> (r: ResultSet)
        ensures
            r@ == (if same_name(name@, VECTOR_EF_SEARCH_GUC@) {
                one_text(VECTOR_EF_SEARCH_GUC@, width_text(self@.vector_ef_search))
            } else {
                shown(name@)
            }),
    {
        if names_match(name, VECTOR_EF_SEARCH_GUC) {
            let value = match self.vector_ef_search {
                Some(n) => nat_string(n as u64),
                None => owned(""),
            };
            text_row(owned(VECTOR_EF_SEARCH_GUC), value)
        } else {
            show_result(name)
        }
    }

    /// Run a statement for the connection's own principal. `owner` is an id that no
    /// writer has used; the statement takes it if it starts a transaction.
    pub fn run(&mut self, store: &mut Store, stmt: &Stmt, owner: u64, env: &Env) -> (r: Result<
        Outcome,
        Stop,
    >)
        requires
            store_ok(old(store)@),
        ensures
            ran(old(self)@, old(store)@, stmt@, owner, env@) == (RanV {
                conn: final(self)@,
                store: final(store)@,
                out: outcome_result(r),
            }),
            store_ok(final(store)@),
    {
        let session = self.session.clone();
        let own = Env {
            reals: env.reals,
            now: env.now,
            params: env.params,
            session: &session,
            place: env.place,
        };
        assert(own@ == own_env(self@, env@));
        match stmt {
            Stmt::SetSession(set) => {
                self.apply_session_set(set);
                Ok(give(empty_set(), Next::Nothing))
            },
            Stmt::Begin => self.begin(store, owner),
            Stmt::Commit => self.commit(store),
            Stmt::Rollback => self.rollback(store),
            Stmt::Savepoint(name) => self.savepoint(store, name),
            Stmt::ReleaseSavepoint(name) => self.release_savepoint(store, name),
            Stmt::RollbackTo(name) => self.rollback_to(store, name),
            Stmt::Select(sel) => self.query(store, sel, &own),
            Stmt::Noop => Ok(give(empty_set(), Next::Nothing)),
            Stmt::SetVectorEf(ef) => {
                self.vector_ef_search = *ef;
                self.last_changes = 0;
                Ok(give(empty_set(), Next::Nothing))
            },
            Stmt::Show(name) => Ok(give(self.show(name), Next::Nothing)),
            Stmt::Explain(inner) => Ok(give(explain_result(inner), Next::Nothing)),
            Stmt::Insert { .. } | Stmt::Update { .. } | Stmt::Delete { .. } => self.exec_dml(
                store,
                stmt,
                owner,
                &own,
            ),
            _ => self.exec_ddl(store, stmt, &own),
        }
    }

    /// Change the principal.
    pub fn apply_session_set(&mut self, set: &SessionSet)
        ensures
            final(self)@ == (ConnV {
                session: session_after(old(self)@.session, set@),
                ..old(self)@
            }),
    {
        self.session.apply(set);
    }

    /// Close the connection: a transaction that is still open is given up. Whether the
    /// write lane has to go back, and the versions that are gone with it.
    pub fn close(&mut self, store: &mut Store) -> (r: (bool, Vec<(String, Vec<u64>)>))
        requires
            store_ok(old(store)@),
        ensures
            r.0 == holds_lane(old(self)@),
            final(self)@ == (ConnV { txn: None, ..old(self)@ }),
            (final(store)@, named_ids_view(r.1@)) == (match old(self)@.txn {
                Some(t) => torn_down(old(store)@, t),
                None => (old(store)@, Seq::empty()),
            }),
            store_ok(final(store)@),
    {
        match self.txn.take() {
            None => (false, no_gone()),
            Some(t) => {
                let gone = tear_down(store, &t);
                (t.writer, gone)
            },
        }
    }

    /// Whether a branch can be forked off this connection's database: outside
    /// transactions, and not off a branch.
    pub fn check_branch(&self, is_branch: bool) -> (r: Result<(), EngineError>)
        ensures
            match r {
                Ok(_) => self@.txn is None && !is_branch,
                Err(e) => e@ == (if self@.txn is Some {
                    txn_err("cannot branch inside an active transaction"@)
                } else {
                    ErrorV {
                        status: EngineStatus::ErrMisuse,
                        message:
                            "branch-of-branch is not supported yet; branch from the base database"@,
                    }
                }) && (self@.txn is Some || is_branch),
            },
    {
        if self.txn.is_some() {
            return Err(EngineError::txn(owned("cannot branch inside an active transaction")));
        }
        if is_branch {
            return Err(
                EngineError::misuse(
                    owned(
                        "branch-of-branch is not supported yet; branch from the base database",
                    ),
                ),
            );
        }
        Ok(())
    }
}

// ---- laws -----------------------------------------------------------------------------------------

/// Whether a writer owns nothing in a store.
pub open spec fn owns_nothing(s: StoreV, owner: u64) -> bool {
    forall|i: int, k: int|
        #![trigger s.tables[i].rows[k]]
        0 <= i < s.tables.len() && 0 <= k < s.tables[i].rows.len() ==> s.tables[i].rows[k].owner
            != owner
}

proof fn lemma_nothing_undone(
    rows: Seq<VersionV>,
    owner: u64,
    ins: Seq<u64>,
    del: Seq<u64>,
    i: int,
    acc: Seq<VersionV>,
)
    requires
        0 <= i <= rows.len(),
        forall|k: int| 0 <= k < rows.len() ==> (#[trigger] rows[k]).owner != owner,
    ensures
        undone_from(rows, owner, ins, del, i, acc) == acc + rows.skip(i),
    decreases rows.len() - i,
{
    if i < rows.len() {
        assert(rows[i].owner != owner);
        assert(acc.push(rows[i]) + rows.skip(i + 1) =~= acc + rows.skip(i));
        lemma_nothing_undone(rows, owner, ins, del, i + 1, acc.push(rows[i]));
    } else {
        assert(acc + rows.skip(i) =~= acc);
    }
}

/// Rolling back a writer that owns nothing changes nothing.
pub proof fn law_empty_rollback(s: StoreV, owner: u64, saved: Seq<PendingSetV>)
    requires
        owns_nothing(s, owner),
    ensures
        rolled_back(s, owner, saved) == s,
{
    let t = rolled_back(s, owner, saved);
    assert forall|i: int| 0 <= i < s.tables.len() implies #[trigger] t.tables[i]
        == s.tables[i] by {
        let rows = s.tables[i].rows;
        let p = saved_for(saved, s.tables[i].schema.name, 0);
        assert forall|k: int| 0 <= k < rows.len() implies (#[trigger] rows[k]).owner != owner by {
            assert(s.tables[i].rows[k].owner != owner);
        }
        lemma_nothing_undone(rows, owner, p.inserted, p.deleted, 0, Seq::empty());
        assert(Seq::<VersionV>::empty() + rows.skip(0) =~= rows);
    }
    assert(t.tables =~= s.tables);
}

/// Every statement is atomic: one that fails leaves the store as it was. The id it
/// may take for a transaction of its own is one that nobody has used.
pub proof fn law_failed_statement_leaves_nothing(
    c: ConnV,
    s: StoreV,
    q: StmtV,
    owner: u64,
    env: EnvV,
)
    requires
        owns_nothing(s, owner),
        ran(c, s, q, owner, env).out is Err,
    ensures
        ran(c, s, q, owner, env).store == s,
{
    law_empty_rollback(s, owner, Seq::empty());
}

/// A statement outside a transaction leaves none open, unless it opens one.
pub proof fn law_autocommit(c: ConnV, s: StoreV, q: StmtV, owner: u64, env: EnvV)
    requires
        c.txn is None,
        !(q is Begin),
    ensures
        ran(c, s, q, owner, env).conn.txn is None,
{
}

/// A statement acts for the principal of its connection and for no other: whom the
/// environment names does not matter.
pub proof fn law_principal_is_the_connections(
    c: ConnV,
    s: StoreV,
    q: StmtV,
    owner: u64,
    env: EnvV,
    other: SessionV,
)
    ensures
        ran(c, s, q, owner, EnvV { session: other, ..env }) == ran(c, s, q, owner, env),
{
}

/// A change of the principal changes nothing else, and nothing that other
/// connections see.
pub proof fn law_principal_is_private(
    c: ConnV,
    s: StoreV,
    set: crate::session::SessionSetV,
    owner: u64,
    env: EnvV,
)
    ensures
        ran(c, s, StmtV::SetSession(set), owner, env).store == s,
        ran(c, s, StmtV::SetSession(set), owner, env).conn == (ConnV {
            session: session_after(c.session, set),
            ..c
        }),
{
}

/// A query changes neither the store nor the transaction.
pub proof fn law_query_changes_nothing(c: ConnV, s: StoreV, q: StmtV, owner: u64, env: EnvV)
    requires
        q is Select || q is Show || q is Explain,
    ensures
        ran(c, s, q, owner, env).store == s,
        ran(c, s, q, owner, env).conn.txn == c.txn,
{
}

/// A savepoint set and rolled back to at once leaves the operations of the
/// transaction as they were, and stays.
pub proof fn law_savepoint_keeps_operations(c: ConnV, s: StoreV, name: Seq<char>)
    requires
        c.txn is Some,
    ensures
        ({
            let a = saved(c, s, name);
            let b = back_to(a.conn, a.store, name);
            &&& b.out is Ok
            &&& b.conn.txn == a.conn.txn
            &&& b.conn.txn->0.wal_ops == c.txn->0.wal_ops
        }),
{
    let a = saved(c, s, name);
    let t = a.conn.txn->0;
    let n = t.savepoints.len() as int;
    assert(t.savepoints[n - 1].name == name);
    assert(savepoint_pos(t.savepoints, name, n) == Some(n - 1));
    assert(t.savepoints.take(n) =~= t.savepoints);
}

} // verus!
