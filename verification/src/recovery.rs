//! Rebuilding a store from the log.
//!
//! The log holds the operations of each transaction, closed by a commit mark. What
//! stands behind the last mark belongs to a transaction that never became durable
//! as a whole, and is dropped.
use vstd::prelude::*;
use crate::asks::{Stop, StopV};
use crate::ddl::{apply_catalog, catalog_after, publish, published, stored};
use crate::env::{Env, EnvV};
use crate::error::{EngineError, ErrorV};
use crate::mvcc::{on_table, recounted, replayed_delete, replayed_insert};
use crate::pstmt::parse;
use crate::sql::{Stmt, StmtV};
use crate::statements::statement;
use crate::store::{empty_store, put_view, store_ok, Store, StoreV, TableV, ViewV};
use crate::wal::{law_wal_round_trip, op_bytes, op_fits, op_of, op_result, ops_view, WalOp, WalOpV};

verus! {

/// A record of the log, with its sequence number.
pub struct LogEntry {
    pub lsn: u64,
    pub bytes: Vec<u8>,
}

pub struct LogEntryV {
    pub lsn: u64,
    pub bytes: Seq<u8>,
}

impl View for LogEntry {
    type V = LogEntryV;

    open spec fn view(&self) -> LogEntryV {
        LogEntryV { lsn: self.lsn, bytes: self.bytes@ }
    }
}

pub open spec fn log_view(v: Seq<LogEntry>) -> Seq<LogEntryV> {
    Seq::new(v.len(), |i: int| v[i]@)
}

/// What one operation of a transaction that committed at `lsn` does. A view is
/// defined by the text of its statement; a text that no longer parses defines
/// nothing.
pub open spec fn replayed_op(s: StoreV, op: WalOpV, lsn: u64, env: EnvV) -> Result<StoreV, StopV> {
    match op {
        WalOpV::Insert { table, vid, values } => Ok(
            on_table(s, table, |t: TableV| replayed_insert(t, vid, values, lsn)),
        ),
        WalOpV::Delete { table, vid } => Ok(
            on_table(s, table, |t: TableV| replayed_delete(t, vid, lsn)),
        ),
        WalOpV::CreateView { name, sql } => match statement(sql, env.reals) {
            Err(StopV::Need(a)) => Err(StopV::Need(a)),
            Ok((StmtV::CreateView { query, .. }, _)) => Ok(
                StoreV { views: put_view(s.views, ViewV { name, query }), ..s },
            ),
            _ => Ok(s),
        },
        _ => catalog_after(s, op, env),
    }
}

/// What one operation does, kept folded.
#[verifier::opaque]
pub open spec fn stepped(s: StoreV, op: WalOpV, lsn: u64, env: EnvV) -> Result<StoreV, StopV> {
    replayed_op(s, op, lsn, env)
}

/// What the operations from `i` on do.
pub open spec fn replayed_ops(s: StoreV, ops: Seq<WalOpV>, i: int, lsn: u64, env: EnvV) -> Result<
    StoreV,
    StopV,
>
    decreases ops.len() - i,
{
    if i < 0 || i >= ops.len() {
        Ok(s)
    } else {
        match stepped(s, ops[i], lsn, env) {
            Err(e) => Err(e),
            Ok(t) => replayed_ops(t, ops, i + 1, lsn, env),
        }
    }
}

/// What a transaction that committed at `lsn` does.
#[verifier::opaque]
pub open spec fn applied(s: StoreV, ops: Seq<WalOpV>, lsn: u64, env: EnvV) -> Result<
    StoreV,
    StopV,
> {
    replayed_ops(s, ops, 0, lsn, env)
}

/// The operation that a record holds.
#[verifier::opaque]
pub open spec fn recorded(b: Seq<u8>) -> Result<WalOpV, ErrorV> {
    op_of(b)
}

/// The bytes that record an operation.
#[verifier::opaque]
pub open spec fn record(op: WalOpV) -> Seq<u8> {
    op_bytes(op)
}

proof fn lemma_record(op: WalOpV)
    requires
        op_fits(op),
    ensures
        recorded(record(op)) == Ok::<WalOpV, ErrorV>(op),
{
    reveal(recorded);
    reveal(record);
    law_wal_round_trip(op);
}

fn decode_entry(e: &LogEntry) -> (r: Result<WalOp, EngineError>)
    ensures
        recorded(e@.bytes) == op_result(r),
{
    proof {
        reveal(recorded);
    }
    WalOp::decode(e.bytes.as_slice())
}

/// The store that the log from entry `i` on leaves, where `group` is what stands in
/// the log since the last commit mark.
pub open spec fn replayed_from(
    log: Seq<LogEntryV>,
    i: int,
    s: StoreV,
    group: Seq<WalOpV>,
    env: EnvV,
) -> Result<StoreV, StopV>
    decreases log.len() - i,
{
    if i < 0 || i >= log.len() {
        Ok(s)
    } else {
        match recorded(log[i].bytes) {
            Err(e) => Err(StopV::Fail(e)),
            Ok(op) => if op is Commit {
                match applied(s, group, log[i].lsn, env) {
                    Err(e) => Err(e),
                    Ok(t) => replayed_from(
                        log,
                        i + 1,
                        published(t, log[i].lsn),
                        Seq::empty(),
                        env,
                    ),
                }
            } else {
                replayed_from(log, i + 1, s, group.push(op), env)
            },
        }
    }
}

pub open spec fn recounted_store(s: StoreV) -> StoreV {
    StoreV { tables: Seq::new(s.tables.len(), |i: int| recounted(s.tables[i])), ..s }
}

/// The store that a log holds. `head` is the newest sequence number that the log's
/// keeper knows to be durable.
pub open spec fn recovered(log: Seq<LogEntryV>, head: u64, env: EnvV) -> Result<StoreV, StopV> {
    match replayed_from(log, 0, empty_store(), Seq::empty(), env) {
        Err(e) => Err(e),
        Ok(s) => Ok(published(recounted_store(s), head)),
    }
}

/// Define a view from the text of its statement.
fn replay_view(store: &mut Store, name: String, sql: &str, env: &Env) -> (r: Result<(), Stop>)
    requires
        store_ok(old(store)@),
    ensures
        stored(
            r,
            old(store)@,
            final(store)@,
            replayed_op(old(store)@, WalOpV::CreateView { name: name@, sql: sql@ }, 0, env@),
        ),
        store_ok(final(store)@),
{
    match parse(sql, env.reals) {
        Err(Stop::Need(a)) => Err(Stop::Need(a)),
        Err(Stop::Fail(_)) => Ok(()),
        Ok((q, _)) => {
            match q {
                Stmt::CreateView { query, .. } => {
                    store.replay_create_view(name, *query);
                },
                _ => {},
            }
            Ok(())
        },
    }
}

/// Apply one logged operation of a transaction that committed at `commit_lsn`.
pub fn apply_replay(store: &mut Store, op: WalOp, commit_lsn: u64, env: &Env) -> (r: Result<
    (),
    Stop,
>)
    requires
        store_ok(old(store)@),
    ensures
        stored(
            r,
            old(store)@,
            final(store)@,
            replayed_op(old(store)@, op@, commit_lsn, env@),
        ),
        store_ok(final(store)@),
{
    match op {
        WalOp::Insert { table, vid, values } => {
            store.replay_insert(&table, vid, values, commit_lsn);
            Ok(())
        },
        WalOp::Delete { table, vid } => {
            store.replay_delete(&table, vid, commit_lsn);
            Ok(())
        },
        WalOp::CreateView { name, sql } => replay_view(store, name, &sql, env),
        other => apply_catalog(store, &other, env),
    }
}

pub open spec fn store_result(r: Result<Store, Stop>) -> Result<StoreV, StopV> {
    match r {
        Ok(s) => Ok(s@),
        Err(e) => Err(e@),
    }
}

fn step(store: &mut Store, op: WalOp, commit_lsn: u64, env: &Env) -> (r: Result<(), Stop>)
    requires
        store_ok(old(store)@),
    ensures
        stored(r, old(store)@, final(store)@, stepped(old(store)@, op@, commit_lsn, env@)),
        store_ok(final(store)@),
{
    proof {
        reveal(stepped);
    }
    apply_replay(store, op, commit_lsn, env)
}

/// Apply the operations of a transaction.
fn replay_group(store: Store, group: Vec<WalOp>, commit_lsn: u64, env: &Env) -> (r: Result<
    Store,
    Stop,
>)
    requires
        store_ok(store@),
    ensures
        store_result(r) == applied(store@, ops_view(group@), commit_lsn, env@),
        r is Ok ==> store_ok(r->Ok_0@),
{
    proof {
        reveal(applied);
    }
    let ghost s0 = store@;
    let ghost ops = ops_view(group@);
    let mut out = store;
    let mut rest = group;
    let ghost mut i: int = 0;
    let mut queue: Vec<WalOp> = Vec::new();
    while rest.len() > 0
        invariant
            store_ok(out@),
            ops == ops_view(rest@ + queue@.reverse()),
            rest@.len() + queue@.len() == ops.len(),
            s0 == store@,
            ops == ops_view(group@),
            out@ == s0,
        decreases rest.len(),
    {
        let ghost before = rest@ + queue@.reverse();
        match rest.pop() {
            Some(op) => {
                queue.push(op);
            },
            None => {},
        }
        assert(rest@ + queue@.reverse() =~= before);
    }
    assert(rest@ + queue@.reverse() =~= queue@.reverse());
    while queue.len() > 0
        invariant
            store_ok(out@),
            0 <= i <= ops.len(),
            ops == ops_view(group@),
            s0 == store@,
            queue@.len() == ops.len() - i,
            ops.skip(i) == ops_view(queue@.reverse()),
            replayed_ops(out@, ops, i, commit_lsn, env@) == replayed_ops(
                s0,
                ops,
                0,
                commit_lsn,
                env@,
            ),
        decreases queue.len(),
    {
        proof {
            reveal(applied);
        }
        let ghost q0 = queue@;
        let ghost r0 = ops_view(q0.reverse());
        match queue.pop() {
            Some(op) => {
                assert(r0[0] == op@);
                assert(ops.skip(i)[0] == ops[i]);
                step(&mut out, op, commit_lsn, env)?;
                assert(ops.skip(i + 1) =~= ops.skip(i).skip(1));
                assert(r0.skip(1) =~= ops_view(queue@.reverse()));
                proof {
                    i = i + 1;
                }
            },
            None => {},
        }
    }
    Ok(out)
}

/// Rebuild a store by replaying the log.
pub fn replay(log: &Vec<LogEntry>, head: u64, env: &Env) -> (r: Result<Store, Stop>)
    ensures
        store_result(r) == recovered(log_view(log@), head, env@),
        r is Ok ==> store_ok(r->Ok_0@),
{
    let ghost lv = log_view(log@);
    let mut store = Store::new();
    let mut group: Vec<WalOp> = Vec::new();
    assert(ops_view(group@) =~= Seq::<WalOpV>::empty());
    let mut i: usize = 0;
    while i < log.len()
        invariant
            i <= log.len(),
            lv == log_view(log@),
            store_ok(store@),
            replayed_from(lv, i as int, store@, ops_view(group@), env@) == replayed_from(
                lv,
                0,
                empty_store(),
                Seq::empty(),
                env@,
            ),
        decreases log.len() - i,
    {
        assert(lv[i as int] == log@[i as int]@);
        match decode_entry(&log[i]) {
            Err(e) => {
                return Err(Stop::Fail(e));
            },
            Ok(WalOp::Commit) => {
                store = replay_group(store, group, log[i].lsn, env)?;
                publish(&mut store, log[i].lsn);
                group = Vec::new();
                assert(ops_view(group@) =~= Seq::<WalOpV>::empty());
            },
            Ok(op) => {
                let ghost before = ops_view(group@);
                let ghost ov = op@;
                group.push(op);
                assert(ops_view(group@) =~= before.push(ov));
            },
        }
        i += 1;
    }
    store.rebuild_autoinc();
    publish(&mut store, head);
    Ok(store)
}

// ---- laws -----------------------------------------------------------------------------------------

/// The records of a transaction: its operations, and a commit mark.
pub open spec fn records(ops: Seq<WalOpV>) -> Seq<Seq<u8>> {
    Seq::new(
        ops.len() + 1,
        |i: int|
            if i < ops.len() {
                record(ops[i])
            } else {
                record(WalOpV::Commit)
            },
    )
}

/// Entries that hold no commit mark.
pub open spec fn markless(log: Seq<LogEntryV>) -> bool {
    forall|i: int|
        0 <= i < log.len() ==> {
            &&& #[trigger] recorded(log[i].bytes) is Ok
            &&& !(recorded(log[i].bytes)->Ok_0 is Commit)
        }
}

proof fn lemma_tail(log: Seq<LogEntryV>, tail: Seq<LogEntryV>, i: int, s: StoreV, g: Seq<WalOpV>, env: EnvV)
    requires
        markless(tail),
        0 <= i <= log.len() + tail.len(),
    ensures
        replayed_from(log + tail, i, s, g, env) == (if i < log.len() {
            replayed_from(log, i, s, g, env)
        } else {
            Ok(s)
        }),
    decreases log.len() + tail.len() - i,
{
    let all = log + tail;
    if i < log.len() {
        assert(all[i] == log[i]);
        match recorded(log[i].bytes) {
            Err(_) => {},
            Ok(op) => {
                if op is Commit {
                    match applied(s, g, log[i].lsn, env) {
                        Err(_) => {},
                        Ok(t) => {
                            lemma_tail(
                                log,
                                tail,
                                i + 1,
                                published(t, log[i].lsn),
                                Seq::empty(),
                                env,
                            );
                        },
                    }
                } else {
                    lemma_tail(log, tail, i + 1, s, g.push(op), env);
                }
            },
        }
    } else if i < all.len() {
        assert(all[i] == tail[i - log.len()]);
        let op = recorded(tail[i - log.len()].bytes)->Ok_0;
        assert(recorded(tail[i - log.len()].bytes) is Ok);
        lemma_tail(log, tail, i + 1, s, g.push(op), env);
    }
}

/// A transaction whose commit mark never reached the log leaves nothing: entries
/// without a mark at the end of the log are as good as none.
pub proof fn law_unfinished_leaves_nothing(
    log: Seq<LogEntryV>,
    tail: Seq<LogEntryV>,
    head: u64,
    env: EnvV,
)
    requires
        markless(tail),
    ensures
        recovered(log + tail, head, env) == recovered(log, head, env),
{
    lemma_tail(log, tail, 0, empty_store(), Seq::empty(), env);
    if log.len() == 0 {
        assert(log + tail =~= tail);
    }
}

/// A log that ends in a commit mark, or is empty.
pub open spec fn closed(log: Seq<LogEntryV>) -> bool {
    log.len() == 0 || recorded(log.last().bytes) == Ok::<WalOpV, ErrorV>(WalOpV::Commit)
}

/// What a log leaves before its counters are set.
pub open spec fn left(log: Seq<LogEntryV>, env: EnvV) -> Result<StoreV, StopV> {
    replayed_from(log, 0, empty_store(), Seq::empty(), env)
}

/// Entries that hold the records of a transaction.
pub open spec fn holds(batch: Seq<LogEntryV>, ops: Seq<WalOpV>) -> bool {
    &&& batch.len() == ops.len() + 1
    &&& forall|i: int| 0 <= i < batch.len() ==> (#[trigger] batch[i]).bytes == records(ops)[i]
}

pub open spec fn loggable(ops: Seq<WalOpV>) -> bool {
    forall|i: int| 0 <= i < ops.len() ==> op_fits(#[trigger] ops[i]) && !(ops[i] is Commit)
}

proof fn lemma_batch(
    log: Seq<LogEntryV>,
    batch: Seq<LogEntryV>,
    ops: Seq<WalOpV>,
    k: int,
    s: StoreV,
    env: EnvV,
)
    requires
        holds(batch, ops),
        loggable(ops),
        0 <= k <= ops.len(),
    ensures
        replayed_from(log + batch, log.len() + k, s, ops.take(k), env) == (match applied(
            s,
            ops,
            batch.last().lsn,
            env,
        ) {
            Err(e) => Err::<StoreV, StopV>(e),
            Ok(t) => Ok(published(t, batch.last().lsn)),
        }),
    decreases ops.len() - k,
{
    let all = log + batch;
    assert(all[log.len() + k] == batch[k]);
    assert(batch[k].bytes == records(ops)[k]);
    if k < ops.len() {
        lemma_record(ops[k]);
        assert(ops.take(k).push(ops[k]) =~= ops.take(k + 1));
        lemma_batch(log, batch, ops, k + 1, s, env);
    } else {
        lemma_record(WalOpV::Commit);
        assert(ops.take(k) =~= ops);
        assert(batch[k] == batch.last());
        match applied(s, ops, batch.last().lsn, env) {
            Err(_) => {},
            Ok(t) => {
                assert(replayed_from(
                    all,
                    log.len() + k + 1,
                    published(t, batch.last().lsn),
                    Seq::empty(),
                    env,
                ) == Ok::<StoreV, StopV>(published(t, batch.last().lsn)));
            },
        }
    }
}

proof fn lemma_append(
    log: Seq<LogEntryV>,
    batch: Seq<LogEntryV>,
    ops: Seq<WalOpV>,
    i: int,
    s: StoreV,
    g: Seq<WalOpV>,
    env: EnvV,
)
    requires
        holds(batch, ops),
        loggable(ops),
        closed(log),
        0 <= i <= log.len(),
        i == log.len() ==> g.len() == 0,
    ensures
        replayed_from(log + batch, i, s, g, env) == (match replayed_from(log, i, s, g, env) {
            Err(e) => Err::<StoreV, StopV>(e),
            Ok(t) => match applied(t, ops, batch.last().lsn, env) {
                Err(e) => Err(e),
                Ok(u) => Ok(published(u, batch.last().lsn)),
            },
        }),
    decreases log.len() - i,
{
    let all = log + batch;
    if i < log.len() {
        assert(all[i] == log[i]);
        match recorded(log[i].bytes) {
            Err(_) => {},
            Ok(op) => {
                if op is Commit {
                    match applied(s, g, log[i].lsn, env) {
                        Err(_) => {},
                        Ok(t) => {
                            lemma_append(
                                log,
                                batch,
                                ops,
                                i + 1,
                                published(t, log[i].lsn),
                                Seq::empty(),
                                env,
                            );
                        },
                    }
                } else {
                    assert(i + 1 < log.len()) by {
                        if i + 1 == log.len() {
                            assert(log.last() == log[i]);
                        }
                    }
                    lemma_append(log, batch, ops, i + 1, s, g.push(op), env);
                }
            },
        }
    } else {
        assert(g =~= ops.take(0));
        lemma_batch(log, batch, ops, 0, s, env);
    }
}

/// A transaction whose records reached the log, behind a log that ends in a commit
/// mark, is recovered whole: what the longer log leaves is what the shorter one
/// left, with the operations applied at the sequence number of the mark.
pub proof fn law_durable_is_recovered(
    log: Seq<LogEntryV>,
    batch: Seq<LogEntryV>,
    ops: Seq<WalOpV>,
    env: EnvV,
)
    requires
        holds(batch, ops),
        loggable(ops),
        closed(log),
    ensures
        left(log + batch, env) == (match left(log, env) {
            Err(e) => Err::<StoreV, StopV>(e),
            Ok(t) => match applied(t, ops, batch.last().lsn, env) {
                Err(e) => Err(e),
                Ok(u) => Ok(published(u, batch.last().lsn)),
            },
        }),
        closed(log + batch),
{
    lemma_append(log, batch, ops, 0, empty_store(), Seq::empty(), env);
    lemma_record(WalOpV::Commit);
    assert((log + batch).last() == batch.last());
    assert(batch[ops.len() as int].bytes == records(ops)[ops.len() as int]);
}

} // verus!
