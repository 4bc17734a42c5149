use twill::asks::{Reals, Stop};
use twill::catalog::{Policy, PolicyCommand, Column, ForeignKey, TableSchema};
use twill::conn::encode_records;
use twill::ddl::{finish_ddl, plan_ddl};
use twill::env::Env;
use twill::error::{EngineError, EngineStatus, StorageFault};
use twill::group_commit::{commit_error, gather, GroupCommit, MAX_BATCH_RECORDS};
use twill::host::{lost_lease, stats, OwnerIds, WriteLane};
use twill::inserts::run_insert;
use twill::pstmt::parse;
use twill::recovery::{replay, LogEntry};
use twill::session::SessionContext;
use twill::sql::Stmt;
use twill::store::Store;
use twill::updates::{run_delete, run_update};
use twill::value::{ColumnType, Value};
use twill::vector::{IndexDef, IndexParams, Metric};
use twill::wal::WalOp;
use twill::writes::WriteCtx;

fn stmt(sql: &str) -> Stmt {
    match parse(sql, &Reals::new()) {
        Ok((s, _)) => s,
        Err(_) => panic!("{sql}"),
    }
}

fn failure(s: Stop) -> EngineError {
    match s {
        Stop::Fail(e) => e,
        Stop::Need(_) => panic!("an answer is missing"),
    }
}

/// Run a definition at once.
fn define(store: &mut Store, sql: &str, lsn: u64) -> Option<WalOp> {
    let reals = Reals::new();
    let env = Env { reals: &reals, now: 0, params: &[], session: &SessionContext::default(), place: &[] };
    let op = plan_ddl(store, &stmt(sql), &reals).map_err(failure).unwrap()?;
    finish_ddl(store, stmt(sql), &op, lsn, &env).map_err(failure).unwrap();
    Some(op)
}

fn refusal(store: &Store, sql: &str) -> String {
    failure(plan_ddl(store, &stmt(sql), &Reals::new()).err().unwrap()).message
}

/// Run a write, without committing it.
fn write(store: &mut Store, sql: &str, snapshot: u64, owner: u64) -> Result<Vec<WalOp>, EngineError> {
    let reals = Reals::new();
    let env = Env { reals: &reals, now: 0, params: &[], session: &SessionContext::default(), place: &[] };
    let wc = WriteCtx { snapshot, owner, ef_search: None, env: &env };
    let r = match stmt(sql) {
        Stmt::Insert { table, columns, source, on_conflict, returning } => {
            run_insert(store, &table, &columns, &source, &on_conflict, &returning, &wc)
        }
        Stmt::Update { table, sets, from, filter, returning } => {
            run_update(store, &table, &sets, &from, &filter, &returning, &wc)
        }
        Stmt::Delete { table, using, filter, returning } => {
            run_delete(store, &table, &using, &filter, &returning, &wc)
        }
        _ => panic!("{sql}"),
    };
    r.map(|m| m.wal).map_err(failure)
}

fn versions(store: &Store, table: &str) -> Vec<(u64, u64, u64, u64)> {
    store
        .table(table)
        .unwrap()
        .rows
        .iter()
        .map(|v| (v.vid, v.create_lsn, v.delete_lsn, v.owner))
        .collect()
}

fn entries(log: &[(u64, Vec<u8>)]) -> Vec<LogEntry> {
    log.iter().map(|(lsn, bytes)| LogEntry { lsn: *lsn, bytes: bytes.clone() }).collect()
}

fn recover(log: &[(u64, Vec<u8>)]) -> Result<Store, EngineError> {
    let reals = Reals::new();
    let env = Env { reals: &reals, now: 0, params: &[], session: &SessionContext::default(), place: &[] };
    replay(&entries(log), 0, &env).map_err(failure)
}

fn append(log: &mut Vec<(u64, Vec<u8>)>, records: Vec<Vec<u8>>) -> u64 {
    let mut lsn = log.last().map(|e| e.0).unwrap_or(0);
    for r in records {
        lsn += 1;
        log.push((lsn, r));
    }
    lsn
}

fn column(name: &str, ty: ColumnType) -> Column {
    Column {
        name: name.to_string(),
        ty,
        primary_key: name == "id",
        not_null: name == "id",
        unique: false,
        autoincrement: false,
        default_sql: if name == "n" { Some("1 + 1".to_string()) } else { None },
    }
}

// ---- records --------------------------------------------------------------------------------------

#[test]
fn every_operation_reads_back() {
    let schema = TableSchema {
        name: "t".to_string(),
        columns: vec![
            column("id", ColumnType::Integer),
            column("n", ColumnType::Real),
            column("e", ColumnType::Vector(3)),
        ],
        foreign_keys: vec![ForeignKey {
            name: "fk".to_string(),
            columns: vec!["n".to_string()],
            foreign_table: "u".to_string(),
            foreign_columns: vec!["id".to_string()],
        }],
        checks: vec!["n > 0".to_string()],
        uniques: vec![vec!["id".to_string(), "n".to_string()]],
        rls_enabled: false,
        policies: vec![],
    };
    let ops = vec![
        WalOp::CreateTable { schema },
        WalOp::DropTable { name: "t".to_string() },
        WalOp::Insert {
            table: "t".to_string(),
            vid: 7,
            values: vec![
                Value::Null,
                Value::Int(-3),
                Value::Real(1.5f64.to_bits()),
                Value::Text("h\u{e9}".to_string()),
                Value::Blob(vec![0, 255]),
                Value::Vector(vec![1.0f32.to_bits()]),
            ],
        },
        WalOp::Delete { table: "t".to_string(), vid: 7 },
        WalOp::CreateIndex {
            def: IndexDef {
                name: "i".to_string(),
                table: "t".to_string(),
                column: "e".to_string(),
                params: IndexParams { m: 5, ef_construction: 20, ef_search: 9, metric: Metric::L2 },
            },
        },
        WalOp::DropIndex { name: "i".to_string() },
        WalOp::AlterAddColumn { table: "t".to_string(), column: column("n", ColumnType::Blob) },
        WalOp::AlterDropColumn { table: "t".to_string(), column: "n".to_string() },
        WalOp::AlterRenameColumn {
            table: "t".to_string(),
            from: "a".to_string(),
            to: "b".to_string(),
        },
        WalOp::AlterRenameTable { table: "t".to_string(), to: "u".to_string() },
        WalOp::CreateView { name: "v".to_string(), sql: "CREATE VIEW v AS SELECT 1".to_string() },
        WalOp::DropView { name: "v".to_string() },
        WalOp::CreatePolicy {
            table: "t".to_string(),
            policy: Policy {
                name: "p".to_string(),
                command: PolicyCommand::Update,
                roles: vec!["a".to_string(), "b".to_string()],
                using: Some("id = 1".to_string()),
                check: None,
            },
        },
        WalOp::DropPolicy { table: "t".to_string(), name: "p".to_string() },
        WalOp::SetRls { table: "t".to_string(), enabled: true },
        WalOp::Commit,
    ];
    for op in ops {
        let bytes = op.encode();
        let back = WalOp::decode(&bytes).unwrap();
        assert_eq!(back.encode(), bytes);
        // A record that is cut short is refused.
        if bytes.len() > 1 {
            let e = WalOp::decode(&bytes[..bytes.len() - 1]).err().unwrap();
            assert_eq!(e.status, EngineStatus::ErrInternal);
        }
    }
    assert_eq!(WalOp::decode(&[]).err().unwrap().status, EngineStatus::ErrInternal);
    assert_eq!(WalOp::decode(&[200]).err().unwrap().status, EngineStatus::ErrInternal);
}

#[test]
fn a_table_record_may_end_behind_a_section() {
    let bare = |columns: Vec<Column>, keys: Vec<ForeignKey>| TableSchema {
        name: "t".to_string(),
        columns,
        foreign_keys: keys,
        checks: vec![],
        uniques: vec![],
        rls_enabled: false,
        policies: vec![],
    };
    let key = || ForeignKey {
        name: "fk".to_string(),
        columns: vec!["n".to_string()],
        foreign_table: "u".to_string(),
        foreign_columns: vec!["id".to_string()],
    };
    let columns = || vec![column("id", ColumnType::Integer), column("n", ColumnType::Real)];
    // Behind the columns of a bare table stand an empty list of keys, its number of
    // columns with a byte for each, and two empty lists.
    let empty_tail = 4 + 4 + 2 + 4 + 4;
    let plain = vec![column("id", ColumnType::Integer), column("m", ColumnType::Real)];
    let record = WalOp::CreateTable { schema: bare(plain, vec![]) }.encode();
    let short = &record[..record.len() - empty_tail];
    let WalOp::CreateTable { schema } = WalOp::decode(short).unwrap() else { panic!() };
    assert_eq!(schema.name, "t");
    assert_eq!(schema.columns.len(), 2);
    assert!(schema.foreign_keys.is_empty() && schema.checks.is_empty());
    assert!(schema.uniques.is_empty());
    let full = WalOp::CreateTable { schema: bare(columns(), vec![key()]) }.encode();
    let default = 4 + "1 + 1".len();
    let cut = full.len() - (4 + 2 + default + 4 + 4);
    let WalOp::CreateTable { schema } = WalOp::decode(&full[..cut]).unwrap() else { panic!() };
    assert_eq!(schema.foreign_keys.len(), 1);
    assert_eq!(schema.foreign_keys[0].foreign_table, "u");
    assert!(schema.columns.iter().all(|c| c.default_sql.is_none()));
    // Anywhere between it is cut short.
    assert!(WalOp::decode(&full[..cut - 1]).is_err());
    assert!(WalOp::decode(&full[..cut + 1]).is_err());
}

// ---- recovery -------------------------------------------------------------------------------------

#[test]
fn a_committed_transaction_is_found_again() {
    let mut log: Vec<(u64, Vec<u8>)> = Vec::new();
    let mut live = Store::new();
    let op = define(&mut live, "CREATE TABLE t (id INTEGER PRIMARY KEY, v TEXT)", 2).unwrap();
    append(&mut log, encode_records(&vec![op]));
    let mut ops = write(&mut live, "INSERT INTO t VALUES (1,'a'),(2,'b'),(3,'c')", 2, 5).unwrap();
    ops.extend(write(&mut live, "UPDATE t SET v = 'B' WHERE id = 2", 2, 5).unwrap());
    ops.extend(write(&mut live, "DELETE FROM t WHERE id = 1", 2, 5).unwrap());
    let lsn = append(&mut log, encode_records(&ops));
    live.finalize_owner(5, lsn);
    let back = recover(&log).unwrap();
    assert_eq!(versions(&back, "t"), versions(&live, "t"));
    assert_eq!(back.committed_lsn, lsn);
}

#[test]
fn an_unfinished_transaction_leaves_nothing() {
    let mut log: Vec<(u64, Vec<u8>)> = Vec::new();
    let mut live = Store::new();
    let op = define(&mut live, "CREATE TABLE t (id INTEGER PRIMARY KEY)", 2).unwrap();
    append(&mut log, encode_records(&vec![op]));
    let ops = write(&mut live, "INSERT INTO t VALUES (1)", 2, 5).unwrap();
    let mut records = encode_records(&ops);
    records.pop();
    append(&mut log, records);
    let back = recover(&log).unwrap();
    assert!(versions(&back, "t").is_empty());
    assert_eq!(back.committed_lsn, 2);
}

#[test]
fn a_garbled_log_is_an_error() {
    let e = recover(&[(1, vec![250])]).err().unwrap();
    assert_eq!(e.status, EngineStatus::ErrInternal);
}

#[test]
fn recovery_sets_counters_past_what_is_there() {
    let mut log: Vec<(u64, Vec<u8>)> = Vec::new();
    let mut live = Store::new();
    let op = define(&mut live, "CREATE TABLE t (id SERIAL, v TEXT)", 2).unwrap();
    append(&mut log, encode_records(&vec![op]));
    let ops = write(&mut live, "INSERT INTO t (v) VALUES ('a'),('b')", 2, 5).unwrap();
    append(&mut log, encode_records(&ops));
    let back = recover(&log).unwrap();
    assert_eq!(back.table("t").unwrap().next_autoinc, 3);
}

#[test]
fn views_and_columns_come_back() {
    let mut log: Vec<(u64, Vec<u8>)> = Vec::new();
    let mut live = Store::new();
    for sql in [
        "CREATE TABLE t (id INTEGER PRIMARY KEY)",
        "CREATE VIEW v AS SELECT id FROM t",
        "ALTER TABLE t ADD COLUMN n INTEGER DEFAULT 4",
        "ALTER TABLE t RENAME COLUMN n TO m",
        "CREATE TABLE gone (id INTEGER)",
        "DROP TABLE gone",
    ] {
        let lsn = log.last().map(|e| e.0).unwrap_or(0) + 2;
        let op = define(&mut live, sql, lsn).unwrap();
        assert_eq!(append(&mut log, encode_records(&vec![op])), lsn);
    }
    let back = recover(&log).unwrap();
    assert!(back.has_view("V"));
    assert!(!back.has_table("gone"));
    let t = back.table("t").unwrap();
    assert_eq!(t.schema.columns[1].name, "m");
}

// ---- group commit ---------------------------------------------------------------------------------

#[test]
fn commits_share_an_append_and_keep_their_order() {
    let mut store = Store::new();
    define(&mut store, "CREATE TABLE t (id INTEGER PRIMARY KEY)", 10);
    let mut group = GroupCommit::new();
    let mut ids = Vec::new();
    for owner in 1..=3u64 {
        let ops = write(&mut store, &format!("INSERT INTO t VALUES ({owner})"), 10, owner).unwrap();
        let (id, lead) = group.submit(owner, encode_records(&ops));
        assert_eq!(lead, owner == 1);
        ids.push(id);
    }
    assert!(!group.quiescent());
    let batch = group.drain_batch();
    assert_eq!(batch.len(), 3);
    assert_eq!(gather(&batch).len(), 6);
    let ended = group.flush_batch(&mut store, &batch, Ok(16));
    assert!(ended.is_empty());
    assert!(group.relinquish());
    assert!(group.quiescent());
    assert_eq!(group.metrics(), (1, 3));
    assert_eq!(group.reclaim(ids[1]).unwrap().unwrap(), 14);
    assert_eq!(group.reclaim(ids[0]).unwrap().unwrap(), 12);
    assert_eq!(group.reclaim(ids[2]).unwrap().unwrap(), 16);
    assert!(group.reclaim(ids[0]).is_none());
    assert_eq!(store.committed_lsn, 16);
    let s = stats(&group, &store);
    assert_eq!((s.commits, s.durable_appends, s.committed_lsn), (3, 1, 16));
    let lsns: Vec<u64> = versions(&store, "t").iter().map(|v| v.1).collect();
    assert_eq!(lsns, vec![12, 14, 16]);
}

#[test]
fn a_failed_append_rolls_every_member_back() {
    let mut store = Store::new();
    define(&mut store, "CREATE TABLE t (id INTEGER PRIMARY KEY)", 10);
    let mut group = GroupCommit::new();
    for owner in 1..=2u64 {
        let ops = write(&mut store, &format!("INSERT INTO t VALUES ({owner})"), 10, owner).unwrap();
        group.submit(owner, encode_records(&ops));
    }
    let batch = group.drain_batch();
    let fault = commit_error(StorageFault::Fenced, "a newer writer".to_string());
    let gone = group.flush_batch(&mut store, &batch, Err(fault));
    assert_eq!(gone, vec![("t".to_string(), vec![1]), ("t".to_string(), vec![2])]);
    assert!(versions(&store, "t").is_empty());
    assert_eq!(store.committed_lsn, 10);
    let e = group.reclaim(2).unwrap().err().unwrap();
    assert_eq!(e.status, EngineStatus::ErrConflict);
    assert_eq!(e.message, "a newer writer");
    assert_eq!(group.metrics(), (1, 0));
}

#[test]
fn writers_in_flight_together_are_found_again() {
    let mut log: Vec<(u64, Vec<u8>)> = Vec::new();
    let mut live = Store::new();
    let op = define(&mut live, "CREATE TABLE t (id INTEGER PRIMARY KEY, n INTEGER)", 2).unwrap();
    append(&mut log, encode_records(&[op]));
    let ops = write(&mut live, "INSERT INTO t VALUES (1, 0), (2, 0), (3, 0)", 2, 1).unwrap();
    let lsn = append(&mut log, encode_records(&ops));
    live.finalize_owner(1, lsn);
    live.committed_lsn = lsn;

    // Three writers one behind the other, none of them settled yet.
    let mut group = GroupCommit::new();
    for (owner, sqls) in [
        (2, ["UPDATE t SET n = 5 WHERE id = 1", "INSERT INTO t VALUES (10, 1)"]),
        (3, ["DELETE FROM t WHERE id = 2", "INSERT INTO t VALUES (11, 2)"]),
    ] {
        let mut ops = write(&mut live, sqls[0], lsn, owner).unwrap();
        ops.extend(write(&mut live, sqls[1], lsn, owner).unwrap());
        group.submit(owner, encode_records(&ops));
    }
    write(&mut live, "INSERT INTO t VALUES (12, 3)", lsn, 4).unwrap();
    write(&mut live, "DELETE FROM t WHERE id = 3", lsn, 4).unwrap();

    let batch = group.drain_batch();
    assert_eq!(batch.len(), 2);
    let last = append(&mut log, gather(&batch));
    group.flush_batch(&mut live, &batch, Ok(last));
    assert_eq!(live.committed_lsn, last);

    // The third is still in flight, and leaves nothing.
    let back = recover(&log).unwrap();
    assert_ne!(versions(&back, "t"), versions(&live, "t"));
    live.rollback_owner(4);
    assert_eq!(versions(&back, "t"), versions(&live, "t"));
    assert_eq!(back.committed_lsn, last);
    let marks: Vec<u64> = versions(&back, "t").iter().map(|v| v.1).collect();
    assert_eq!(marks, [lsn, lsn, lsn, last - 3, last - 3, last]);
}

#[test]
fn a_failed_batch_leaves_those_behind_it() {
    let mut log: Vec<(u64, Vec<u8>)> = Vec::new();
    let mut live = Store::new();
    let op = define(&mut live, "CREATE TABLE t (id INTEGER PRIMARY KEY)", 2).unwrap();
    append(&mut log, encode_records(&[op]));
    let mut group = GroupCommit::new();
    let ops = write(&mut live, "INSERT INTO t VALUES (1)", 2, 5).unwrap();
    group.submit(5, encode_records(&ops));
    let failing = group.drain_batch();
    let ops = write(&mut live, "INSERT INTO t VALUES (2)", 2, 6).unwrap();
    group.submit(6, encode_records(&ops));
    let fault = commit_error(StorageFault::Other, "disk".to_string());
    group.flush_batch(&mut live, &failing, Err(fault));
    let batch = group.drain_batch();
    let last = append(&mut log, gather(&batch));
    group.flush_batch(&mut live, &batch, Ok(last));
    let back = recover(&log).unwrap();
    assert_eq!(versions(&back, "t"), versions(&live, "t"));
    assert_eq!(versions(&back, "t"), [(2, last, 0, 0)]);
}

#[test]
fn a_batch_keeps_to_its_cap() {
    let mut group = GroupCommit::new();
    let rec = |n: usize| vec![vec![0u8]; n];
    group.submit(1, rec(MAX_BATCH_RECORDS + 5));
    group.submit(2, rec(1));
    group.submit(3, rec(MAX_BATCH_RECORDS - 1));
    group.submit(4, rec(1));
    assert_eq!(group.drain_batch().len(), 1);
    assert!(!group.relinquish());
    assert_eq!(group.drain_batch().len(), 2);
    assert_eq!(group.drain_batch().len(), 1);
    assert_eq!(group.drain_batch().len(), 0);
    assert!(group.relinquish());
}

#[test]
fn faults_have_their_status() {
    let status = |f: StorageFault| commit_error(f, String::new()).status;
    assert_eq!(status(StorageFault::Contended), EngineStatus::ErrConflict);
    assert_eq!(status(StorageFault::Fenced), EngineStatus::ErrConflict);
    assert_eq!(status(StorageFault::Invalid), EngineStatus::ErrStorage);
    assert_eq!(status(StorageFault::Other), EngineStatus::ErrStorage);
    let e = EngineError::from_storage(StorageFault::Invalid, "x".to_string());
    assert_eq!(e.status, EngineStatus::ErrMisuse);
    assert!(lost_lease(StorageFault::Fenced));
    assert!(!lost_lease(StorageFault::Contended));
    let codes: Vec<i32> = [
        EngineStatus::Success,
        EngineStatus::ErrSql,
        EngineStatus::ErrConstraint,
        EngineStatus::ErrConflict,
        EngineStatus::ErrStorage,
        EngineStatus::ErrTxn,
        EngineStatus::ErrMisuse,
        EngineStatus::ErrInternal,
    ]
    .iter()
    .map(|s| s.code())
    .collect();
    assert_eq!(codes, vec![0, 1, 2, 3, 4, 5, 6, 7]);
}

#[test]
fn one_writer_at_a_time() {
    let mut lane = WriteLane::new();
    assert!(lane.acquire());
    assert!(!lane.acquire());
    lane.release();
    assert!(lane.acquire());
    let mut ids = OwnerIds::new();
    assert_eq!((ids.next_owner(), ids.next_owner()), (1, 2));
    let mut last = OwnerIds { next: u64::MAX };
    assert_eq!((last.next_owner(), last.next_owner()), (u64::MAX, 1));
}

// ---- writers --------------------------------------------------------------------------------------

#[test]
fn a_row_that_changed_since_is_a_conflict() {
    let mut store = Store::new();
    define(&mut store, "CREATE TABLE t (id INTEGER PRIMARY KEY, n INTEGER)", 1);
    write(&mut store, "INSERT INTO t VALUES (1, 0)", 1, 1).unwrap();
    store.finalize_owner(1, 3);
    store.committed_lsn = 3;
    write(&mut store, "UPDATE t SET n = 1 WHERE id = 1", 3, 2).unwrap();
    // The second writer meets the pending change of the first.
    let e = write(&mut store, "UPDATE t SET n = 2 WHERE id = 1", 3, 4).err().unwrap();
    assert_eq!(e.status, EngineStatus::ErrConflict);
    store.finalize_owner(2, 5);
    store.committed_lsn = 5;
    // With its old snapshot it meets the committed one.
    let e = write(&mut store, "UPDATE t SET n = 2 WHERE id = 1", 3, 4).err().unwrap();
    assert_eq!(e.status, EngineStatus::ErrConflict);
    write(&mut store, "UPDATE t SET n = 2 WHERE id = 1", 5, 4).unwrap();
}

#[test]
fn a_row_that_another_deletes_is_not_replaced() {
    let mut store = Store::new();
    define(&mut store, "CREATE TABLE t (id INTEGER PRIMARY KEY, n INTEGER)", 1);
    write(&mut store, "INSERT INTO t VALUES (1, 0)", 1, 1).unwrap();
    store.finalize_owner(1, 3);
    store.committed_lsn = 3;
    write(&mut store, "DELETE FROM t WHERE id = 1", 3, 2).unwrap();
    let before = versions(&store, "t");
    let upsert = "INSERT INTO t VALUES (1, 7) ON CONFLICT (id) DO UPDATE SET n = 7";
    for sql in ["INSERT OR REPLACE INTO t VALUES (1, 7)", upsert] {
        let e = write(&mut store, sql, 3, 4).err().unwrap();
        assert_eq!(e.status, EngineStatus::ErrConflict);
        assert_eq!(versions(&store, "t"), before);
    }
    // A row that is left alone is no conflict.
    let skip = "INSERT INTO t VALUES (1, 7) ON CONFLICT (id) DO UPDATE SET n = 7 WHERE t.n > 5";
    write(&mut store, skip, 3, 4).unwrap();
    write(&mut store, "INSERT INTO t VALUES (1, 7) ON CONFLICT DO NOTHING", 3, 4).unwrap();
    store.rollback_owner(2);
    write(&mut store, upsert, 3, 4).unwrap();
}

#[test]
fn a_key_that_is_being_inserted_is_a_conflict() {
    let mut store = Store::new();
    define(&mut store, "CREATE TABLE t (id INTEGER PRIMARY KEY)", 1);
    write(&mut store, "INSERT INTO t VALUES (1)", 1, 1).unwrap();
    let e = write(&mut store, "INSERT INTO t VALUES (1)", 1, 2).err().unwrap();
    assert_eq!(e.status, EngineStatus::ErrConflict);
    store.rollback_owner(1);
    write(&mut store, "INSERT INTO t VALUES (1)", 1, 2).unwrap();
}

#[test]
fn an_upsert_to_a_key_that_is_being_inserted_is_a_conflict() {
    let mut store = Store::new();
    define(&mut store, "CREATE TABLE t (id INTEGER PRIMARY KEY, n INTEGER)", 1);
    write(&mut store, "INSERT INTO t VALUES (1, 0)", 1, 1).unwrap();
    store.finalize_owner(1, 3);
    store.committed_lsn = 3;
    write(&mut store, "INSERT INTO t VALUES (2, 0)", 3, 2).unwrap();
    let before = versions(&store, "t");
    let upsert = "INSERT INTO t VALUES (1, 9) ON CONFLICT (id) DO UPDATE SET id = 2";
    let e = write(&mut store, upsert, 3, 4).err().unwrap();
    assert_eq!(e.status, EngineStatus::ErrConflict);
    assert_eq!(e.message, "write conflict: t.id is being inserted by a concurrent transaction");
    assert_eq!(versions(&store, "t"), before);
    store.rollback_owner(2);
    write(&mut store, upsert, 3, 4).unwrap();
}

#[test]
fn a_lane_goes_to_one_after_the_other() {
    let mut lane = WriteLane::new();
    for _ in 0..3 {
        assert!(lane.acquire());
        assert!(!lane.acquire());
        assert!(!lane.acquire());
        lane.release();
    }
    assert!(lane.acquire());
}

// ---- definitions ----------------------------------------------------------------------------------

#[test]
fn definitions_are_refused_with_their_reasons() {
    let mut s = Store::new();
    define(&mut s, "CREATE TABLE t (id INTEGER PRIMARY KEY, e VECTOR(2), v TEXT)", 1);
    define(&mut s, "CREATE TABLE bare (x INTEGER)", 2);
    define(&mut s, "CREATE INDEX i ON t USING hnsw (e)", 3);
    define(&mut s, "CREATE VIEW w AS SELECT * FROM t", 4);
    assert_eq!(refusal(&s, "CREATE TABLE T (x INTEGER)"), "table T already exists");
    assert!(define(&mut s, "CREATE TABLE IF NOT EXISTS t (x INTEGER)", 5).is_none());
    assert_eq!(
        refusal(&s, "CREATE TABLE u (x INTEGER, PRIMARY KEY (y))"),
        "PRIMARY KEY references unknown column y"
    );
    assert_eq!(
        refusal(&s, "CREATE TABLE u (x INTEGER REFERENCES bare)"),
        "foreign key on u references bare which has no known primary key"
    );
    assert_eq!(
        refusal(&s, "CREATE TABLE u (x INTEGER, y INTEGER, FOREIGN KEY (x, y) REFERENCES t (id))"),
        "foreign key on u: 2 local column(s) reference 1 column(s)"
    );
    assert_eq!(refusal(&s, "DROP TABLE nope"), "no such table: nope");
    assert!(define(&mut s, "DROP TABLE IF EXISTS nope", 5).is_none());
    assert_eq!(refusal(&s, "CREATE INDEX I ON t USING hnsw (e)"), "index I already exists");
    assert_eq!(refusal(&s, "CREATE INDEX j ON nope USING hnsw (e)"), "no such table: nope");
    assert_eq!(refusal(&s, "CREATE INDEX j ON t USING hnsw (q)"), "no such column: t.q");
    assert_eq!(
        refusal(&s, "CREATE INDEX j ON t USING hnsw (v)"),
        "HNSW index requires a vector column; t.v is not a vector"
    );
    assert_eq!(refusal(&s, "DROP INDEX nope"), "no such index: nope");
    assert_eq!(
        refusal(&s, "CREATE VIEW t AS SELECT 1"),
        "cannot create view t: a table with that name already exists"
    );
    assert_eq!(refusal(&s, "CREATE VIEW w AS SELECT 1"), "view w already exists");
    assert_eq!(
        refusal(&s, "CREATE OR REPLACE VIEW w AS SELECT * FROM w"),
        "cannot create view w: the definition is recursive (unsupported)"
    );
    assert_eq!(refusal(&s, "DROP VIEW nope"), "no such view: nope");
    assert_eq!(refusal(&s, "ALTER TABLE nope DROP COLUMN x"), "no such table: nope");
    assert_eq!(
        refusal(&s, "ALTER TABLE t ADD COLUMN V TEXT"),
        "column V already exists in t"
    );
    assert_eq!(refusal(&s, "ALTER TABLE t DROP COLUMN q"), "no such column: t.q");
    assert!(define(&mut s, "ALTER TABLE t DROP COLUMN IF EXISTS q", 5).is_none());
}

#[test]
fn a_foreign_key_defaults_to_the_primary_key() {
    let mut s = Store::new();
    define(&mut s, "CREATE TABLE a (id INTEGER PRIMARY KEY)", 1);
    define(&mut s, "CREATE TABLE b (id INTEGER PRIMARY KEY, a_id INTEGER REFERENCES a)", 2);
    let fk = &s.table("b").unwrap().schema.foreign_keys[0];
    assert_eq!(fk.name, "b_a_id_fkey");
    assert_eq!(fk.foreign_columns, vec!["id".to_string()]);
    define(&mut s, "CREATE TABLE c (id INTEGER PRIMARY KEY, up INTEGER REFERENCES c)", 3);
    assert_eq!(
        s.table("c").unwrap().schema.foreign_keys[0].foreign_columns,
        vec!["id".to_string()]
    );
}

#[test]
fn a_view_that_leads_back_is_refused() {
    let mut s = Store::new();
    define(&mut s, "CREATE TABLE t (id INTEGER)", 1);
    define(&mut s, "CREATE VIEW a AS SELECT * FROM t", 2);
    define(&mut s, "CREATE VIEW b AS SELECT * FROM a", 3);
    assert_eq!(
        refusal(&s, "CREATE OR REPLACE VIEW a AS SELECT * FROM t WHERE id IN (SELECT id FROM b)"),
        "cannot create view a: the definition is recursive (unsupported)"
    );
    assert!(define(&mut s, "CREATE OR REPLACE VIEW a AS SELECT 1 AS id", 4).is_some());
}
