use std::cell::RefCell;
use std::collections::HashMap;
use std::rc::{Rc, Weak};
use twill::asks::{Answer, Ask, Binary, Reals, Stop, Unary};
use twill::conn::{encode_records, writes, Next, Outcome};
use twill::datetime::now_epoch;
use twill::env::Env;
use twill::error::{EngineError, EngineStatus};
use twill::graph::{Known, VectorIndex, MAX_LEVEL};
use twill::graphs::Graphs;
use twill::group_commit::{gather, GroupCommit};
use twill::host::{index_page_region, OwnerIds, WriteLane};
use twill::pages::{is_current, parse_page_header};
use twill::prepared::Statement;
use twill::pstmt::parse;
use twill::query::ResultSet;
use twill::recovery::{replay, LogEntry};
use twill::reflect::{CatalogPolicy, CatalogTable};
use twill::session::SessionContext;
use twill::sql::Stmt;
use twill::store::Store;
use twill::upkeep::{compaction_floor, index_adds, index_entries, live_entries};
use twill::value::Value;
use twill::vector::Metric;
use twill::wal::WalOp;

// ---- the floating-point unit ----------------------------------------------------------------------

fn dot(a: &[f32], b: &[f32]) -> f32 {
    a.iter().zip(b).map(|(x, y)| x * y).sum()
}

fn distance(metric: Metric, a: &[u32], b: &[u32]) -> f32 {
    let a: Vec<f32> = a.iter().map(|x| f32::from_bits(*x)).collect();
    let b: Vec<f32> = b.iter().map(|x| f32::from_bits(*x)).collect();
    match metric {
        Metric::L2 => a.iter().zip(&b).map(|(x, y)| (x - y) * (x - y)).sum::<f32>().sqrt(),
        Metric::Cosine => {
            let na = dot(&a, &a).sqrt();
            let nb = dot(&b, &b).sqrt();
            if na == 0.0 || nb == 0.0 {
                1.0
            } else {
                1.0 - dot(&a, &b) / (na * nb)
            }
        }
        Metric::InnerProduct => -dot(&a, &b),
    }
}

fn wide(d: f32) -> u64 {
    (d as f64).to_bits()
}

/// The layer that a draw stands for.
fn level_of(draw: u64, m: usize) -> usize {
    let u = ((draw >> 11) as f64 / (1u64 << 53) as f64).max(1e-12);
    let ml = 1.0 / (m.max(2) as f64).ln();
    ((-u.ln() * ml).floor() as usize).min(MAX_LEVEL)
}

fn compute(ask: &Ask, seed: &mut u64) -> Option<Answer> {
    let f = |b: u64| f64::from_bits(b);
    Some(match ask {
        Ask::Parse(s) => Answer::Number(s.parse::<f64>().ok().map(f64::to_bits)),
        Ask::Parse32(s) => Answer::Number32(s.parse::<f32>().ok().map(f32::to_bits)),
        Ask::Narrow(b) => Answer::Number32(Some((f(*b) as f32).to_bits())),
        Ask::Int32(n) => Answer::Number32(Some((*n as f32).to_bits())),
        Ask::Show(b) => Answer::Text(format!("{}", f(*b))),
        Ask::Show32(b) => Answer::Text(format!("{}", f32::from_bits(*b))),
        Ask::Spell(b) => Answer::Text(format!("{:?}", f(*b))),
        Ask::Apply2(op, a, b) => {
            let (x, y) = (f(*a), f(*b));
            let r = match op {
                Binary::Plus => x + y,
                Binary::Minus => x - y,
                Binary::Times => x * y,
                Binary::Over => x / y,
                Binary::Modulo => x % y,
                Binary::Power => x.powf(y),
            };
            Answer::Bits(r.to_bits())
        }
        Ask::Apply1(op, a) => {
            let x = f(*a);
            let r = match op {
                Unary::Sqrt => x.sqrt(),
                Unary::Exp => x.exp(),
                Unary::Ln => x.ln(),
                Unary::Log10 => x.log10(),
            };
            Answer::Bits(r.to_bits())
        }
        Ask::Places(a, n) => {
            let m = 10f64.powi(*n as i32);
            Answer::Bits(((f(*a) * m).round() / m).to_bits())
        }
        Ask::Total(v) => Answer::Bits(v.iter().map(|b| f(*b)).sum::<f64>().to_bits()),
        Ask::Draw(..) => {
            *seed = seed.wrapping_add(0x9E37_79B9_7F4A_7C15);
            let mut z = *seed;
            z = (z ^ (z >> 30)).wrapping_mul(0xBF58_476D_1CE4_E5B9);
            z = (z ^ (z >> 27)).wrapping_mul(0x94D0_49BB_1331_11EB);
            Answer::Bits(z ^ (z >> 31))
        }
        Ask::Distance(m, a, b) => Answer::Bits(wide(distance(*m, a, b))),
        Ask::Graph(_) | Ask::Nearest(..) => return None,
    })
}

// ---- vector indexes -------------------------------------------------------------------------------

fn learn(ix: &VectorIndex, known: &mut Known, want: &[(usize, usize)], query: &[u32]) {
    let metric = ix.metric();
    for &(a, b) in want {
        let x = if a < ix.nodes.len() { ix.nodes[a].vector.as_slice() } else { query };
        let y = if b < ix.nodes.len() { ix.nodes[b].vector.as_slice() } else { query };
        known.learn(a, b, wide(distance(metric, x, y)));
    }
}

fn grow(ix: &mut VectorIndex, vid: u64, vector: &[u32]) {
    let level = level_of(ix.draw(), ix.def.params.m);
    let mut known = Known::new();
    loop {
        match ix.insert(vid, vector.to_vec(), level, &known) {
            Ok(()) => return,
            Err(want) => learn(ix, &mut known, &want, vector),
        }
    }
}

fn nearest(ix: &VectorIndex, query: &[u32], k: usize, ef: Option<usize>) -> Vec<(u64, u64)> {
    let mut known = Known::new();
    loop {
        match ix.search(&known, k, ef) {
            Ok(v) => return v,
            Err(want) => learn(ix, &mut known, &want, query),
        }
    }
}

fn fill(ix: &mut VectorIndex, store: &Store) {
    let def = ix.def.clone();
    for e in index_entries(store, &def) {
        grow(ix, e.vid, &e.vector);
        if e.dead {
            ix.mark_dead(e.vid);
        }
    }
}

fn compact(ix: &VectorIndex, store: &Store, lsn: u64) -> VectorIndex {
    let mut fresh = VectorIndex::new(ix.def.clone());
    for e in live_entries(index_entries(store, &ix.def)) {
        grow(&mut fresh, e.vid, &e.vector);
    }
    fresh.set_rebuild_floor(compaction_floor(ix, lsn));
    fresh
}

// ---- a database -----------------------------------------------------------------------------------

#[derive(Default)]
struct DiskInner {
    log: Vec<(u64, Vec<u8>)>,
    pages: HashMap<u64, Vec<u8>>,
    open: Weak<RefCell<Database>>,
}

/// What outlives a process.
#[derive(Clone, Default)]
struct Disk(Rc<RefCell<DiskInner>>);

struct Database {
    store: Store,
    lane: WriteLane,
    group: GroupCommit,
    owners: OwnerIds,
    graphs: Graphs,
    disk: Disk,
    seed: u64,
    pages_loaded: u64,
    is_branch: bool,
}

fn answer(db: &mut Database, reals: &mut Reals, ask: Ask) {
    let a = match compute(&ask, &mut db.seed) {
        Some(a) => a,
        None => match &ask {
            Ask::Graph(name) => match db.graphs.find(name) {
                Some(at) => {
                    let ix = db.graphs.get(at);
                    Answer::Graph(ix.len() as u64, ix.rebuild_floor())
                }
                None => Answer::Graph(0, 0),
            },
            Ask::Nearest(name, q, k, ef) => {
                let ix = db.graphs.get(db.graphs.find(name).unwrap());
                let hits = nearest(ix, q, *k as usize, Some(*ef as usize));
                Answer::Ids(hits.into_iter().map(|(vid, _)| vid).collect())
            }
            _ => unreachable!(),
        },
    };
    reals.file(ask, a);
}

impl Database {
    fn append(&mut self, records: Vec<Vec<u8>>) -> u64 {
        let mut d = self.disk.0.borrow_mut();
        let mut lsn = d.log.last().map(|e| e.0).unwrap_or(0);
        for r in records {
            lsn += 1;
            d.log.push((lsn, r));
        }
        lsn
    }

    fn open(disk: &Disk, is_branch: bool) -> Rc<RefCell<Database>> {
        if let Some(db) = disk.0.borrow().open.upgrade() {
            return db;
        }
        let log: Vec<LogEntry> = disk
            .0
            .borrow()
            .log
            .iter()
            .map(|(lsn, bytes)| LogEntry { lsn: *lsn, bytes: bytes.clone() })
            .collect();
        let head = log.last().map(|e| e.lsn).unwrap_or(0);
        let mut seed = 7;
        let mut reals = Reals::new();
        let store = loop {
            let env = Env { reals: &reals, now: now_epoch(), params: &[], session: &SessionContext::default(), place: &[] };
            match replay(&log, head, &env) {
                Ok(s) => break s,
                Err(Stop::Need(ask)) => {
                    let a = compute(&ask, &mut seed).unwrap();
                    reals.file(ask, a);
                }
                Err(Stop::Fail(e)) => panic!("{e:?}"),
            }
        };
        let mut graphs = Graphs::new();
        let mut pages_loaded = 0;
        for name in store.index_names() {
            let def = store.index_def(&name).unwrap();
            let ix = match load_pages(disk, &def, store.committed_lsn) {
                Some(ix) => {
                    pages_loaded += 1;
                    ix
                }
                None => {
                    let mut ix = VectorIndex::new(def);
                    fill(&mut ix, &store);
                    if ix.needs_maintenance() {
                        ix = compact(&ix, &store, store.committed_lsn);
                    }
                    ix
                }
            };
            graphs.put(ix);
        }
        let db = Rc::new(RefCell::new(Database {
            store,
            lane: WriteLane::new(),
            group: GroupCommit::new(),
            owners: OwnerIds::new(),
            graphs,
            disk: disk.clone(),
            seed,
            pages_loaded,
            is_branch,
        }));
        disk.0.borrow_mut().open = Rc::downgrade(&db);
        db
    }

    fn index_rows(&mut self, ops: &[WalOp]) {
        for op in ops {
            if let WalOp::Insert { table, vid, values } = op {
                for (name, v) in index_adds(&self.store, table, values) {
                    if let Some(at) = self.graphs.find(&name) {
                        let ix = self.graphs.get(at);
                        let level = level_of(ix.draw(), ix.def.params.m);
                        let mut known = Known::new();
                        while let Err(want) = self.graphs.grow(at, *vid, v.clone(), level, &known) {
                            learn(self.graphs.get(at), &mut known, &want, &v);
                        }
                    }
                }
            }
        }
    }

    fn end_rows(&mut self, ended: &[(String, Vec<u64>)], lsn: u64) {
        for (table, vids) in ended {
            for name in self.graphs.end_rows(table, vids) {
                let at = self.graphs.find(&name).unwrap();
                let fresh = compact(self.graphs.get(at), &self.store, lsn);
                self.graphs.put(fresh);
            }
        }
    }

    fn commit(&mut self, owner: u64, ops: &[WalOp]) -> Result<u64, EngineError> {
        let (id, _) = self.group.submit(owner, encode_records(ops));
        self.lane.release();
        loop {
            let batch = self.group.drain_batch();
            if !batch.is_empty() {
                let last = self.append(gather(&batch));
                let ended = self.group.flush_batch(&mut self.store, &batch, Ok(last));
                self.end_rows(&ended, last);
            }
            if self.group.relinquish() {
                break;
            }
        }
        self.group.reclaim(id).unwrap()
    }
}

fn copy_op(op: &WalOp) -> WalOp {
    WalOp::decode(&op.encode()).unwrap()
}

fn load_pages(disk: &Disk, def: &twill::vector::IndexDef, committed: u64) -> Option<VectorIndex> {
    let d = disk.0.borrow();
    let region = index_page_region(&def.name);
    let first = d.pages.get(&region)?;
    let h = parse_page_header(first)?;
    if !is_current(&h, &def.name, committed) {
        return None;
    }
    let mut frames = vec![first.clone()];
    for i in 0..h.num_body_pages as u64 {
        frames.push(d.pages.get(&(region + 1 + i))?.clone());
    }
    VectorIndex::from_page_frames(def.clone(), &frames)
}

/// A connection to a database, with a host behind it.
struct Connection {
    db: Rc<RefCell<Database>>,
    state: Rc<RefCell<twill::conn::Connection>>,
    pub last_changes: i64,
    pub last_lsn: i64,
}

fn parsed(sql: &str) -> Result<(Stmt, usize), EngineError> {
    let mut seed = 1;
    let mut reals = Reals::new();
    loop {
        match parse(sql, &reals) {
            Ok(p) => return Ok(p),
            Err(Stop::Fail(e)) => return Err(e),
            Err(Stop::Need(ask)) => {
                let a = compute(&ask, &mut seed).unwrap();
                reals.file(ask, a);
            }
        }
    }
}

/// Run a statement to its end: answer what it asks, and do what it leaves to do.
fn run_on(
    db: &Rc<RefCell<Database>>,
    state: &Rc<RefCell<twill::conn::Connection>>,
    sql: &str,
    stmt: &Stmt,
    params: &[Value],
) -> Result<ResultSet, EngineError> {
    let db = &mut *db.borrow_mut();
    let conn = &mut *state.borrow_mut();
    let mut reals = Reals::new();
    let now = now_epoch();
    let took = writes(stmt) && !conn.is_writer();
    if took && !db.lane.acquire() {
        return Err(EngineError::new(EngineStatus::ErrConflict, "the write lane is held".to_string()));
    }
    let out: Outcome = loop {
        let owner = db.owners.next_owner();
        let env = Env { reals: &reals, now, params, session: &SessionContext::default(), place: &[] };
        match conn.run(&mut db.store, stmt, owner, &env) {
            Ok(o) => break o,
            Err(Stop::Need(ask)) => answer(db, &mut reals, ask),
            Err(Stop::Fail(e)) => {
                if took && !conn.is_writer() {
                    db.lane.release();
                }
                return Err(e);
            }
        }
    };
    db.graphs.drop_rows(&out.gone);
    match out.next {
        Next::Nothing => {
            if let Some(t) = &conn.txn {
                let ops: Vec<WalOp> = t.wal_ops.iter().map(copy_op).collect();
                db.index_rows(&ops);
            }
        }
        Next::Release => db.lane.release(),
        Next::Append { owner, ops } => {
            db.index_rows(&ops);
            let lsn = db.commit(owner, &ops)?;
            conn.acknowledge(lsn);
        }
        Next::Define { op } => {
            let lsn = db.append(encode_records(std::slice::from_ref(&op)));
            let (again, _) = parsed(sql)?;
            let env = Env { reals: &reals, now, params, session: &SessionContext::default(), place: &[] };
            match conn.define(&mut db.store, again, &op, lsn, &env) {
                Ok(()) => {}
                Err(_) => panic!("a durable definition has to take effect"),
            }
            db.graphs.follow(&op);
            if let WalOp::CreateIndex { def } = &op {
                let mut ix = VectorIndex::new(def.clone());
                fill(&mut ix, &db.store);
                if let Some(frames) = ix.to_page_frames(lsn) {
                    let region = index_page_region(&def.name);
                    let mut d = db.disk.0.borrow_mut();
                    for (i, f) in frames.into_iter().enumerate() {
                        d.pages.insert(region + i as u64, f);
                    }
                }
                db.graphs.put(ix);
            }
            db.lane.release();
        }
    }
    Ok(out.result)
}

#[allow(dead_code)]
impl Connection {
    fn open(disk: &Disk) -> Result<Connection, EngineError> {
        Ok(Connection {
            db: Database::open(disk, false),
            state: Rc::new(RefCell::new(twill::conn::Connection::new())),
            last_changes: 0,
            last_lsn: 0,
        })
    }

    fn note(&mut self) {
        self.last_changes = self.state.borrow().last_changes;
        self.last_lsn = self.state.borrow().last_lsn;
    }

    fn query(&mut self, sql: &str) -> Result<ResultSet, EngineError> {
        let (stmt, _) = parsed(sql)?;
        let r = run_on(&self.db, &self.state, sql, &stmt, &[]);
        self.note();
        r
    }

    fn exec(&mut self, sql: &str) -> Result<(), EngineError> {
        self.query(sql).map(|_| ())
    }

    fn begin(&mut self) -> Result<(), EngineError> {
        self.exec("BEGIN")
    }

    fn commit(&mut self) -> Result<(), EngineError> {
        self.exec("COMMIT")
    }

    fn rollback(&mut self) -> Result<(), EngineError> {
        self.exec("ROLLBACK")
    }

    fn catalog(&self) -> Vec<CatalogTable> {
        self.state.borrow().catalog(&self.db.borrow().store)
    }

    fn policies(&self) -> Vec<CatalogPolicy> {
        self.state.borrow().policies(&self.db.borrow().store)
    }

    fn rls_enabled(&self, table: &str) -> bool {
        self.state.borrow().rls_enabled(&self.db.borrow().store, table)
    }

    fn vector_pages_loaded(&self) -> u64 {
        self.db.borrow().pages_loaded
    }

    fn branch(&self, _name: &str) -> Result<Connection, EngineError> {
        self.state.borrow().check_branch(self.db.borrow().is_branch)?;
        let copy = Disk::default();
        copy.0.borrow_mut().log = self.db.borrow().disk.0.borrow().log.clone();
        Ok(Connection {
            db: Database::open(&copy, true),
            state: Rc::new(RefCell::new(twill::conn::Connection::new())),
            last_changes: 0,
            last_lsn: 0,
        })
    }

    fn prepare(&mut self, sql: &str) -> Result<Prepared, EngineError> {
        let (stmt, n) = parsed(sql)?;
        Ok(Prepared {
            db: self.db.clone(),
            state: self.state.clone(),
            sql: sql.to_string(),
            st: Statement::new(stmt, n),
        })
    }
}

impl Drop for Connection {
    fn drop(&mut self) {
        let db = &mut *self.db.borrow_mut();
        let (held, gone) = self.state.borrow_mut().close(&mut db.store);
        db.graphs.drop_rows(&gone);
        if held {
            db.lane.release();
        }
    }
}

/// A prepared statement, with a host behind it.
#[allow(dead_code)]
struct Prepared {
    db: Rc<RefCell<Database>>,
    state: Rc<RefCell<twill::conn::Connection>>,
    sql: String,
    st: Statement,
}

#[allow(dead_code)]
impl Prepared {
    fn bind(&mut self, idx: usize, value: Value) -> Result<(), EngineError> {
        self.st.bind(idx, value)
    }

    fn execute(&mut self) -> Result<(), EngineError> {
        if !self.st.executed() {
            let rs = run_on(&self.db, &self.state, &self.sql, &self.st.stmt, self.st.params())?;
            self.st.fill(rs);
        }
        Ok(())
    }

    fn step(&mut self) -> Result<bool, EngineError> {
        self.execute()?;
        Ok(self.st.step())
    }

    fn changes(&self) -> i64 {
        self.state.borrow().last_changes
    }

    fn reset(&mut self) {
        self.st.reset()
    }

    fn param_count(&self) -> usize {
        self.st.param_count()
    }

    fn column_value(&self, col: usize) -> Option<&Value> {
        self.st.column_value(col)
    }
}

/// The text of a value, as clients see it.
trait Shown {
    fn shown(&self) -> Option<String>;
}

impl Shown for Value {
    fn shown(&self) -> Option<String> {
        let mut seed = 1;
        let mut reals = Reals::new();
        loop {
            match self.render(&reals) {
                Ok(o) => return o.map(|cs| cs.into_iter().collect()),
                Err(Stop::Need(ask)) => {
                    let a = compute(&ask, &mut seed).unwrap();
                    reals.file(ask, a);
                }
                Err(Stop::Fail(e)) => panic!("{e:?}"),
            }
        }
    }
}

fn db_path(_tag: &str) -> Disk {
    Disk::default()
}

#[allow(dead_code)]
fn url_for(p: &Disk) -> Disk {
    p.clone()
}

#[allow(dead_code)]
fn cell(rs: &ResultSet, row: usize, col: usize) -> Option<String> {
    rs.rows[row][col].shown()
}

// ---- tests ----------------------------------------------------------------------------------------

#[test]
fn ddl_dml_and_select() {
    let p = db_path("ddl");
    let mut db = Connection::open(&url_for(&p)).unwrap();

    db.exec("CREATE TABLE notes (id INTEGER PRIMARY KEY, body TEXT, weight REAL)")
        .unwrap();
    db.exec("INSERT INTO notes (id, body, weight) VALUES (1, 'hello', 1.5)")
        .unwrap();
    db.exec("INSERT INTO notes (id, body, weight) VALUES (2, 'world', 2.0), (3, 'again', 3.0)")
        .unwrap();
    assert_eq!(db.last_changes, 2);

    let rs = db.query("SELECT id, body FROM notes WHERE id = 2").unwrap();
    assert_eq!(rs.rows.len(), 1);
    assert_eq!(cell(&rs, 0, 0).as_deref(), Some("2"));
    assert_eq!(cell(&rs, 0, 1).as_deref(), Some("world"));

    // UPDATE + DELETE
    db.exec("UPDATE notes SET body = 'HELLO' WHERE id = 1")
        .unwrap();
    assert_eq!(db.last_changes, 1);
    db.exec("DELETE FROM notes WHERE id = 3").unwrap();
    assert_eq!(db.last_changes, 1);

    let rs = db
        .query("SELECT id, body FROM notes ORDER BY id DESC")
        .unwrap();
    assert_eq!(rs.rows.len(), 2);
    assert_eq!(cell(&rs, 0, 0).as_deref(), Some("2"));
    assert_eq!(cell(&rs, 1, 1).as_deref(), Some("HELLO"));

    let rs = db.query("SELECT COUNT(*) AS n FROM notes").unwrap();
    assert_eq!(rs.columns[0], "n");
    assert_eq!(cell(&rs, 0, 0).as_deref(), Some("2"));

    let rs = db.query("SELECT 1 + 2 AS s, 'x' AS lit").unwrap();
    assert_eq!(cell(&rs, 0, 0).as_deref(), Some("3"));
    assert_eq!(cell(&rs, 0, 1).as_deref(), Some("x"));
}

#[test]
fn persists_across_restart() {
    let p = db_path("persist");
    let url = url_for(&p);
    {
        let mut db = Connection::open(&url).unwrap();
        db.exec("CREATE TABLE kv (k TEXT PRIMARY KEY, v INTEGER)")
            .unwrap();
        db.exec("INSERT INTO kv VALUES ('a', 1), ('b', 2)").unwrap();
        db.exec("UPDATE kv SET v = 20 WHERE k = 'b'").unwrap();
        let lsn = db.last_lsn;
        assert!(lsn > 0, "commit should advance the LSN");
    } // all handles dropped → Database dropped → only the .db file remains

    // Reopen: state is rebuilt purely from the durable WAL.
    let mut db = Connection::open(&url).unwrap();
    let rs = db.query("SELECT k, v FROM kv ORDER BY k").unwrap();
    assert_eq!(rs.rows.len(), 2);
    assert_eq!(cell(&rs, 0, 0).as_deref(), Some("a"));
    assert_eq!(cell(&rs, 0, 1).as_deref(), Some("1"));
    assert_eq!(cell(&rs, 1, 0).as_deref(), Some("b"));
    assert_eq!(cell(&rs, 1, 1).as_deref(), Some("20"));
}

#[test]
fn mvcc_snapshot_isolation() {
    let p = db_path("mvcc");
    let url = url_for(&p);
    let mut setup = Connection::open(&url).unwrap();
    setup
        .exec("CREATE TABLE t (id INTEGER PRIMARY KEY, n INTEGER)")
        .unwrap();
    setup.exec("INSERT INTO t VALUES (1, 100)").unwrap();

    // Two handles to the same database share MVCC state in-process.
    let mut reader = Connection::open(&url).unwrap();
    let mut writer = Connection::open(&url).unwrap();

    reader.begin().unwrap(); // capture a stable snapshot
    let before = reader.query("SELECT COUNT(*) FROM t").unwrap();
    assert_eq!(cell(&before, 0, 0).as_deref(), Some("1"));

    // A concurrent committed write by another handle.
    writer.exec("INSERT INTO t VALUES (2, 200)").unwrap();

    // The reader still sees its consistent snapshot (not the new row).
    let during = reader.query("SELECT COUNT(*) FROM t").unwrap();
    assert_eq!(
        cell(&during, 0, 0).as_deref(),
        Some("1"),
        "reader must not see a write committed after its snapshot"
    );

    reader.commit().unwrap(); // end the snapshot
    let after = reader.query("SELECT COUNT(*) FROM t").unwrap();
    assert_eq!(
        cell(&after, 0, 0).as_deref(),
        Some("2"),
        "a fresh snapshot sees the committed write"
    );
}

#[test]
fn transaction_rollback_discards_writes() {
    let p = db_path("rollback");
    let mut db = Connection::open(&url_for(&p)).unwrap();
    db.exec("CREATE TABLE t (id INTEGER PRIMARY KEY)").unwrap();
    db.exec("INSERT INTO t VALUES (1)").unwrap();

    db.begin().unwrap();
    db.exec("INSERT INTO t VALUES (2)").unwrap();
    // read-your-writes within the transaction
    let mid = db.query("SELECT COUNT(*) FROM t").unwrap();
    assert_eq!(cell(&mid, 0, 0).as_deref(), Some("2"));
    db.rollback().unwrap();

    let after = db.query("SELECT COUNT(*) FROM t").unwrap();
    assert_eq!(cell(&after, 0, 0).as_deref(), Some("1"));
}

#[test]
fn prepared_statements_with_params() {
    let p = db_path("prep");
    let mut db = Connection::open(&url_for(&p)).unwrap();
    db.exec("CREATE TABLE u (id INTEGER PRIMARY KEY, name TEXT)")
        .unwrap();

    let mut ins = db
        .prepare("INSERT INTO u (id, name) VALUES (?, ?)")
        .unwrap();
    for (id, name) in [(1, "ada"), (2, "bel"), (3, "cyn")] {
        ins.bind(1, Value::Int(id)).unwrap();
        ins.bind(2, Value::Text(name.to_string())).unwrap();
        let _ = ins.step().unwrap(); // executes the INSERT
        assert_eq!(ins.changes(), 1);
        ins.reset();
    }
    drop(ins);

    let mut sel = db.prepare("SELECT name FROM u WHERE id = ?").unwrap();
    sel.bind(1, Value::Int(2)).unwrap();
    assert!(sel.step().unwrap());
    assert_eq!(
        sel.column_value(0).and_then(|v| v.shown()).as_deref(),
        Some("bel")
    );
    assert!(!sel.step().unwrap()); // no more rows
    drop(sel);

    let rs = db.query("SELECT COUNT(*) FROM u").unwrap();
    assert_eq!(cell(&rs, 0, 0).as_deref(), Some("3"));
}

#[test]
fn primary_key_uniqueness_is_enforced() {
    let p = db_path("pk");
    let mut db = Connection::open(&url_for(&p)).unwrap();
    db.exec("CREATE TABLE t (id INTEGER PRIMARY KEY, v TEXT)")
        .unwrap();
    db.exec("INSERT INTO t VALUES (1, 'a')").unwrap();

    let err = db.exec("INSERT INTO t VALUES (1, 'dup')").unwrap_err();
    assert_eq!(err.status, EngineStatus::ErrConstraint);

    // NOT NULL on the primary key.
    let err = db.exec("INSERT INTO t (v) VALUES ('no-id')").unwrap_err();
    assert_eq!(err.status, EngineStatus::ErrConstraint);

    // The failed inserts left no trace.
    let rs = db.query("SELECT COUNT(*) FROM t").unwrap();
    assert_eq!(cell(&rs, 0, 0).as_deref(), Some("1"));
}

#[test]
fn aggregates_and_arithmetic() {
    let p = db_path("agg");
    let mut db = Connection::open(&url_for(&p)).unwrap();
    db.exec("CREATE TABLE m (id INTEGER PRIMARY KEY, x INTEGER)")
        .unwrap();
    db.exec("INSERT INTO m VALUES (1, 10), (2, 20), (3, 30)")
        .unwrap();

    let rs = db
        .query("SELECT COUNT(*) AS c, SUM(x) AS s, MIN(x) AS lo, MAX(x) AS hi, AVG(x) AS a FROM m")
        .unwrap();
    assert_eq!(cell(&rs, 0, 0).as_deref(), Some("3"));
    assert_eq!(cell(&rs, 0, 1).as_deref(), Some("60"));
    assert_eq!(cell(&rs, 0, 2).as_deref(), Some("10"));
    assert_eq!(cell(&rs, 0, 3).as_deref(), Some("30"));
    assert_eq!(cell(&rs, 0, 4).as_deref(), Some("20.0"));

    let rs = db
        .query("SELECT x FROM m WHERE x >= 20 ORDER BY x")
        .unwrap();
    assert_eq!(rs.rows.len(), 2);
    assert_eq!(cell(&rs, 0, 0).as_deref(), Some("20"));
}

#[test]
fn transaction_keywords_and_modes() {
    let p = db_path("txnkw");
    let mut db = Connection::open(&url_for(&p)).unwrap();
    db.exec("CREATE TABLE t (id INTEGER PRIMARY KEY)").unwrap();

    // BEGIN with a full transaction-mode list (PostgREST's exact form) commits.
    db.exec("BEGIN ISOLATION LEVEL READ COMMITTED READ ONLY")
        .unwrap();
    db.exec("INSERT INTO t VALUES (1)").unwrap();
    db.exec("COMMIT").unwrap();
    assert_eq!(db.query("SELECT id FROM t").unwrap().rows.len(), 1);

    // ABORT is a ROLLBACK synonym — the insert is discarded.
    db.exec("BEGIN").unwrap();
    db.exec("INSERT INTO t VALUES (2)").unwrap();
    db.exec("ABORT").unwrap();
    assert_eq!(db.query("SELECT id FROM t").unwrap().rows.len(), 1);

    // END is a COMMIT synonym (START TRANSACTION + modes also parse).
    db.exec("START TRANSACTION ISOLATION LEVEL SERIALIZABLE")
        .unwrap();
    db.exec("INSERT INTO t VALUES (3)").unwrap();
    db.exec("END").unwrap();
    assert_eq!(db.query("SELECT id FROM t").unwrap().rows.len(), 2);
}

#[test]
fn parse_errors_are_sql_status() {
    let p = db_path("parseerr");
    let mut db = Connection::open(&url_for(&p)).unwrap();
    let err = db.exec("SELEKT oops").unwrap_err();
    assert_eq!(err.status, EngineStatus::ErrSql);
}

#[test]
fn type_casts_coerce_values() {
    let p = db_path("cast");
    let mut db = Connection::open(&url_for(&p)).unwrap();

    // text -> int, real -> int (rounds), int -> text
    let rs = db
        .query("SELECT '42'::int AS a, 1.7::integer AS b, 5::text AS c")
        .unwrap();
    assert_eq!(cell(&rs, 0, 0).as_deref(), Some("42"));
    assert_eq!(cell(&rs, 0, 1).as_deref(), Some("2"));
    assert_eq!(cell(&rs, 0, 2).as_deref(), Some("5"));

    // multi-word / parameterized / schema-qualified / array type spellings parse
    let rs = db
        .query("SELECT 3::double precision AS a, '7'::varchar(10) AS b, 9::pg_catalog.int8 AS c")
        .unwrap();
    assert_eq!(cell(&rs, 0, 0).as_deref(), Some("3.0")); // real renders with a fraction

    assert_eq!(cell(&rs, 0, 1).as_deref(), Some("7"));
    assert_eq!(cell(&rs, 0, 2).as_deref(), Some("9"));

    // cast binds tighter than unary minus: -1::int == -(1::int)
    let rs = db.query("SELECT -1::int AS a").unwrap();
    assert_eq!(cell(&rs, 0, 0).as_deref(), Some("-1"));

    // NULL casts to NULL; bad numeric text is a SQL error
    let rs = db.query("SELECT NULL::int AS a").unwrap();
    assert_eq!(cell(&rs, 0, 0), None);
    let err = db.query("SELECT 'nope'::int").unwrap_err();
    assert_eq!(err.status, EngineStatus::ErrSql);

    // cast applies in a WHERE filter against stored rows
    db.exec("CREATE TABLE t (id INTEGER PRIMARY KEY, tag TEXT)")
        .unwrap();
    db.exec("INSERT INTO t VALUES (1, '10'), (2, '20')")
        .unwrap();
    let rs = db.query("SELECT id FROM t WHERE tag::int > 15").unwrap();
    assert_eq!(rs.rows.len(), 1);
    assert_eq!(cell(&rs, 0, 0).as_deref(), Some("2"));

    // aggregate with a trailing cast: `count(*)::int` (Bun.sql / PostgREST)
    let rs = db.query("SELECT count(*)::int AS n FROM t").unwrap();
    assert_eq!(rs.columns[0], "n");
    assert_eq!(cell(&rs, 0, 0).as_deref(), Some("2"));
}

#[test]
fn group_by_having_and_order() {
    let p = db_path("groupby");
    let mut db = Connection::open(&url_for(&p)).unwrap();
    db.exec("CREATE TABLE sales (id INTEGER PRIMARY KEY, region TEXT, amount INTEGER)")
        .unwrap();
    db.exec(
        "INSERT INTO sales VALUES (1,'west',10),(2,'west',30),(3,'east',5),(4,'east',5),(5,'north',100)",
    )
    .unwrap();

    // GROUP BY with aggregate + grouped column, ordered by the aggregate.
    let rs = db
        .query(
            "SELECT region, sum(amount) AS total, count(*) AS n \
             FROM sales GROUP BY region ORDER BY total DESC",
        )
        .unwrap();
    assert_eq!(rs.columns, vec!["region", "total", "n"]);
    assert_eq!(rs.rows.len(), 3);
    assert_eq!(cell(&rs, 0, 0).as_deref(), Some("north"));
    assert_eq!(cell(&rs, 0, 1).as_deref(), Some("100"));
    assert_eq!(cell(&rs, 1, 0).as_deref(), Some("west"));
    assert_eq!(cell(&rs, 1, 1).as_deref(), Some("40"));

    // HAVING filters whole groups.
    let rs = db
        .query("SELECT region FROM sales GROUP BY region HAVING sum(amount) > 20 ORDER BY region")
        .unwrap();
    assert_eq!(rs.rows.len(), 2);
    assert_eq!(cell(&rs, 0, 0).as_deref(), Some("north"));
    assert_eq!(cell(&rs, 1, 0).as_deref(), Some("west"));
}

#[test]
fn limit_offset_paginates() {
    let p = db_path("offset");
    let mut db = Connection::open(&url_for(&p)).unwrap();
    db.exec("CREATE TABLE t (id INTEGER PRIMARY KEY)").unwrap();
    db.exec("INSERT INTO t VALUES (1),(2),(3),(4),(5)").unwrap();

    // OFFSET then LIMIT, in PostgREST's pagination shape.
    let rs = db
        .query("SELECT id FROM t ORDER BY id LIMIT 2 OFFSET 1")
        .unwrap();
    assert_eq!(rs.rows.len(), 2);
    assert_eq!(cell(&rs, 0, 0).as_deref(), Some("2"));
    assert_eq!(cell(&rs, 1, 0).as_deref(), Some("3"));

    // OFFSET past the end yields nothing; LIMIT ALL keeps everything.
    let rs = db.query("SELECT id FROM t ORDER BY id OFFSET 10").unwrap();
    assert_eq!(rs.rows.len(), 0);
    let rs = db
        .query("SELECT id FROM t ORDER BY id LIMIT ALL OFFSET 3")
        .unwrap();
    assert_eq!(rs.rows.len(), 2);
}

#[test]
fn scalar_functions_and_json() {
    let p = db_path("funcs");
    let mut db = Connection::open(&url_for(&p)).unwrap();

    // coalesce / nullif / string + numeric helpers (no FROM).
    let rs = db
        .query(
            "SELECT coalesce(NULL, 'x') AS a, nullif(1, 1) AS b, upper('hi') AS c, \
             length('abc') AS d, abs(-4) AS e, round(2.6) AS f, concat('a', 'b', 'c') AS g",
        )
        .unwrap();
    assert_eq!(cell(&rs, 0, 0).as_deref(), Some("x"));
    assert_eq!(cell(&rs, 0, 1), None); // nullif(1,1) -> NULL
    assert_eq!(cell(&rs, 0, 2).as_deref(), Some("HI"));
    assert_eq!(cell(&rs, 0, 3).as_deref(), Some("3"));
    assert_eq!(cell(&rs, 0, 4).as_deref(), Some("4"));
    assert_eq!(cell(&rs, 0, 5).as_deref(), Some("3"));
    assert_eq!(cell(&rs, 0, 6).as_deref(), Some("abc"));

    // json_build_object produces JSON text.
    let rs = db
        .query("SELECT json_build_object('k', 1, 'name', 'Ada') AS j")
        .unwrap();
    assert_eq!(cell(&rs, 0, 0).as_deref(), Some(r#"{"k":1,"name":"Ada"}"#));

    // json_agg aggregates a column into a JSON array; coalesce covers the empty
    // set (the PostgREST result-wrapping shape).
    db.exec("CREATE TABLE books (id INTEGER PRIMARY KEY, title TEXT)")
        .unwrap();
    db.exec("INSERT INTO books VALUES (1,'A'),(2,'B')").unwrap();
    let rs = db
        .query("SELECT coalesce(json_agg(title), '[]') AS titles FROM books")
        .unwrap();
    assert_eq!(cell(&rs, 0, 0).as_deref(), Some(r#"["A","B"]"#));

    let rs = db
        .query("SELECT coalesce(json_agg(title), '[]') AS titles FROM books WHERE id > 99")
        .unwrap();
    assert_eq!(cell(&rs, 0, 0).as_deref(), Some("[]"));

    // unknown function is a SQL error, not a silent NULL.
    let err = db.query("SELECT bogus_fn(1)").unwrap_err();
    assert_eq!(err.status, EngineStatus::ErrSql);
}

#[test]
fn foreign_keys_are_tracked_and_persist() {
    let p = db_path("fk");
    let url = url_for(&p);
    {
        let mut db = Connection::open(&url).unwrap();
        db.exec("CREATE TABLE authors (id INTEGER PRIMARY KEY, name TEXT)")
            .unwrap();
        // Inline column REFERENCES with an explicit referenced column.
        db.exec(
            "CREATE TABLE books (id INTEGER PRIMARY KEY, title TEXT, \
             author_id INTEGER REFERENCES authors (id))",
        )
        .unwrap();
        // Table-level FOREIGN KEY whose referenced column defaults to the PK,
        // plus a named constraint.
        db.exec(
            "CREATE TABLE reviews (id INTEGER PRIMARY KEY, book INTEGER, \
             CONSTRAINT reviews_book_fk FOREIGN KEY (book) REFERENCES books)",
        )
        .unwrap();

        let cat = db.catalog();
        let books = cat.iter().find(|t| t.name == "books").unwrap();
        assert_eq!(books.foreign_keys.len(), 1);
        let fk = &books.foreign_keys[0];
        assert_eq!(fk.name, "books_author_id_fkey"); // synthesized
        assert_eq!(fk.columns, vec!["author_id".to_string()]);
        assert_eq!(fk.foreign_table, "authors");
        assert_eq!(fk.foreign_columns, vec!["id".to_string()]);

        let reviews = cat.iter().find(|t| t.name == "reviews").unwrap();
        let rfk = &reviews.foreign_keys[0];
        assert_eq!(rfk.name, "reviews_book_fk"); // declared
        assert_eq!(rfk.foreign_table, "books");
        assert_eq!(rfk.foreign_columns, vec!["id".to_string()]); // defaulted to PK
    }

    // Reopen: the FK metadata is rebuilt purely from the durable WAL.
    let db = Connection::open(&url).unwrap();
    let cat = db.catalog();
    let books = cat.iter().find(|t| t.name == "books").unwrap();
    assert_eq!(books.foreign_keys.len(), 1);
    assert_eq!(books.foreign_keys[0].foreign_table, "authors");
    let reviews = cat.iter().find(|t| t.name == "reviews").unwrap();
    assert_eq!(
        reviews.foreign_keys[0].foreign_columns,
        vec!["id".to_string()]
    );
}
