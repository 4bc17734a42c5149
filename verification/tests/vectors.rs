use std::cell::RefCell;
use std::collections::HashMap;
use std::rc::{Rc, Weak};
use twill::asks::{Answer, Ask, Binary, Reals, Stop, Unary};
use twill::conn::{encode_records, writes, Next, Outcome};
use twill::datetime::now_epoch;
use twill::env::Env;
use twill::error::{EngineError, EngineStatus};
use twill::graph::{Known, VectorIndex, MAX_LEVEL};
use twill::graphs::Graphs;
use twill::group_commit::{gather, GroupCommit};
use twill::host::{index_page_region, OwnerIds, WriteLane};
use twill::pages::{is_current, parse_page_header};
use twill::prepared::Statement;
use twill::pstmt::parse;
use twill::query::ResultSet;
use twill::recovery::{replay, LogEntry};
use twill::reflect::{CatalogPolicy, CatalogTable};
use twill::session::SessionContext;
use twill::sql::Stmt;
use twill::store::Store;
use twill::upkeep::{compaction_floor, index_adds, index_entries, live_entries};
use twill::value::Value;
use twill::vector::Metric;
use twill::wal::WalOp;

// ---- the floating-point unit ----------------------------------------------------------------------

fn dot(a: &[f32], b: &[f32]) -> f32 {
    a.iter().zip(b).map(|(x, y)| x * y).sum()
}

fn distance(metric: Metric, a: &[u32], b: &[u32]) -> f32 {
    let a: Vec<f32> = a.iter().map(|x| f32::from_bits(*x)).collect();
    let b: Vec<f32> = b.iter().map(|x| f32::from_bits(*x)).collect();
    match metric {
        Metric::L2 => a.iter().zip(&b).map(|(x, y)| (x - y) * (x - y)).sum::<f32>().sqrt(),
        Metric::Cosine => {
            let na = dot(&a, &a).sqrt();
            let nb = dot(&b, &b).sqrt();
            if na == 0.0 || nb == 0.0 {
                1.0
            } else {
                1.0 - dot(&a, &b) / (na * nb)
            }
        }
        Metric::InnerProduct => -dot(&a, &b),
    }
}

fn wide(d: f32) -> u64 {
    (d as f64).to_bits()
}

/// The layer that a draw stands for.
fn level_of(draw: u64, m: usize) -> usize {
    let u = ((draw >> 11) as f64 / (1u64 << 53) as f64).max(1e-12);
    let ml = 1.0 / (m.max(2) as f64).ln();
    ((-u.ln() * ml).floor() as usize).min(MAX_LEVEL)
}

fn compute(ask: &Ask, seed: &mut u64) -> Option<Answer> {
    let f = |b: u64| f64::from_bits(b);
    Some(match ask {
        Ask::Parse(s) => Answer::Number(s.parse::<f64>().ok().map(f64::to_bits)),
        Ask::Parse32(s) => Answer::Number32(s.parse::<f32>().ok().map(f32::to_bits)),
        Ask::Narrow(b) => Answer::Number32(Some((f(*b) as f32).to_bits())),
        Ask::Int32(n) => Answer::Number32(Some((*n as f32).to_bits())),
        Ask::Show(b) => Answer::Text(format!("{}", f(*b))),
        Ask::Show32(b) => Answer::Text(format!("{}", f32::from_bits(*b))),
        Ask::Spell(b) => Answer::Text(format!("{:?}", f(*b))),
        Ask::Apply2(op, a, b) => {
            let (x, y) = (f(*a), f(*b));
            let r = match op {
                Binary::Plus => x + y,
                Binary::Minus => x - y,
                Binary::Times => x * y,
                Binary::Over => x / y,
                Binary::Modulo => x % y,
                Binary::Power => x.powf(y),
            };
            Answer::Bits(r.to_bits())
        }
        Ask::Apply1(op, a) => {
            let x = f(*a);
            let r = match op {
                Unary::Sqrt => x.sqrt(),
                Unary::Exp => x.exp(),
                Unary::Ln => x.ln(),
                Unary::Log10 => x.log10(),
            };
            Answer::Bits(r.to_bits())
        }
        Ask::Places(a, n) => {
            let m = 10f64.powi(*n as i32);
            Answer::Bits(((f(*a) * m).round() / m).to_bits())
        }
        Ask::Total(v) => Answer::Bits(v.iter().map(|b| f(*b)).sum::<f64>().to_bits()),
        Ask::Draw(..) => {
            *seed = seed.wrapping_add(0x9E37_79B9_7F4A_7C15);
            let mut z = *seed;
            z = (z ^ (z >> 30)).wrapping_mul(0xBF58_476D_1CE4_E5B9);
            z = (z ^ (z >> 27)).wrapping_mul(0x94D0_49BB_1331_11EB);
            Answer::Bits(z ^ (z >> 31))
        }
        Ask::Distance(m, a, b) => Answer::Bits(wide(distance(*m, a, b))),
        Ask::Graph(_) | Ask::Nearest(..) => return None,
    })
}

// ---- vector indexes -------------------------------------------------------------------------------

fn learn(ix: &VectorIndex, known: &mut Known, want: &[(usize, usize)], query: &[u32]) {
    let metric = ix.metric();
    for &(a, b) in want {
        let x = if a < ix.nodes.len() { ix.nodes[a].vector.as_slice() } else { query };
        let y = if b < ix.nodes.len() { ix.nodes[b].vector.as_slice() } else { query };
        known.learn(a, b, wide(distance(metric, x, y)));
    }
}

fn grow(ix: &mut VectorIndex, vid: u64, vector: &[u32]) {
    let level = level_of(ix.draw(), ix.def.params.m);
    let mut known = Known::new();
    loop {
        match ix.insert(vid, vector.to_vec(), level, &known) {
            Ok(()) => return,
            Err(want) => learn(ix, &mut known, &want, vector),
        }
    }
}

fn nearest(ix: &VectorIndex, query: &[u32], k: usize, ef: Option<usize>) -> Vec<(u64, u64)> {
    let mut known = Known::new();
    loop {
        match ix.search(&known, k, ef) {
            Ok(v) => return v,
            Err(want) => learn(ix, &mut known, &want, query),
        }
    }
}

fn fill(ix: &mut VectorIndex, store: &Store) {
    let def = ix.def.clone();
    for e in index_entries(store, &def) {
        grow(ix, e.vid, &e.vector);
        if e.dead {
            ix.mark_dead(e.vid);
        }
    }
}

fn compact(ix: &VectorIndex, store: &Store, lsn: u64) -> VectorIndex {
    let mut fresh = VectorIndex::new(ix.def.clone());
    for e in live_entries(index_entries(store, &ix.def)) {
        grow(&mut fresh, e.vid, &e.vector);
    }
    fresh.set_rebuild_floor(compaction_floor(ix, lsn));
    fresh
}

// ---- a database -----------------------------------------------------------------------------------

#[derive(Default)]
struct DiskInner {
    log: Vec<(u64, Vec<u8>)>,
    pages: HashMap<u64, Vec<u8>>,
    open: Weak<RefCell<Database>>,
}

/// What outlives a process.
#[derive(Clone, Default)]
struct Disk(Rc<RefCell<DiskInner>>);

struct Database {
    store: Store,
    lane: WriteLane,
    group: GroupCommit,
    owners: OwnerIds,
    graphs: Graphs,
    disk: Disk,
    seed: u64,
    pages_loaded: u64,
    is_branch: bool,
}

fn answer(db: &mut Database, reals: &mut Reals, ask: Ask) {
    let a = match compute(&ask, &mut db.seed) {
        Some(a) => a,
        None => match &ask {
            Ask::Graph(name) => match db.graphs.find(name) {
                Some(at) => {
                    let ix = db.graphs.get(at);
                    Answer::Graph(ix.len() as u64, ix.rebuild_floor())
                }
                None => Answer::Graph(0, 0),
            },
            Ask::Nearest(name, q, k, ef) => {
                let ix = db.graphs.get(db.graphs.find(name).unwrap());
                let hits = nearest(ix, q, *k as usize, Some(*ef as usize));
                Answer::Ids(hits.into_iter().map(|(vid, _)| vid).collect())
            }
            _ => unreachable!(),
        },
    };
    reals.file(ask, a);
}

impl Database {
    fn append(&mut self, records: Vec<Vec<u8>>) -> u64 {
        let mut d = self.disk.0.borrow_mut();
        let mut lsn = d.log.last().map(|e| e.0).unwrap_or(0);
        for r in records {
            lsn += 1;
            d.log.push((lsn, r));
        }
        lsn
    }

    fn open(disk: &Disk, is_branch: bool) -> Rc<RefCell<Database>> {
        if let Some(db) = disk.0.borrow().open.upgrade() {
            return db;
        }
        let log: Vec<LogEntry> = disk
            .0
            .borrow()
            .log
            .iter()
            .map(|(lsn, bytes)| LogEntry { lsn: *lsn, bytes: bytes.clone() })
            .collect();
        let head = log.last().map(|e| e.lsn).unwrap_or(0);
        let mut seed = 7;
        let mut reals = Reals::new();
        let store = loop {
            let env = Env { reals: &reals, now: now_epoch(), params: &[], session: &SessionContext::default(), place: &[] };
            match replay(&log, head, &env) {
                Ok(s) => break s,
                Err(Stop::Need(ask)) => {
                    let a = compute(&ask, &mut seed).unwrap();
                    reals.file(ask, a);
                }
                Err(Stop::Fail(e)) => panic!("{e:?}"),
            }
        };
        let mut graphs = Graphs::new();
        let mut pages_loaded = 0;
        for name in store.index_names() {
            let def = store.index_def(&name).unwrap();
            let ix = match load_pages(disk, &def, store.committed_lsn) {
                Some(ix) => {
                    pages_loaded += 1;
                    ix
                }
                None => {
                    let mut ix = VectorIndex::new(def);
                    fill(&mut ix, &store);
                    if ix.needs_maintenance() {
                        ix = compact(&ix, &store, store.committed_lsn);
                    }
                    ix
                }
            };
            graphs.put(ix);
        }
        let db = Rc::new(RefCell::new(Database {
            store,
            lane: WriteLane::new(),
            group: GroupCommit::new(),
            owners: OwnerIds::new(),
            graphs,
            disk: disk.clone(),
            seed,
            pages_loaded,
            is_branch,
        }));
        disk.0.borrow_mut().open = Rc::downgrade(&db);
        db
    }

    fn index_rows(&mut self, ops: &[WalOp]) {
        for op in ops {
            if let WalOp::Insert { table, vid, values } = op {
                for (name, v) in index_adds(&self.store, table, values) {
                    if let Some(at) = self.graphs.find(&name) {
                        let ix = self.graphs.get(at);
                        let level = level_of(ix.draw(), ix.def.params.m);
                        let mut known = Known::new();
                        while let Err(want) = self.graphs.grow(at, *vid, v.clone(), level, &known) {
                            learn(self.graphs.get(at), &mut known, &want, &v);
                        }
                    }
                }
            }
        }
    }

    fn end_rows(&mut self, ended: &[(String, Vec<u64>)], lsn: u64) {
        for (table, vids) in ended {
            for name in self.graphs.end_rows(table, vids) {
                let at = self.graphs.find(&name).unwrap();
                let fresh = compact(self.graphs.get(at), &self.store, lsn);
                self.graphs.put(fresh);
            }
        }
    }

    fn commit(&mut self, owner: u64, ops: &[WalOp]) -> Result<u64, EngineError> {
        let (id, _) = self.group.submit(owner, encode_records(ops));
        self.lane.release();
        loop {
            let batch = self.group.drain_batch();
            if !batch.is_empty() {
                let last = self.append(gather(&batch));
                let ended = self.group.flush_batch(&mut self.store, &batch, Ok(last));
                self.end_rows(&ended, last);
            }
            if self.group.relinquish() {
                break;
            }
        }
        self.group.reclaim(id).unwrap()
    }
}

fn copy_op(op: &WalOp) -> WalOp {
    WalOp::decode(&op.encode()).unwrap()
}

fn load_pages(disk: &Disk, def: &twill::vector::IndexDef, committed: u64) -> Option<VectorIndex> {
    let d = disk.0.borrow();
    let region = index_page_region(&def.name);
    let first = d.pages.get(&region)?;
    let h = parse_page_header(first)?;
    if !is_current(&h, &def.name, committed) {
        return None;
    }
    let mut frames = vec![first.clone()];
    for i in 0..h.num_body_pages as u64 {
        frames.push(d.pages.get(&(region + 1 + i))?.clone());
    }
    VectorIndex::from_page_frames(def.clone(), &frames)
}

/// A connection to a database, with a host behind it.
struct Connection {
    db: Rc<RefCell<Database>>,
    state: Rc<RefCell<twill::conn::Connection>>,
    pub last_changes: i64,
    pub last_lsn: i64,
}

fn parsed(sql: &str) -> Result<(Stmt, usize), EngineError> {
    let mut seed = 1;
    let mut reals = Reals::new();
    loop {
        match parse(sql, &reals) {
            Ok(p) => return Ok(p),
            Err(Stop::Fail(e)) => return Err(e),
            Err(Stop::Need(ask)) => {
                let a = compute(&ask, &mut seed).unwrap();
                reals.file(ask, a);
            }
        }
    }
}

/// Run a statement to its end: answer what it asks, and do what it leaves to do.
fn run_on(
    db: &Rc<RefCell<Database>>,
    state: &Rc<RefCell<twill::conn::Connection>>,
    sql: &str,
    stmt: &Stmt,
    params: &[Value],
) -> Result<ResultSet, EngineError> {
    let db = &mut *db.borrow_mut();
    let conn = &mut *state.borrow_mut();
    let mut reals = Reals::new();
    let now = now_epoch();
    let took = writes(stmt) && !conn.is_writer();
    if took && !db.lane.acquire() {
        return Err(EngineError::new(EngineStatus::ErrConflict, "the write lane is held".to_string()));
    }
    let out: Outcome = loop {
        let owner = db.owners.next_owner();
        let env = Env { reals: &reals, now, params, session: &SessionContext::default(), place: &[] };
        match conn.run(&mut db.store, stmt, owner, &env) {
            Ok(o) => break o,
            Err(Stop::Need(ask)) => answer(db, &mut reals, ask),
            Err(Stop::Fail(e)) => {
                if took && !conn.is_writer() {
                    db.lane.release();
                }
                return Err(e);
            }
        }
    };
    db.graphs.drop_rows(&out.gone);
    match out.next {
        Next::Nothing => {
            if let Some(t) = &conn.txn {
                let ops: Vec<WalOp> = t.wal_ops.iter().map(copy_op).collect();
                db.index_rows(&ops);
            }
        }
        Next::Release => db.lane.release(),
        Next::Append { owner, ops } => {
            db.index_rows(&ops);
            let lsn = db.commit(owner, &ops)?;
            conn.acknowledge(lsn);
        }
        Next::Define { op } => {
            let lsn = db.append(encode_records(std::slice::from_ref(&op)));
            let (again, _) = parsed(sql)?;
            let env = Env { reals: &reals, now, params, session: &SessionContext::default(), place: &[] };
            match conn.define(&mut db.store, again, &op, lsn, &env) {
                Ok(()) => {}
                Err(_) => panic!("a durable definition has to take effect"),
            }
            db.graphs.follow(&op);
            if let WalOp::CreateIndex { def } = &op {
                let mut ix = VectorIndex::new(def.clone());
                fill(&mut ix, &db.store);
                if let Some(frames) = ix.to_page_frames(lsn) {
                    let region = index_page_region(&def.name);
                    let mut d = db.disk.0.borrow_mut();
                    for (i, f) in frames.into_iter().enumerate() {
                        d.pages.insert(region + i as u64, f);
                    }
                }
                db.graphs.put(ix);
            }
            db.lane.release();
        }
    }
    Ok(out.result)
}

#[allow(dead_code)]
impl Connection {
    fn open(disk: &Disk) -> Result<Connection, EngineError> {
        Ok(Connection {
            db: Database::open(disk, false),
            state: Rc::new(RefCell::new(twill::conn::Connection::new())),
            last_changes: 0,
            last_lsn: 0,
        })
    }

    fn note(&mut self) {
        self.last_changes = self.state.borrow().last_changes;
        self.last_lsn = self.state.borrow().last_lsn;
    }

    fn query(&mut self, sql: &str) -> Result<ResultSet, EngineError> {
        let (stmt, _) = parsed(sql)?;
        let r = run_on(&self.db, &self.state, sql, &stmt, &[]);
        self.note();
        r
    }

    fn exec(&mut self, sql: &str) -> Result<(), EngineError> {
        self.query(sql).map(|_| ())
    }

    fn begin(&mut self) -> Result<(), EngineError> {
        self.exec("BEGIN")
    }

    fn commit(&mut self) -> Result<(), EngineError> {
        self.exec("COMMIT")
    }

    fn rollback(&mut self) -> Result<(), EngineError> {
        self.exec("ROLLBACK")
    }

    fn catalog(&self) -> Vec<CatalogTable> {
        self.state.borrow().catalog(&self.db.borrow().store)
    }

    fn policies(&self) -> Vec<CatalogPolicy> {
        self.state.borrow().policies(&self.db.borrow().store)
    }

    fn rls_enabled(&self, table: &str) -> bool {
        self.state.borrow().rls_enabled(&self.db.borrow().store, table)
    }

    fn vector_pages_loaded(&self) -> u64 {
        self.db.borrow().pages_loaded
    }

    fn branch(&self, _name: &str) -> Result<Connection, EngineError> {
        self.state.borrow().check_branch(self.db.borrow().is_branch)?;
        let copy = Disk::default();
        copy.0.borrow_mut().log = self.db.borrow().disk.0.borrow().log.clone();
        Ok(Connection {
            db: Database::open(&copy, true),
            state: Rc::new(RefCell::new(twill::conn::Connection::new())),
            last_changes: 0,
            last_lsn: 0,
        })
    }

    fn prepare(&mut self, sql: &str) -> Result<Prepared, EngineError> {
        let (stmt, n) = parsed(sql)?;
        Ok(Prepared {
            db: self.db.clone(),
            state: self.state.clone(),
            sql: sql.to_string(),
            st: Statement::new(stmt, n),
        })
    }
}

impl Drop for Connection {
    fn drop(&mut self) {
        let db = &mut *self.db.borrow_mut();
        let (held, gone) = self.state.borrow_mut().close(&mut db.store);
        db.graphs.drop_rows(&gone);
        if held {
            db.lane.release();
        }
    }
}

/// A prepared statement, with a host behind it.
#[allow(dead_code)]
struct Prepared {
    db: Rc<RefCell<Database>>,
    state: Rc<RefCell<twill::conn::Connection>>,
    sql: String,
    st: Statement,
}

#[allow(dead_code)]
impl Prepared {
    fn bind(&mut self, idx: usize, value: Value) -> Result<(), EngineError> {
        self.st.bind(idx, value)
    }

    fn execute(&mut self) -> Result<(), EngineError> {
        if !self.st.executed() {
            let rs = run_on(&self.db, &self.state, &self.sql, &self.st.stmt, self.st.params())?;
            self.st.fill(rs);
        }
        Ok(())
    }

    fn step(&mut self) -> Result<bool, EngineError> {
        self.execute()?;
        Ok(self.st.step())
    }

    fn changes(&self) -> i64 {
        self.state.borrow().last_changes
    }

    fn reset(&mut self) {
        self.st.reset()
    }

    fn param_count(&self) -> usize {
        self.st.param_count()
    }

    fn column_value(&self, col: usize) -> Option<&Value> {
        self.st.column_value(col)
    }
}

/// The text of a value, as clients see it.
trait Shown {
    fn shown(&self) -> Option<String>;
}

impl Shown for Value {
    fn shown(&self) -> Option<String> {
        let mut seed = 1;
        let mut reals = Reals::new();
        loop {
            match self.render(&reals) {
                Ok(o) => return o.map(|cs| cs.into_iter().collect()),
                Err(Stop::Need(ask)) => {
                    let a = compute(&ask, &mut seed).unwrap();
                    reals.file(ask, a);
                }
                Err(Stop::Fail(e)) => panic!("{e:?}"),
            }
        }
    }
}

fn db_path(_tag: &str) -> Disk {
    Disk::default()
}

#[allow(dead_code)]
fn url_for(p: &Disk) -> Disk {
    p.clone()
}

#[allow(dead_code)]
fn cell(rs: &ResultSet, row: usize, col: usize) -> Option<String> {
    rs.rows[row][col].shown()
}

// ---- tests ----------------------------------------------------------------------------------------

/// Column 0 of every row, rendered (the id list of a result, in order).
fn ids(rs: &ResultSet) -> Vec<String> {
    (0..rs.rows.len())
        .map(|r| cell(rs, r, 0).unwrap_or_default())
        .collect()
}

fn seed_items(db: &mut Connection) {
    db.exec("CREATE TABLE items (id INTEGER PRIMARY KEY, embedding VECTOR(3))")
        .unwrap();
    db.exec("INSERT INTO items VALUES (1, [1, 0, 0])").unwrap();
    db.exec("INSERT INTO items VALUES (2, [0, 1, 0])").unwrap();
    db.exec("INSERT INTO items VALUES (3, [0, 0, 1])").unwrap();
    db.exec("INSERT INTO items VALUES (4, [0.9, 0.1, 0])")
        .unwrap();
}

#[test]
fn vector_type_roundtrips_and_validates_dimension() {
    let p = db_path("type");
    let mut db = Connection::open(&url_for(&p)).unwrap();
    db.exec("CREATE TABLE v (id INTEGER PRIMARY KEY, e VECTOR(3))")
        .unwrap();
    db.exec("INSERT INTO v VALUES (1, [1, 2, 3])").unwrap();
    // A '[..]' text literal coerces into the vector column (pgvector-style).
    db.exec("INSERT INTO v VALUES (2, '[4,5,6]')").unwrap();

    let rs = db.query("SELECT e FROM v ORDER BY id").unwrap();
    assert_eq!(cell(&rs, 0, 0).as_deref(), Some("[1,2,3]"));
    assert_eq!(cell(&rs, 1, 0).as_deref(), Some("[4,5,6]"));

    // Wrong dimension is rejected; the row leaves no trace.
    let err = db
        .exec("INSERT INTO v VALUES (3, [1, 2])")
        .expect_err("dimension mismatch must fail");
    assert_eq!(err.status, EngineStatus::ErrConstraint);
    let rs = db.query("SELECT COUNT(*) FROM v").unwrap();
    assert_eq!(cell(&rs, 0, 0).as_deref(), Some("2"));

    // vector(N) with a non-positive dimension is a parse error.
    let err = db
        .exec("CREATE TABLE bad (id INTEGER, e VECTOR(0))")
        .expect_err("vector(0) must be rejected");
    assert_eq!(err.status, EngineStatus::ErrSql);
}

#[test]
fn distance_operators_compute_without_an_index() {
    let p = db_path("dist");
    let mut db = Connection::open(&url_for(&p)).unwrap();
    seed_items(&mut db);

    // L2: distance from each row to [1,0,0]; id=1 is exactly 0. (ORDER BY repeats
    // the expression — the engine orders by expressions, not output aliases.)
    let rs = db
        .query(
            "SELECT id, embedding <-> [1,0,0] AS d FROM items \
             ORDER BY embedding <-> [1,0,0]",
        )
        .unwrap();
    assert_eq!(ids(&rs), ["1", "4", "2", "3"]);
    assert_eq!(cell(&rs, 0, 1).as_deref(), Some("0.0"));

    // Cosine: id=1 (identical direction) then id=4 (nearly aligned).
    let rs = db
        .query("SELECT id FROM items ORDER BY embedding <=> [1,0,0]")
        .unwrap();
    assert_eq!(ids(&rs)[0], "1");
    assert_eq!(ids(&rs)[1], "4");

    // A '[..]' text query vector works on the operator too.
    let rs = db
        .query("SELECT id FROM items ORDER BY embedding <-> '[0,1,0]' LIMIT 1")
        .unwrap();
    assert_eq!(ids(&rs), ["2"]);

    // A dimension mismatch on the operator is a SQL error.
    let err = db
        .query("SELECT embedding <-> [1,0] FROM items")
        .expect_err("operator dim mismatch");
    assert_eq!(err.status, EngineStatus::ErrSql);
}

#[test]
fn hnsw_index_answers_top_k_and_matches_brute_force() {
    let p = db_path("knn");
    let mut db = Connection::open(&url_for(&p)).unwrap();
    seed_items(&mut db);
    db.exec("CREATE INDEX items_e ON items USING hnsw (embedding) WITH (metric = 'l2')")
        .unwrap();

    // Top-2 nearest to [1,0,0] under L2 → ids 1 then 4, answered by the index.
    let rs = db
        .query("SELECT id FROM items ORDER BY embedding <-> [1,0,0] LIMIT 2")
        .unwrap();
    assert_eq!(ids(&rs), ["1", "4"]);

    // Param-bound query vector takes the index path too.
    let mut stmt = db
        .prepare("SELECT id FROM items ORDER BY embedding <-> ? LIMIT 1")
        .unwrap();
    stmt.bind(1, Value::Vector([0.0f32, 0.0, 1.0].iter().map(|x| x.to_bits()).collect())).unwrap();
    assert!(stmt.step().unwrap());
    assert_eq!(
        stmt.column_value(0).and_then(|v| v.shown()).as_deref(),
        Some("3")
    );
    drop(stmt);

    // Dropping the index falls back to a brute-force scan with identical results.
    db.exec("DROP INDEX items_e").unwrap();
    let rs2 = db
        .query("SELECT id FROM items ORDER BY embedding <-> [1,0,0] LIMIT 2")
        .unwrap();
    assert_eq!(ids(&rs2), ["1", "4"]);
}

#[test]
fn knn_respects_where_filter_and_mvcc() {
    let p = db_path("knnfilter");
    let mut db = Connection::open(&url_for(&p)).unwrap();
    db.exec("CREATE TABLE m (id INTEGER PRIMARY KEY, kind INTEGER, e VECTOR(2))")
        .unwrap();
    db.exec("CREATE INDEX m_e ON m USING hnsw (e) WITH (metric = 'l2')")
        .unwrap();
    db.exec("INSERT INTO m VALUES (1, 0, [0, 0])").unwrap();
    db.exec("INSERT INTO m VALUES (2, 1, [0.1, 0])").unwrap();
    db.exec("INSERT INTO m VALUES (3, 0, [0.2, 0])").unwrap();

    // Nearest of kind=0 to the origin: id 1 then 3 (id 2 is filtered out).
    let rs = db
        .query("SELECT id FROM m WHERE kind = 0 ORDER BY e <-> [0,0] LIMIT 5")
        .unwrap();
    assert_eq!(ids(&rs), ["1", "3"]);

    // An UPDATE supersedes a row version; the new vector is indexed and the old
    // one becomes invisible. Move id 3 right on top of the origin.
    db.exec("UPDATE m SET e = [0, 0] WHERE id = 3").unwrap();
    let rs = db
        .query("SELECT id FROM m ORDER BY e <-> [0,0] LIMIT 2")
        .unwrap();
    let top = ids(&rs);
    assert!(top.contains(&"1".to_string()) && top.contains(&"3".to_string()));

    // A DELETE makes a row invisible to the KNN scan.
    db.exec("DELETE FROM m WHERE id = 1").unwrap();
    let rs = db
        .query("SELECT id FROM m ORDER BY e <-> [0,0] LIMIT 1")
        .unwrap();
    assert_eq!(ids(&rs), ["3"]);
}

#[test]
fn branch_branches_the_vector_index() {
    let p = db_path("branch");
    let mut base = Connection::open(&url_for(&p)).unwrap();
    seed_items(&mut base);
    base.exec("CREATE INDEX items_e ON items USING hnsw (embedding) WITH (metric = 'cosine')")
        .unwrap();

    // Fork a branch; its index inherits the base's vectors.
    let mut br = base.branch("memory-fork").unwrap();
    let rs = br
        .query("SELECT id FROM items ORDER BY embedding <=> [1,0,0] LIMIT 1")
        .unwrap();
    assert_eq!(ids(&rs), ["1"]);

    // Diverge the branch with a vector nearest to a fresh query direction. The
    // query [0.2,0.9,0.2] is closer (cosine) to id 5 than to the exact-axis id 2.
    br.exec("INSERT INTO items VALUES (5, [0.1, 0.95, 0.1])")
        .unwrap();
    let rs = br
        .query("SELECT id FROM items ORDER BY embedding <=> [0.2, 0.9, 0.2] LIMIT 1")
        .unwrap();
    assert_eq!(ids(&rs), ["5"], "branch index sees its diverged vector");

    // The base index is untouched: it never saw id 5, so its nearest is id 2.
    let rs = base
        .query("SELECT id FROM items ORDER BY embedding <=> [0.2, 0.9, 0.2] LIMIT 1")
        .unwrap();
    assert_eq!(
        ids(&rs),
        ["2"],
        "branch write must not leak into the base index"
    );

    drop(br);
}

#[test]
fn index_rebuilds_from_wal_on_restart() {
    let p = db_path("restart");
    let url = url_for(&p);
    {
        let mut db = Connection::open(&url).unwrap();
        seed_items(&mut db);
        db.exec("CREATE INDEX items_e ON items USING hnsw (embedding) WITH (metric = 'l2')")
            .unwrap();
        db.exec("INSERT INTO items VALUES (5, [0.05, 0.05, 0.95])")
            .unwrap();
    } // all handles dropped → only the durable WAL remains

    // Reopen: the index is rebuilt purely by replaying the WAL (no side file).
    let mut db = Connection::open(&url).unwrap();
    let rs = db
        .query("SELECT id FROM items ORDER BY embedding <-> [0,0,1] LIMIT 2")
        .unwrap();
    // Nearest to [0,0,1]: id 3 ([0,0,1]) then id 5 ([.05,.05,.95]).
    assert_eq!(ids(&rs), ["3", "5"]);
}

#[test]
fn rollback_removes_pending_vectors_from_the_index() {
    let p = db_path("rollback");
    let mut db = Connection::open(&url_for(&p)).unwrap();
    seed_items(&mut db);
    db.exec("CREATE INDEX items_e ON items USING hnsw (embedding) WITH (metric = 'l2')")
        .unwrap();

    db.begin().unwrap();
    db.exec("INSERT INTO items VALUES (9, [0, 1, 0])").unwrap();
    // Read-your-writes: the pending vector is visible inside the txn.
    let during = db.query("SELECT COUNT(*) FROM items WHERE id = 9").unwrap();
    assert_eq!(cell(&during, 0, 0).as_deref(), Some("1"));
    db.rollback().unwrap();

    // After rollback the vector is gone from both the table and the index, so a
    // KNN search never returns it.
    let rs = db
        .query("SELECT id FROM items ORDER BY embedding <-> [0,1,0] LIMIT 4")
        .unwrap();
    assert!(!ids(&rs).contains(&"9".to_string()));
    assert_eq!(ids(&rs)[0], "2");
}

#[test]
fn hnsw_finds_exact_nearest_over_a_larger_set() {
    let p = db_path("recall");
    let mut db = Connection::open(&url_for(&p)).unwrap();
    db.exec("CREATE TABLE pts (id INTEGER PRIMARY KEY, e VECTOR(4))")
        .unwrap();
    db.exec("CREATE INDEX pts_e ON pts USING hnsw (e) WITH (metric = 'l2', ef_search = 128)")
        .unwrap();

    // A deterministic spread of 100 points on a lattice; the query coincides with
    // exactly one of them, so its nearest neighbour is unambiguous.
    for i in 0..100i64 {
        let a = (i % 10) as f32;
        let b = (i / 10) as f32;
        let sql = format!("INSERT INTO pts VALUES ({i}, [{a}, {b}, 0, 0])");
        db.exec(&sql).unwrap();
    }
    // Point id 73 sits at (3, 7, 0, 0).
    let rs = db
        .query("SELECT id FROM pts ORDER BY e <-> [3, 7, 0, 0] LIMIT 1")
        .unwrap();
    assert_eq!(ids(&rs), ["73"], "HNSW returns the exact nearest neighbour");
}

/// `ef_search` is tunable per session via `SET twill.vector_ef_search`,
/// reflected by `SHOW`, cleared by `RESET`, and honored by the KNN path.
#[test]
fn ef_search_is_tunable_per_session() {
    let p = db_path("eftune");
    let mut db = Connection::open(&url_for(&p)).unwrap();
    db.exec("CREATE TABLE pts (id INTEGER PRIMARY KEY, e VECTOR(4))")
        .unwrap();
    db.exec("CREATE INDEX pts_e ON pts USING hnsw (e) WITH (metric = 'l2', ef_search = 16)")
        .unwrap();
    for i in 0..100i64 {
        let a = (i % 10) as f32;
        let b = (i / 10) as f32;
        db.exec(&format!("INSERT INTO pts VALUES ({i}, [{a}, {b}, 0, 0])"))
            .unwrap();
    }

    // Default: SHOW reports the unset (empty) session value.
    let rs = db.query("SHOW twill.vector_ef_search").unwrap();
    assert_eq!(cell(&rs, 0, 0).as_deref(), Some(""));

    // A session override is recorded and reflected.
    db.exec("SET twill.vector_ef_search = 200").unwrap();
    let rs = db.query("SHOW twill.vector_ef_search").unwrap();
    assert_eq!(cell(&rs, 0, 0).as_deref(), Some("200"));

    // The wider search still answers correctly (id 73 sits at (3,7,0,0)).
    let rs = db
        .query("SELECT id FROM pts ORDER BY e <-> [3, 7, 0, 0] LIMIT 1")
        .unwrap();
    assert_eq!(ids(&rs), ["73"]);

    // `TO` syntax and a tiny width are also accepted.
    db.exec("SET twill.vector_ef_search TO 1").unwrap();
    let rs = db.query("SHOW twill.vector_ef_search").unwrap();
    assert_eq!(cell(&rs, 0, 0).as_deref(), Some("1"));

    // RESET clears the override back to the index default.
    db.exec("RESET twill.vector_ef_search").unwrap();
    let rs = db.query("SHOW twill.vector_ef_search").unwrap();
    assert_eq!(cell(&rs, 0, 0).as_deref(), Some(""));
}

/// under heavy delete churn the index auto-compacts (no manual step)
/// and top-k recall against the live set stays exact.
#[test]
fn index_recall_holds_under_delete_churn() {
    let p = db_path("churn");
    let mut db = Connection::open(&url_for(&p)).unwrap();
    db.exec("CREATE TABLE pts (id INTEGER PRIMARY KEY, e VECTOR(4))")
        .unwrap();
    db.exec("CREATE INDEX pts_e ON pts USING hnsw (e) WITH (metric = 'l2')")
        .unwrap();

    // 500 lattice points (25×20), inserted in one transaction (one fsync).
    db.begin().unwrap();
    for i in 0..500i64 {
        let a = (i % 25) as f32;
        let b = (i / 25) as f32;
        db.exec(&format!("INSERT INTO pts VALUES ({i}, [{a}, {b}, 0, 0])"))
            .unwrap();
    }
    db.commit().unwrap();

    // Delete 70% (ids 0..350). Live rows are ids 350..500. Compaction triggers
    // automatically inside commit — no VACUUM, no rebuild call.
    db.begin().unwrap();
    db.exec("DELETE FROM pts WHERE id < 350").unwrap();
    db.commit().unwrap();

    // Every live point's own coordinates resolve to exactly itself (top-1 recall
    // on the live set), proving the post-churn graph still navigates correctly.
    for id in [350i64, 401, 437, 472, 499] {
        let a = (id % 25) as f32;
        let b = (id / 25) as f32;
        let rs = db
            .query(&format!(
                "SELECT id FROM pts ORDER BY e <-> [{a},{b},0,0] LIMIT 1"
            ))
            .unwrap();
        assert_eq!(ids(&rs), [id.to_string()], "nearest to live id {id}");
    }

    // A deleted point's slot now resolves to a live neighbour, never the dead row.
    let rs = db
        .query("SELECT id FROM pts ORDER BY e <-> [0,0,0,0] LIMIT 3")
        .unwrap();
    for got in ids(&rs) {
        assert!(got.parse::<i64>().unwrap() >= 350, "no dead row returned");
    }
}

/// an MVCC snapshot taken before a compacting rebuild still sees the
/// rows the compaction dropped — the KNN path falls back to a brute-force scan
/// below the compaction floor, preserving snapshot isolation.
#[test]
fn old_snapshot_survives_compaction() {
    let p = db_path("churnmvcc");
    let url = url_for(&p);
    let mut writer = Connection::open(&url).unwrap();
    let mut reader = Connection::open(&url).unwrap();

    writer
        .exec("CREATE TABLE pts (id INTEGER PRIMARY KEY, e VECTOR(4))")
        .unwrap();
    writer
        .exec("CREATE INDEX pts_e ON pts USING hnsw (e) WITH (metric = 'l2')")
        .unwrap();
    writer.begin().unwrap();
    for i in 0..500i64 {
        let a = (i % 25) as f32;
        let b = (i / 25) as f32;
        writer
            .exec(&format!("INSERT INTO pts VALUES ({i}, [{a}, {b}, 0, 0])"))
            .unwrap();
    }
    writer.commit().unwrap();

    // The reader captures a snapshot that can still see id 100 (at (0,4,0,0)).
    reader.begin().unwrap();
    let rs = reader
        .query("SELECT id FROM pts ORDER BY e <-> [0,4,0,0] LIMIT 1")
        .unwrap();
    assert_eq!(ids(&rs), ["100"]);

    // The writer deletes 70% (including id 100) → the index compacts past the
    // reader's snapshot.
    writer.begin().unwrap();
    writer.exec("DELETE FROM pts WHERE id < 350").unwrap();
    writer.commit().unwrap();

    // The reader's older snapshot still sees id 100 (brute-force fallback below the
    // compaction floor keeps snapshot isolation intact).
    let rs = reader
        .query("SELECT id FROM pts ORDER BY e <-> [0,4,0,0] LIMIT 1")
        .unwrap();
    assert_eq!(ids(&rs), ["100"], "old snapshot still sees the dropped row");
    reader.rollback().unwrap();

    // A fresh read at the head no longer sees id 100 (it was deleted).
    let rs = reader
        .query("SELECT id FROM pts ORDER BY e <-> [0,4,0,0] LIMIT 1")
        .unwrap();
    assert_ne!(ids(&rs), ["100"], "head no longer sees the deleted row");
}

/// a freshly built index is checkpointed as pages, and a cold reopen
/// loads the graph from those pages (through `get_page`) rather than rebuilding it
/// — while a write after the checkpoint correctly falls back to the rebuild path.
#[test]
fn index_warms_from_page_checkpoint() {
    let p = db_path("pagewarm");
    let url = url_for(&p);
    {
        let mut db = Connection::open(&url).unwrap();
        seed_items(&mut db);
        db.exec("CREATE INDEX items_e ON items USING hnsw (embedding) WITH (metric = 'l2')")
            .unwrap();
    } // checkpoint reflects the head; no writes follow it.

    // Cold reopen adopts the page checkpoint (no rebuild from rows).
    let mut db = Connection::open(&url).unwrap();
    assert_eq!(
        db.vector_pages_loaded(),
        1,
        "index warmed from its page checkpoint"
    );
    let rs = db
        .query("SELECT id FROM items ORDER BY embedding <-> [1,0,0] LIMIT 2")
        .unwrap();
    assert_eq!(ids(&rs), ["1", "4"]);
    drop(db);

    // A write after the checkpoint makes it stale; the next cold reopen rebuilds
    // from the WAL rows instead (still correct).
    {
        let mut db = Connection::open(&url).unwrap();
        db.exec("INSERT INTO items VALUES (7, [0.02, 0.02, 0.98])")
            .unwrap();
    }
    let mut db = Connection::open(&url).unwrap();
    assert_eq!(
        db.vector_pages_loaded(),
        0,
        "stale checkpoint is rejected; index rebuilt from rows"
    );
    let rs = db
        .query("SELECT id FROM items ORDER BY embedding <-> [0.02,0.02,0.98] LIMIT 1")
        .unwrap();
    assert_eq!(ids(&rs), ["7"]);
}

#[test]
fn create_index_requires_a_vector_column() {
    let p = db_path("nonvec");
    let mut db = Connection::open(&url_for(&p)).unwrap();
    db.exec("CREATE TABLE t (id INTEGER PRIMARY KEY, name TEXT)")
        .unwrap();
    let err = db
        .exec("CREATE INDEX t_name ON t USING hnsw (name)")
        .expect_err("HNSW on a non-vector column must fail");
    assert_eq!(err.status, EngineStatus::ErrSql);

    // An unknown access method is rejected too.
    let err = db
        .exec("CREATE TABLE q (id INTEGER, e VECTOR(2))")
        .map(|_| ())
        .and_then(|_| db.exec("CREATE INDEX q_e ON q USING btree (e)"))
        .expect_err("only HNSW is supported");
    assert_eq!(err.status, EngineStatus::ErrSql);
}

/// Two tables with an index each, whose rows have the same numbers.
fn seed_twins(db: &mut Connection) {
    for name in ["t", "u"] {
        db.exec(&format!("CREATE TABLE {name} (id INTEGER PRIMARY KEY, e VECTOR(2))")).unwrap();
        db.exec(&format!("CREATE INDEX {name}_e ON {name} USING hnsw (e) WITH (metric = 'l2')"))
            .unwrap();
        db.exec(&format!("INSERT INTO {name} VALUES (1, [1, 0]), (2, [0, 1])")).unwrap();
    }
    db.exec("INSERT INTO u VALUES (3, [5, 5])").unwrap();
}

fn near_five(db: &mut Connection, table: &str) -> Vec<String> {
    ids(&db.query(&format!("SELECT id FROM {table} ORDER BY e <-> [5, 5] LIMIT 1")).unwrap())
}

#[test]
fn a_rollback_leaves_the_indexes_of_other_tables_alone() {
    let p = db_path("twins");
    let mut db = Connection::open(&url_for(&p)).unwrap();
    seed_twins(&mut db);
    db.begin().unwrap();
    db.exec("INSERT INTO t VALUES (3, [5, 5])").unwrap();
    assert_eq!(near_five(&mut db, "t"), ["3"]);
    db.rollback().unwrap();
    assert_ne!(near_five(&mut db, "t"), ["3"]);
    assert_eq!(near_five(&mut db, "u"), ["3"]);

    db.begin().unwrap();
    db.exec("SAVEPOINT s").unwrap();
    db.exec("INSERT INTO t VALUES (3, [5, 5])").unwrap();
    db.exec("ROLLBACK TO s").unwrap();
    assert_ne!(near_five(&mut db, "t"), ["3"]);
    assert_eq!(near_five(&mut db, "u"), ["3"]);
    db.exec("COMMIT").unwrap();
}

#[test]
fn a_connection_that_closes_takes_its_vectors_along() {
    let p = db_path("close");
    let mut db = Connection::open(&url_for(&p)).unwrap();
    seed_twins(&mut db);
    let nodes = |db: &Connection, name: &str| {
        let db = db.db.borrow();
        db.graphs.get(db.graphs.find(name).unwrap()).len()
    };
    {
        let mut other = Connection::open(&url_for(&p)).unwrap();
        other.begin().unwrap();
        other.exec("INSERT INTO t VALUES (3, [5, 5])").unwrap();
        assert_eq!(nodes(&db, "t_e"), 3);
    }
    assert_eq!(nodes(&db, "T_E"), 2);
    assert_eq!(nodes(&db, "u_e"), 3);
    db.exec("INSERT INTO t VALUES (4, [5, 5])").unwrap();
    assert_eq!(near_five(&mut db, "t"), ["4"]);
}

#[test]
fn an_index_goes_with_its_table() {
    let p = db_path("gone");
    let mut db = Connection::open(&url_for(&p)).unwrap();
    seed_twins(&mut db);
    assert_eq!(db.db.borrow().graphs.len(), 2);
    db.exec("DROP TABLE t").unwrap();
    assert!(db.db.borrow().graphs.find("t_e").is_none());
    assert_eq!(near_five(&mut db, "u"), ["3"]);
    db.exec("DROP INDEX U_E").unwrap();
    assert!(db.db.borrow().graphs.is_empty());
    assert_eq!(near_five(&mut db, "u"), ["3"]);
}
