use std::cell::RefCell;
use std::collections::HashMap;
use std::rc::{Rc, Weak};
use twill::asks::{Answer, Ask, Binary, Reals, Stop, Unary};
use twill::conn::{encode_records, writes, Next, Outcome};
use twill::datetime::now_epoch;
use twill::env::Env;
use twill::error::{EngineError, EngineStatus};
use twill::graph::{Known, VectorIndex, MAX_LEVEL};
use twill::graphs::Graphs;
use twill::group_commit::{gather, GroupCommit};
use twill::host::{index_page_region, OwnerIds, WriteLane};
use twill::pages::{is_current, parse_page_header};
use twill::prepared::Statement;
use twill::pstmt::parse;
use twill::query::ResultSet;
use twill::recovery::{replay, LogEntry};
use twill::reflect::{CatalogPolicy, CatalogTable};
use twill::session::SessionContext;
use twill::sql::Stmt;
use twill::store::Store;
use twill::upkeep::{compaction_floor, index_adds, index_entries, live_entries};
use twill::value::Value;
use twill::vector::Metric;
use twill::wal::WalOp;

// ---- the floating-point unit ----------------------------------------------------------------------

fn dot(a: &[f32], b: &[f32]) -> f32 {
    a.iter().zip(b).map(|(x, y)| x * y).sum()
}

fn distance(metric: Metric, a: &[u32], b: &[u32]) -> f32 {
    let a: Vec<f32> = a.iter().map(|x| f32::from_bits(*x)).collect();
    let b: Vec<f32> = b.iter().map(|x| f32::from_bits(*x)).collect();
    match metric {
        Metric::L2 => a.iter().zip(&b).map(|(x, y)| (x - y) * (x - y)).sum::<f32>().sqrt(),
        Metric::Cosine => {
            let na = dot(&a, &a).sqrt();
            let nb = dot(&b, &b).sqrt();
            if na == 0.0 || nb == 0.0 {
                1.0
            } else {
                1.0 - dot(&a, &b) / (na * nb)
            }
        }
        Metric::InnerProduct => -dot(&a, &b),
    }
}

fn wide(d: f32) -> u64 {
    (d as f64).to_bits()
}

/// The layer that a draw stands for.
fn level_of(draw: u64, m: usize) -> usize {
    let u = ((draw >> 11) as f64 / (1u64 << 53) as f64).max(1e-12);
    let ml = 1.0 / (m.max(2) as f64).ln();
    ((-u.ln() * ml).floor() as usize).min(MAX_LEVEL)
}

fn compute(ask: &Ask, seed: &mut u64) -> Option<Answer> {
    let f = |b: u64| f64::from_bits(b);
    Some(match ask {
        Ask::Parse(s) => Answer::Number(s.parse::<f64>().ok().map(f64::to_bits)),
        Ask::Parse32(s) => Answer::Number32(s.parse::<f32>().ok().map(f32::to_bits)),
        Ask::Narrow(b) => Answer::Number32(Some((f(*b) as f32).to_bits())),
        Ask::Int32(n) => Answer::Number32(Some((*n as f32).to_bits())),
        Ask::Show(b) => Answer::Text(format!("{}", f(*b))),
        Ask::Show32(b) => Answer::Text(format!("{}", f32::from_bits(*b))),
        Ask::Spell(b) => Answer::Text(format!("{:?}", f(*b))),
        Ask::Apply2(op, a, b) => {
            let (x, y) = (f(*a), f(*b));
            let r = match op {
                Binary::Plus => x + y,
                Binary::Minus => x - y,
                Binary::Times => x * y,
                Binary::Over => x / y,
                Binary::Modulo => x % y,
                Binary::Power => x.powf(y),
            };
            Answer::Bits(r.to_bits())
        }
        Ask::Apply1(op, a) => {
            let x = f(*a);
            let r = match op {
                Unary::Sqrt => x.sqrt(),
                Unary::Exp => x.exp(),
                Unary::Ln => x.ln(),
                Unary::Log10 => x.log10(),
            };
            Answer::Bits(r.to_bits())
        }
        Ask::Places(a, n) => {
            let m = 10f64.powi(*n as i32);
            Answer::Bits(((f(*a) * m).round() / m).to_bits())
        }
        Ask::Total(v) => Answer::Bits(v.iter().map(|b| f(*b)).sum::<f64>().to_bits()),
        Ask::Draw(..) => {
            *seed = seed.wrapping_add(0x9E37_79B9_7F4A_7C15);
            let mut z = *seed;
            z = (z ^ (z >> 30)).wrapping_mul(0xBF58_476D_1CE4_E5B9);
            z = (z ^ (z >> 27)).wrapping_mul(0x94D0_49BB_1331_11EB);
            Answer::Bits(z ^ (z >> 31))
        }
        Ask::Distance(m, a, b) => Answer::Bits(wide(distance(*m, a, b))),
        Ask::Graph(_) | Ask::Nearest(..) => return None,
    })
}

// ---- vector indexes -------------------------------------------------------------------------------

fn learn(ix: &VectorIndex, known: &mut Known, want: &[(usize, usize)], query: &[u32]) {
    let metric = ix.metric();
    for &(a, b) in want {
        let x = if a < ix.nodes.len() { ix.nodes[a].vector.as_slice() } else { query };
        let y = if b < ix.nodes.len() { ix.nodes[b].vector.as_slice() } else { query };
        known.learn(a, b, wide(distance(metric, x, y)));
    }
}

fn grow(ix: &mut VectorIndex, vid: u64, vector: &[u32]) {
    let level = level_of(ix.draw(), ix.def.params.m);
    let mut known = Known::new();
    loop {
        match ix.insert(vid, vector.to_vec(), level, &known) {
            Ok(()) => return,
            Err(want) => learn(ix, &mut known, &want, vector),
        }
    }
}

fn nearest(ix: &VectorIndex, query: &[u32], k: usize, ef: Option<usize>) -> Vec<(u64, u64)> {
    let mut known = Known::new();
    loop {
        match ix.search(&known, k, ef) {
            Ok(v) => return v,
            Err(want) => learn(ix, &mut known, &want, query),
        }
    }
}

fn fill(ix: &mut VectorIndex, store: &Store) {
    let def = ix.def.clone();
    for e in index_entries(store, &def) {
        grow(ix, e.vid, &e.vector);
        if e.dead {
            ix.mark_dead(e.vid);
        }
    }
}

fn compact(ix: &VectorIndex, store: &Store, lsn: u64) -> VectorIndex {
    let mut fresh = VectorIndex::new(ix.def.clone());
    for e in live_entries(index_entries(store, &ix.def)) {
        grow(&mut fresh, e.vid, &e.vector);
    }
    fresh.set_rebuild_floor(compaction_floor(ix, lsn));
    fresh
}

// ---- a database -----------------------------------------------------------------------------------

#[derive(Default)]
struct DiskInner {
    log: Vec<(u64, Vec<u8>)>,
    pages: HashMap<u64, Vec<u8>>,
    open: Weak<RefCell<Database>>,
}

/// What outlives a process.
#[derive(Clone, Default)]
struct Disk(Rc<RefCell<DiskInner>>);

struct Database {
    store: Store,
    lane: WriteLane,
    group: GroupCommit,
    owners: OwnerIds,
    graphs: Graphs,
    disk: Disk,
    seed: u64,
    pages_loaded: u64,
    is_branch: bool,
}

fn answer(db: &mut Database, reals: &mut Reals, ask: Ask) {
    let a = match compute(&ask, &mut db.seed) {
        Some(a) => a,
        None => match &ask {
            Ask::Graph(name) => match db.graphs.find(name) {
                Some(at) => {
                    let ix = db.graphs.get(at);
                    Answer::Graph(ix.len() as u64, ix.rebuild_floor())
                }
                None => Answer::Graph(0, 0),
            },
            Ask::Nearest(name, q, k, ef) => {
                let ix = db.graphs.get(db.graphs.find(name).unwrap());
                let hits = nearest(ix, q, *k as usize, Some(*ef as usize));
                Answer::Ids(hits.into_iter().map(|(vid, _)| vid).collect())
            }
            _ => unreachable!(),
        },
    };
    reals.file(ask, a);
}

impl Database {
    fn append(&mut self, records: Vec<Vec<u8>>) -> u64 {
        let mut d = self.disk.0.borrow_mut();
        let mut lsn = d.log.last().map(|e| e.0).unwrap_or(0);
        for r in records {
            lsn += 1;
            d.log.push((lsn, r));
        }
        lsn
    }

    fn open(disk: &Disk, is_branch: bool) -> Rc<RefCell<Database>> {
        if let Some(db) = disk.0.borrow().open.upgrade() {
            return db;
        }
        let log: Vec<LogEntry> = disk
            .0
            .borrow()
            .log
            .iter()
            .map(|(lsn, bytes)| LogEntry { lsn: *lsn, bytes: bytes.clone() })
            .collect();
        let head = log.last().map(|e| e.lsn).unwrap_or(0);
        let mut seed = 7;
        let mut reals = Reals::new();
        let store = loop {
            let env = Env { reals: &reals, now: now_epoch(), params: &[], session: &SessionContext::default(), place: &[] };
            match replay(&log, head, &env) {
                Ok(s) => break s,
                Err(Stop::Need(ask)) => {
                    let a = compute(&ask, &mut seed).unwrap();
                    reals.file(ask, a);
                }
                Err(Stop::Fail(e)) => panic!("{e:?}"),
            }
        };
        let mut graphs = Graphs::new();
        let mut pages_loaded = 0;
        for name in store.index_names() {
            let def = store.index_def(&name).unwrap();
            let ix = match load_pages(disk, &def, store.committed_lsn) {
                Some(ix) => {
                    pages_loaded += 1;
                    ix
                }
                None => {
                    let mut ix = VectorIndex::new(def);
                    fill(&mut ix, &store);
                    if ix.needs_maintenance() {
                        ix = compact(&ix, &store, store.committed_lsn);
                    }
                    ix
                }
            };
            graphs.put(ix);
        }
        let db = Rc::new(RefCell::new(Database {
            store,
            lane: WriteLane::new(),
            group: GroupCommit::new(),
            owners: OwnerIds::new(),
            graphs,
            disk: disk.clone(),
            seed,
            pages_loaded,
            is_branch,
        }));
        disk.0.borrow_mut().open = Rc::downgrade(&db);
        db
    }

    fn index_rows(&mut self, ops: &[WalOp]) {
        for op in ops {
            if let WalOp::Insert { table, vid, values } = op {
                for (name, v) in index_adds(&self.store, table, values) {
                    if let Some(at) = self.graphs.find(&name) {
                        let ix = self.graphs.get(at);
                        let level = level_of(ix.draw(), ix.def.params.m);
                        let mut known = Known::new();
                        while let Err(want) = self.graphs.grow(at, *vid, v.clone(), level, &known) {
                            learn(self.graphs.get(at), &mut known, &want, &v);
                        }
                    }
                }
            }
        }
    }

    fn end_rows(&mut self, ended: &[(String, Vec<u64>)], lsn: u64) {
        for (table, vids) in ended {
            for name in self.graphs.end_rows(table, vids) {
                let at = self.graphs.find(&name).unwrap();
                let fresh = compact(self.graphs.get(at), &self.store, lsn);
                self.graphs.put(fresh);
            }
        }
    }

    fn commit(&mut self, owner: u64, ops: &[WalOp]) -> Result<u64, EngineError> {
        let (id, _) = self.group.submit(owner, encode_records(ops));
        self.lane.release();
        loop {
            let batch = self.group.drain_batch();
            if !batch.is_empty() {
                let last = self.append(gather(&batch));
                let ended = self.group.flush_batch(&mut self.store, &batch, Ok(last));
                self.end_rows(&ended, last);
            }
            if self.group.relinquish() {
                break;
            }
        }
        self.group.reclaim(id).unwrap()
    }
}

fn copy_op(op: &WalOp) -> WalOp {
    WalOp::decode(&op.encode()).unwrap()
}

fn load_pages(disk: &Disk, def: &twill::vector::IndexDef, committed: u64) -> Option<VectorIndex> {
    let d = disk.0.borrow();
    let region = index_page_region(&def.name);
    let first = d.pages.get(&region)?;
    let h = parse_page_header(first)?;
    if !is_current(&h, &def.name, committed) {
        return None;
    }
    let mut frames = vec![first.clone()];
    for i in 0..h.num_body_pages as u64 {
        frames.push(d.pages.get(&(region + 1 + i))?.clone());
    }
    VectorIndex::from_page_frames(def.clone(), &frames)
}

/// A connection to a database, with a host behind it.
struct Connection {
    db: Rc<RefCell<Database>>,
    state: Rc<RefCell<twill::conn::Connection>>,
    pub last_changes: i64,
    pub last_lsn: i64,
}

fn parsed(sql: &str) -> Result<(Stmt, usize), EngineError> {
    let mut seed = 1;
    let mut reals = Reals::new();
    loop {
        match parse(sql, &reals) {
            Ok(p) => return Ok(p),
            Err(Stop::Fail(e)) => return Err(e),
            Err(Stop::Need(ask)) => {
                let a = compute(&ask, &mut seed).unwrap();
                reals.file(ask, a);
            }
        }
    }
}

/// Run a statement to its end: answer what it asks, and do what it leaves to do.
fn run_on(
    db: &Rc<RefCell<Database>>,
    state: &Rc<RefCell<twill::conn::Connection>>,
    sql: &str,
    stmt: &Stmt,
    params: &[Value],
) -> Result<ResultSet, EngineError> {
    let db = &mut *db.borrow_mut();
    let conn = &mut *state.borrow_mut();
    let mut reals = Reals::new();
    let now = now_epoch();
    let took = writes(stmt) && !conn.is_writer();
    if took && !db.lane.acquire() {
        return Err(EngineError::new(EngineStatus::ErrConflict, "the write lane is held".to_string()));
    }
    let out: Outcome = loop {
        let owner = db.owners.next_owner();
        let env = Env { reals: &reals, now, params, session: &SessionContext::default(), place: &[] };
        match conn.run(&mut db.store, stmt, owner, &env) {
            Ok(o) => break o,
            Err(Stop::Need(ask)) => answer(db, &mut reals, ask),
            Err(Stop::Fail(e)) => {
                if took && !conn.is_writer() {
                    db.lane.release();
                }
                return Err(e);
            }
        }
    };
    db.graphs.drop_rows(&out.gone);
    match out.next {
        Next::Nothing => {
            if let Some(t) = &conn.txn {
                let ops: Vec<WalOp> = t.wal_ops.iter().map(copy_op).collect();
                db.index_rows(&ops);
            }
        }
        Next::Release => db.lane.release(),
        Next::Append { owner, ops } => {
            db.index_rows(&ops);
            let lsn = db.commit(owner, &ops)?;
            conn.acknowledge(lsn);
        }
        Next::Define { op } => {
            let lsn = db.append(encode_records(std::slice::from_ref(&op)));
            let (again, _) = parsed(sql)?;
            let env = Env { reals: &reals, now, params, session: &SessionContext::default(), place: &[] };
            match conn.define(&mut db.store, again, &op, lsn, &env) {
                Ok(()) => {}
                Err(_) => panic!("a durable definition has to take effect"),
            }
            db.graphs.follow(&op);
            if let WalOp::CreateIndex { def } = &op {
                let mut ix = VectorIndex::new(def.clone());
                fill(&mut ix, &db.store);
                if let Some(frames) = ix.to_page_frames(lsn) {
                    let region = index_page_region(&def.name);
                    let mut d = db.disk.0.borrow_mut();
                    for (i, f) in frames.into_iter().enumerate() {
                        d.pages.insert(region + i as u64, f);
                    }
                }
                db.graphs.put(ix);
            }
            db.lane.release();
        }
    }
    Ok(out.result)
}

#[allow(dead_code)]
impl Connection {
    fn open(disk: &Disk) -> Result<Connection, EngineError> {
        Ok(Connection {
            db: Database::open(disk, false),
            state: Rc::new(RefCell::new(twill::conn::Connection::new())),
            last_changes: 0,
            last_lsn: 0,
        })
    }

    fn note(&mut self) {
        self.last_changes = self.state.borrow().last_changes;
        self.last_lsn = self.state.borrow().last_lsn;
    }

    fn query(&mut self, sql: &str) -> Result<ResultSet, EngineError> {
        let (stmt, _) = parsed(sql)?;
        let r = run_on(&self.db, &self.state, sql, &stmt, &[]);
        self.note();
        r
    }

    fn exec(&mut self, sql: &str) -> Result<(), EngineError> {
        self.query(sql).map(|_| ())
    }

    fn begin(&mut self) -> Result<(), EngineError> {
        self.exec("BEGIN")
    }

    fn commit(&mut self) -> Result<(), EngineError> {
        self.exec("COMMIT")
    }

    fn rollback(&mut self) -> Result<(), EngineError> {
        self.exec("ROLLBACK")
    }

    fn catalog(&self) -> Vec<CatalogTable> {
        self.state.borrow().catalog(&self.db.borrow().store)
    }

    fn policies(&self) -> Vec<CatalogPolicy> {
        self.state.borrow().policies(&self.db.borrow().store)
    }

    fn rls_enabled(&self, table: &str) -> bool {
        self.state.borrow().rls_enabled(&self.db.borrow().store, table)
    }

    fn vector_pages_loaded(&self) -> u64 {
        self.db.borrow().pages_loaded
    }

    fn branch(&self, _name: &str) -> Result<Connection, EngineError> {
        self.state.borrow().check_branch(self.db.borrow().is_branch)?;
        let copy = Disk::default();
        copy.0.borrow_mut().log = self.db.borrow().disk.0.borrow().log.clone();
        Ok(Connection {
            db: Database::open(&copy, true),
            state: Rc::new(RefCell::new(twill::conn::Connection::new())),
            last_changes: 0,
            last_lsn: 0,
        })
    }

    fn prepare(&mut self, sql: &str) -> Result<Prepared, EngineError> {
        let (stmt, n) = parsed(sql)?;
        Ok(Prepared {
            db: self.db.clone(),
            state: self.state.clone(),
            sql: sql.to_string(),
            st: Statement::new(stmt, n),
        })
    }
}

impl Drop for Connection {
    fn drop(&mut self) {
        let db = &mut *self.db.borrow_mut();
        let (held, gone) = self.state.borrow_mut().close(&mut db.store);
        db.graphs.drop_rows(&gone);
        if held {
            db.lane.release();
        }
    }
}

/// A prepared statement, with a host behind it.
#[allow(dead_code)]
struct Prepared {
    db: Rc<RefCell<Database>>,
    state: Rc<RefCell<twill::conn::Connection>>,
    sql: String,
    st: Statement,
}

#[allow(dead_code)]
impl Prepared {
    fn bind(&mut self, idx: usize, value: Value) -> Result<(), EngineError> {
        self.st.bind(idx, value)
    }

    fn execute(&mut self) -> Result<(), EngineError> {
        if !self.st.executed() {
            let rs = run_on(&self.db, &self.state, &self.sql, &self.st.stmt, self.st.params())?;
            self.st.fill(rs);
        }
        Ok(())
    }

    fn step(&mut self) -> Result<bool, EngineError> {
        self.execute()?;
        Ok(self.st.step())
    }

    fn changes(&self) -> i64 {
        self.state.borrow().last_changes
    }

    fn reset(&mut self) {
        self.st.reset()
    }

    fn param_count(&self) -> usize {
        self.st.param_count()
    }

    fn column_value(&self, col: usize) -> Option<&Value> {
        self.st.column_value(col)
    }
}

/// The text of a value, as clients see it.
trait Shown {
    fn shown(&self) -> Option<String>;
}

impl Shown for Value {
    fn shown(&self) -> Option<String> {
        let mut seed = 1;
        let mut reals = Reals::new();
        loop {
            match self.render(&reals) {
                Ok(o) => return o.map(|cs| cs.into_iter().collect()),
                Err(Stop::Need(ask)) => {
                    let a = compute(&ask, &mut seed).unwrap();
                    reals.file(ask, a);
                }
                Err(Stop::Fail(e)) => panic!("{e:?}"),
            }
        }
    }
}

fn db_path(_tag: &str) -> Disk {
    Disk::default()
}

#[allow(dead_code)]
fn url_for(p: &Disk) -> Disk {
    p.clone()
}

#[allow(dead_code)]
fn cell(rs: &ResultSet, row: usize, col: usize) -> Option<String> {
    rs.rows[row][col].shown()
}

// ---- tests ----------------------------------------------------------------------------------------

fn open(tag: &str) -> (Connection, Disk) {
    let p = db_path(tag);
    let db = Connection::open(&p).unwrap();
    (db, p)
}






#[test]
fn default_values() {
    let (mut db, _p) = open("default");
    db.exec(
        "CREATE TABLE t (id INTEGER PRIMARY KEY, status TEXT DEFAULT 'new', n INTEGER DEFAULT 1 + 1)",
    )
    .unwrap();
    // Omitted columns take their defaults.
    db.exec("INSERT INTO t (id) VALUES (1)").unwrap();
    // The DEFAULT keyword as a value also takes the default.
    db.exec("INSERT INTO t (id, status) VALUES (2, DEFAULT)")
        .unwrap();
    let rs = db.query("SELECT id, status, n FROM t ORDER BY id").unwrap();
    assert_eq!(cell(&rs, 0, 1).as_deref(), Some("new"));
    assert_eq!(cell(&rs, 0, 2).as_deref(), Some("2"));
    assert_eq!(cell(&rs, 1, 1).as_deref(), Some("new"));
}

#[test]
fn check_constraints() {
    let (mut db, _p) = open("check");
    db.exec(
        "CREATE TABLE t (id INTEGER PRIMARY KEY, age INTEGER CHECK (age >= 0), \
         CONSTRAINT pos CHECK (age < 200))",
    )
    .unwrap();
    db.exec("INSERT INTO t VALUES (1, 30)").unwrap();
    let err = db.exec("INSERT INTO t VALUES (2, -5)").unwrap_err();
    assert_eq!(err.status, EngineStatus::ErrConstraint);
    let err = db.exec("INSERT INTO t VALUES (3, 999)").unwrap_err();
    assert_eq!(err.status, EngineStatus::ErrConstraint);
    // CHECK also applies on UPDATE.
    let err = db.exec("UPDATE t SET age = -1 WHERE id = 1").unwrap_err();
    assert_eq!(err.status, EngineStatus::ErrConstraint);
    assert_eq!(db.query("SELECT count(*) FROM t").unwrap().rows.len(), 1);
}

#[test]
fn autoincrement_and_serial() {
    let (mut db, _p) = open("autoinc");
    db.exec("CREATE TABLE a (id INTEGER PRIMARY KEY AUTOINCREMENT, v TEXT)")
        .unwrap();
    db.exec("INSERT INTO a (v) VALUES ('x'), ('y')").unwrap();
    db.exec("INSERT INTO a (id, v) VALUES (10, 'explicit')")
        .unwrap();
    db.exec("INSERT INTO a (v) VALUES ('after')").unwrap();
    let rs = db.query("SELECT id FROM a ORDER BY id").unwrap();
    assert_eq!(cell(&rs, 0, 0).as_deref(), Some("1"));
    assert_eq!(cell(&rs, 1, 0).as_deref(), Some("2"));
    assert_eq!(cell(&rs, 2, 0).as_deref(), Some("10"));
    // The counter advances past the explicit 10.
    assert_eq!(cell(&rs, 3, 0).as_deref(), Some("11"));

    // SERIAL is an autoincrement integer too.
    db.exec("CREATE TABLE s (id SERIAL PRIMARY KEY, v TEXT)")
        .unwrap();
    db.exec("INSERT INTO s (v) VALUES ('a'), ('b')").unwrap();
    let rs = db.query("SELECT id FROM s ORDER BY id").unwrap();
    assert_eq!(cell(&rs, 0, 0).as_deref(), Some("1"));
    assert_eq!(cell(&rs, 1, 0).as_deref(), Some("2"));
}

#[test]
fn secondary_unique() {
    let (mut db, _p) = open("unique");
    db.exec("CREATE TABLE u (id INTEGER PRIMARY KEY, email TEXT UNIQUE)")
        .unwrap();
    db.exec("INSERT INTO u VALUES (1, 'a@x'), (2, 'b@x')")
        .unwrap();
    let err = db.exec("INSERT INTO u VALUES (3, 'a@x')").unwrap_err();
    assert_eq!(err.status, EngineStatus::ErrConstraint);
    // Multiple NULLs are allowed (NULLs are distinct).
    db.exec("INSERT INTO u VALUES (4, NULL), (5, NULL)")
        .unwrap();
    // UPDATE into a duplicate also fails.
    let err = db
        .exec("UPDATE u SET email = 'b@x' WHERE id = 1")
        .unwrap_err();
    assert_eq!(err.status, EngineStatus::ErrConstraint);
}

#[test]
fn composite_primary_key() {
    let (mut db, _p) = open("composite");
    db.exec("CREATE TABLE m (a INTEGER, b INTEGER, v TEXT, PRIMARY KEY (a, b))")
        .unwrap();
    db.exec("INSERT INTO m VALUES (1, 1, 'x'), (1, 2, 'y'), (2, 1, 'z')")
        .unwrap();
    // Same (a,b) tuple clashes; a differing component is fine.
    let err = db.exec("INSERT INTO m VALUES (1, 1, 'dup')").unwrap_err();
    assert_eq!(err.status, EngineStatus::ErrConstraint);
    db.exec("INSERT INTO m VALUES (2, 2, 'ok')").unwrap();
    assert_eq!(
        cell(&db.query("SELECT count(*) FROM m").unwrap(), 0, 0).as_deref(),
        Some("4")
    );
}

#[test]
fn alter_table_add_drop_rename() {
    let (mut db, _p) = open("alter");
    db.exec("CREATE TABLE t (id INTEGER PRIMARY KEY, name TEXT)")
        .unwrap();
    db.exec("INSERT INTO t VALUES (1, 'a')").unwrap();

    // ADD COLUMN backfills existing rows with the default.
    db.exec("ALTER TABLE t ADD COLUMN score INTEGER DEFAULT 0")
        .unwrap();
    let rs = db.query("SELECT id, score FROM t").unwrap();
    assert_eq!(cell(&rs, 0, 1).as_deref(), Some("0"));
    db.exec("INSERT INTO t (id, name, score) VALUES (2, 'b', 5)")
        .unwrap();

    // RENAME COLUMN.
    db.exec("ALTER TABLE t RENAME COLUMN name TO label")
        .unwrap();
    let rs = db.query("SELECT label FROM t ORDER BY id").unwrap();
    assert_eq!(cell(&rs, 0, 0).as_deref(), Some("a"));

    // DROP COLUMN.
    db.exec("ALTER TABLE t DROP COLUMN score").unwrap();
    assert!(db.query("SELECT score FROM t").is_err());

    // RENAME TO.
    db.exec("ALTER TABLE t RENAME TO renamed").unwrap();
    let rs = db.query("SELECT id FROM renamed ORDER BY id").unwrap();
    assert_eq!(rs.rows.len(), 2);
}

#[test]
fn savepoints() {
    let (mut db, _p) = open("savepoint");
    db.exec("CREATE TABLE t (id INTEGER PRIMARY KEY)").unwrap();
    db.exec("INSERT INTO t VALUES (1)").unwrap();

    db.exec("BEGIN").unwrap();
    db.exec("INSERT INTO t VALUES (2)").unwrap();
    db.exec("SAVEPOINT sp1").unwrap();
    db.exec("INSERT INTO t VALUES (3)").unwrap();
    db.exec("INSERT INTO t VALUES (4)").unwrap();
    // Read-your-writes: all four visible.
    assert_eq!(
        cell(&db.query("SELECT count(*) FROM t").unwrap(), 0, 0).as_deref(),
        Some("4")
    );
    // Roll back to the savepoint: 3 and 4 vanish, 2 stays.
    db.exec("ROLLBACK TO sp1").unwrap();
    assert_eq!(
        cell(&db.query("SELECT count(*) FROM t").unwrap(), 0, 0).as_deref(),
        Some("2")
    );
    // Continue and commit; the rolled-back rows never persist.
    db.exec("INSERT INTO t VALUES (5)").unwrap();
    db.exec("COMMIT").unwrap();
    let rs = db.query("SELECT id FROM t ORDER BY id").unwrap();
    assert_eq!(rs.rows.len(), 3);
    assert_eq!(cell(&rs, 0, 0).as_deref(), Some("1"));
    assert_eq!(cell(&rs, 1, 0).as_deref(), Some("2"));
    assert_eq!(cell(&rs, 2, 0).as_deref(), Some("5"));
}

#[test]
fn constraints_persist_across_restart() {
    // Constraints + autoincrement survive a reopen (rebuilt from the durable WAL).
    let p = db_path("persist");
    let url = p.clone();
    {
        let mut db = Connection::open(&url).unwrap();
        db.exec(
            "CREATE TABLE t (id INTEGER PRIMARY KEY AUTOINCREMENT, \
             email TEXT UNIQUE, status TEXT DEFAULT 'new', age INTEGER CHECK (age >= 0))",
        )
        .unwrap();
        db.exec("INSERT INTO t (email, age) VALUES ('a@x', 1), ('b@x', 2)")
            .unwrap();
    }
    let mut db = Connection::open(&url).unwrap();
    // Default still applies, autoincrement counter resumes at 3, UNIQUE/CHECK hold.
    db.exec("INSERT INTO t (email, age) VALUES ('c@x', 3)")
        .unwrap();
    let rs = db.query("SELECT id, status FROM t ORDER BY id").unwrap();
    assert_eq!(cell(&rs, 2, 0).as_deref(), Some("3"));
    assert_eq!(cell(&rs, 2, 1).as_deref(), Some("new"));
    let err = db
        .exec("INSERT INTO t (email, age) VALUES ('a@x', 9)")
        .unwrap_err();
    assert_eq!(err.status, EngineStatus::ErrConstraint);
    let err = db
        .exec("INSERT INTO t (email, age) VALUES ('d@x', -1)")
        .unwrap_err();
    assert_eq!(err.status, EngineStatus::ErrConstraint);
}

#[test]
fn an_upsert_keeps_the_key_single() {
    let (mut db, _p) = open("upsert");
    db.exec("CREATE TABLE k (id INTEGER PRIMARY KEY, n INTEGER)")
        .unwrap();
    db.exec("INSERT INTO k VALUES (1, 10), (2, 20)").unwrap();
    db.exec("INSERT INTO k VALUES (1, 5) ON CONFLICT (id) DO UPDATE SET n = k.n + excluded.n")
        .unwrap();
    db.exec("INSERT INTO k VALUES (2, 7) ON CONFLICT (id) DO UPDATE SET id = excluded.id, n = 7")
        .unwrap();
    let rs = db.query("SELECT id, n FROM k ORDER BY id").unwrap();
    assert_eq!(rs.rows.len(), 2);
    assert_eq!(cell(&rs, 0, 1).as_deref(), Some("15"));
    assert_eq!(cell(&rs, 1, 1).as_deref(), Some("7"));
}

#[test]
fn an_upsert_is_held_to_checks() {
    let (mut db, _p) = open("upsert_check");
    db.exec("CREATE TABLE t (id INTEGER PRIMARY KEY, v INTEGER CHECK (v < 100))").unwrap();
    db.exec("INSERT INTO t VALUES (1, 5)").unwrap();
    let err = db
        .exec("INSERT INTO t VALUES (1, 7) ON CONFLICT (id) DO UPDATE SET v = excluded.v + 100")
        .unwrap_err();
    assert_eq!(err.status, EngineStatus::ErrConstraint);
    let rs = db.query("SELECT v FROM t").unwrap();
    assert_eq!(rs.rows.len(), 1);
    assert_eq!(cell(&rs, 0, 0).as_deref(), Some("5"));
    db.exec("INSERT INTO t VALUES (1, 7) ON CONFLICT (id) DO UPDATE SET v = excluded.v + 10")
        .unwrap();
    assert_eq!(cell(&db.query("SELECT v FROM t").unwrap(), 0, 0).as_deref(), Some("17"));
}

#[test]
fn a_null_draws_a_number() {
    let (mut db, _p) = open("null_number");
    db.exec("CREATE TABLE t (id INTEGER PRIMARY KEY AUTOINCREMENT, v TEXT)").unwrap();
    db.exec("INSERT INTO t (id, v) VALUES (NULL, 'a'), (7, 'b'), (NULL, 'c')").unwrap();
    let rs = db.query("SELECT id FROM t ORDER BY v").unwrap();
    assert_eq!(cell(&rs, 0, 0).as_deref(), Some("1"));
    assert_eq!(cell(&rs, 1, 0).as_deref(), Some("7"));
    assert_eq!(cell(&rs, 2, 0).as_deref(), Some("8"));
}

#[test]
fn a_default_means_what_was_written() {
    let (mut db, _p) = open("default_text");
    db.exec(
        "CREATE TABLE t (id INTEGER PRIMARY KEY, \"a b\" INTEGER, x REAL DEFAULT 7 / 2.0, \
         s TEXT DEFAULT 'h\u{e9}', CHECK (\"a b\" < 10))",
    )
    .unwrap();
    db.exec("INSERT INTO t (id, \"a b\") VALUES (1, 5)").unwrap();
    db.exec("INSERT INTO t (id, \"a b\", s) VALUES (2, 6, 'h\u{e9}')").unwrap();
    let rs = db.query("SELECT x, s FROM t ORDER BY id").unwrap();
    assert_eq!(cell(&rs, 0, 0).as_deref(), Some("3.5"));
    assert_eq!(cell(&rs, 0, 1), cell(&rs, 1, 1));
    let err = db.exec("INSERT INTO t (id, \"a b\") VALUES (3, 11)").unwrap_err();
    assert_eq!(err.status, EngineStatus::ErrConstraint);
}

#[test]
fn an_upsert_moves_a_row_to_a_free_key_alone() {
    let (mut db, _p) = open("upsert_move");
    db.exec("CREATE TABLE t (id INTEGER PRIMARY KEY, n INTEGER)").unwrap();
    db.exec("INSERT INTO t VALUES (1, 10), (2, 20)").unwrap();
    let err = db
        .exec("INSERT INTO t VALUES (1, 0) ON CONFLICT (id) DO UPDATE SET id = 2")
        .unwrap_err();
    assert_eq!(err.status, EngineStatus::ErrConstraint);
    assert_eq!(err.message, "UNIQUE constraint failed: t.id");
    let rs = db.query("SELECT id, n FROM t ORDER BY id").unwrap();
    assert_eq!(rs.rows.len(), 2);
    assert_eq!(cell(&rs, 0, 1).as_deref(), Some("10"));

    // The old key is free for the next row of the statement, the new one is not.
    db.exec("INSERT INTO t VALUES (1, 0), (1, 11) ON CONFLICT (id) DO UPDATE SET id = 3").unwrap();
    let rs = db.query("SELECT id, n FROM t ORDER BY id").unwrap();
    assert_eq!(rs.rows.len(), 3);
    assert_eq!(cell(&rs, 0, 1).as_deref(), Some("11"));
    assert_eq!(cell(&rs, 2, 0).as_deref(), Some("3"));
    assert_eq!(cell(&rs, 2, 1).as_deref(), Some("10"));
    let err = db
        .exec("INSERT INTO t VALUES (1, 0), (2, 0) ON CONFLICT (id) DO UPDATE SET id = 4")
        .unwrap_err();
    assert_eq!(err.message, "UNIQUE constraint failed: t.id");
    assert_eq!(db.query("SELECT id FROM t WHERE id = 4").unwrap().rows.len(), 0);
}

#[test]
fn keys_of_several_columns_do_not_run_together() {
    let (mut db, _p) = open("composite_keys");
    db.exec("CREATE TABLE t (a TEXT, b TEXT, PRIMARY KEY (a, b))").unwrap();
    db.exec("INSERT INTO t VALUES ('x\u{1}ty', 'z')").unwrap();
    db.exec("INSERT INTO t VALUES ('x', 'y\u{1}tz')").unwrap();
    db.exec("INSERT INTO t VALUES ('x,2tb', ''), ('x', 'b,2t')").unwrap();
    let err = db.exec("INSERT INTO t VALUES ('x', 'y\u{1}tz')").unwrap_err();
    assert_eq!(err.status, EngineStatus::ErrConstraint);
    let rs = db.query("SELECT DISTINCT a, b FROM t").unwrap();
    assert_eq!(rs.rows.len(), 4);
    let rs = db.query("SELECT a, b FROM t UNION SELECT a, b FROM t").unwrap();
    assert_eq!(rs.rows.len(), 4);
    let rs = db.query("SELECT a, b, COUNT(*) FROM t GROUP BY a, b").unwrap();
    assert_eq!(rs.rows.len(), 4);
}
