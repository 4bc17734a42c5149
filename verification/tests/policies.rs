use std::cell::RefCell;
use std::collections::HashMap;
use std::rc::{Rc, Weak};
use twill::asks::{Answer, Ask, Binary, Reals, Stop, Unary};
use twill::conn::{encode_records, writes, Next, Outcome};
use twill::datetime::now_epoch;
use twill::env::Env;
use twill::error::{EngineError, EngineStatus};
use twill::graph::{Known, VectorIndex, MAX_LEVEL};
use twill::graphs::Graphs;
use twill::group_commit::{gather, GroupCommit};
use twill::host::{index_page_region, OwnerIds, WriteLane};
use twill::pages::{is_current, parse_page_header};
use twill::prepared::Statement;
use twill::pstmt::parse;
use twill::query::ResultSet;
use twill::recovery::{replay, LogEntry};
use twill::reflect::{CatalogPolicy, CatalogTable};
use twill::session::SessionContext;
use twill::sql::Stmt;
use twill::store::Store;
use twill::upkeep::{compaction_floor, index_adds, index_entries, live_entries};
use twill::value::Value;
use twill::vector::Metric;
use twill::wal::WalOp;

// ---- the floating-point unit ----------------------------------------------------------------------

fn dot(a: &[f32], b: &[f32]) -> f32 {
    a.iter().zip(b).map(|(x, y)| x * y).sum()
}

fn distance(metric: Metric, a: &[u32], b: &[u32]) -> f32 {
    let a: Vec<f32> = a.iter().map(|x| f32::from_bits(*x)).collect();
    let b: Vec<f32> = b.iter().map(|x| f32::from_bits(*x)).collect();
    match metric {
        Metric::L2 => a.iter().zip(&b).map(|(x, y)| (x - y) * (x - y)).sum::<f32>().sqrt(),
        Metric::Cosine => {
            let na = dot(&a, &a).sqrt();
            let nb = dot(&b, &b).sqrt();
            if na == 0.0 || nb == 0.0 {
                1.0
            } else {
                1.0 - dot(&a, &b) / (na * nb)
            }
        }
        Metric::InnerProduct => -dot(&a, &b),
    }
}

fn wide(d: f32) -> u64 {
    (d as f64).to_bits()
}

/// The layer that a draw stands for.
fn level_of(draw: u64, m: usize) -> usize {
    let u = ((draw >> 11) as f64 / (1u64 << 53) as f64).max(1e-12);
    let ml = 1.0 / (m.max(2) as f64).ln();
    ((-u.ln() * ml).floor() as usize).min(MAX_LEVEL)
}

fn compute(ask: &Ask, seed: &mut u64) -> Option<Answer> {
    let f = |b: u64| f64::from_bits(b);
    Some(match ask {
        Ask::Parse(s) => Answer::Number(s.parse::<f64>().ok().map(f64::to_bits)),
        Ask::Parse32(s) => Answer::Number32(s.parse::<f32>().ok().map(f32::to_bits)),
        Ask::Narrow(b) => Answer::Number32(Some((f(*b) as f32).to_bits())),
        Ask::Int32(n) => Answer::Number32(Some((*n as f32).to_bits())),
        Ask::Show(b) => Answer::Text(format!("{}", f(*b))),
        Ask::Show32(b) => Answer::Text(format!("{}", f32::from_bits(*b))),
        Ask::Spell(b) => Answer::Text(format!("{:?}", f(*b))),
        Ask::Apply2(op, a, b) => {
            let (x, y) = (f(*a), f(*b));
            let r = match op {
                Binary::Plus => x + y,
                Binary::Minus => x - y,
                Binary::Times => x * y,
                Binary::Over => x / y,
                Binary::Modulo => x % y,
                Binary::Power => x.powf(y),
            };
            Answer::Bits(r.to_bits())
        }
        Ask::Apply1(op, a) => {
            let x = f(*a);
            let r = match op {
                Unary::Sqrt => x.sqrt(),
                Unary::Exp => x.exp(),
                Unary::Ln => x.ln(),
                Unary::Log10 => x.log10(),
            };
            Answer::Bits(r.to_bits())
        }
        Ask::Places(a, n) => {
            let m = 10f64.powi(*n as i32);
            Answer::Bits(((f(*a) * m).round() / m).to_bits())
        }
        Ask::Total(v) => Answer::Bits(v.iter().map(|b| f(*b)).sum::<f64>().to_bits()),
        Ask::Draw(..) => {
            *seed = seed.wrapping_add(0x9E37_79B9_7F4A_7C15);
            let mut z = *seed;
            z = (z ^ (z >> 30)).wrapping_mul(0xBF58_476D_1CE4_E5B9);
            z = (z ^ (z >> 27)).wrapping_mul(0x94D0_49BB_1331_11EB);
            Answer::Bits(z ^ (z >> 31))
        }
        Ask::Distance(m, a, b) => Answer::Bits(wide(distance(*m, a, b))),
        Ask::Graph(_) | Ask::Nearest(..) => return None,
    })
}

// ---- vector indexes -------------------------------------------------------------------------------

fn learn(ix: &VectorIndex, known: &mut Known, want: &[(usize, usize)], query: &[u32]) {
    let metric = ix.metric();
    for &(a, b) in want {
        let x = if a < ix.nodes.len() { ix.nodes[a].vector.as_slice() } else { query };
        let y = if b < ix.nodes.len() { ix.nodes[b].vector.as_slice() } else { query };
        known.learn(a, b, wide(distance(metric, x, y)));
    }
}

fn grow(ix: &mut VectorIndex, vid: u64, vector: &[u32]) {
    let level = level_of(ix.draw(), ix.def.params.m);
    let mut known = Known::new();
    loop {
        match ix.insert(vid, vector.to_vec(), level, &known) {
            Ok(()) => return,
            Err(want) => learn(ix, &mut known, &want, vector),
        }
    }
}

fn nearest(ix: &VectorIndex, query: &[u32], k: usize, ef: Option<usize>) -> Vec<(u64, u64)> {
    let mut known = Known::new();
    loop {
        match ix.search(&known, k, ef) {
            Ok(v) => return v,
            Err(want) => learn(ix, &mut known, &want, query),
        }
    }
}

fn fill(ix: &mut VectorIndex, store: &Store) {
    let def = ix.def.clone();
    for e in index_entries(store, &def) {
        grow(ix, e.vid, &e.vector);
        if e.dead {
            ix.mark_dead(e.vid);
        }
    }
}

fn compact(ix: &VectorIndex, store: &Store, lsn: u64) -> VectorIndex {
    let mut fresh = VectorIndex::new(ix.def.clone());
    for e in live_entries(index_entries(store, &ix.def)) {
        grow(&mut fresh, e.vid, &e.vector);
    }
    fresh.set_rebuild_floor(compaction_floor(ix, lsn));
    fresh
}

// ---- a database -----------------------------------------------------------------------------------

#[derive(Default)]
struct DiskInner {
    log: Vec<(u64, Vec<u8>)>,
    pages: HashMap<u64, Vec<u8>>,
    open: Weak<RefCell<Database>>,
}

/// What outlives a process.
#[derive(Clone, Default)]
struct Disk(Rc<RefCell<DiskInner>>);

struct Database {
    store: Store,
    lane: WriteLane,
    group: GroupCommit,
    owners: OwnerIds,
    graphs: Graphs,
    disk: Disk,
    seed: u64,
    pages_loaded: u64,
    is_branch: bool,
}

fn answer(db: &mut Database, reals: &mut Reals, ask: Ask) {
    let a = match compute(&ask, &mut db.seed) {
        Some(a) => a,
        None => match &ask {
            Ask::Graph(name) => match db.graphs.find(name) {
                Some(at) => {
                    let ix = db.graphs.get(at);
                    Answer::Graph(ix.len() as u64, ix.rebuild_floor())
                }
                None => Answer::Graph(0, 0),
            },
            Ask::Nearest(name, q, k, ef) => {
                let ix = db.graphs.get(db.graphs.find(name).unwrap());
                let hits = nearest(ix, q, *k as usize, Some(*ef as usize));
                Answer::Ids(hits.into_iter().map(|(vid, _)| vid).collect())
            }
            _ => unreachable!(),
        },
    };
    reals.file(ask, a);
}

impl Database {
    fn append(&mut self, records: Vec<Vec<u8>>) -> u64 {
        let mut d = self.disk.0.borrow_mut();
        let mut lsn = d.log.last().map(|e| e.0).unwrap_or(0);
        for r in records {
            lsn += 1;
            d.log.push((lsn, r));
        }
        lsn
    }

    fn open(disk: &Disk, is_branch: bool) -> Rc<RefCell<Database>> {
        if let Some(db) = disk.0.borrow().open.upgrade() {
            return db;
        }
        let log: Vec<LogEntry> = disk
            .0
            .borrow()
            .log
            .iter()
            .map(|(lsn, bytes)| LogEntry { lsn: *lsn, bytes: bytes.clone() })
            .collect();
        let head = log.last().map(|e| e.lsn).unwrap_or(0);
        let mut seed = 7;
        let mut reals = Reals::new();
        let store = loop {
            let env = Env { reals: &reals, now: now_epoch(), params: &[], session: &SessionContext::default(), place: &[] };
            match replay(&log, head, &env) {
                Ok(s) => break s,
                Err(Stop::Need(ask)) => {
                    let a = compute(&ask, &mut seed).unwrap();
                    reals.file(ask, a);
                }
                Err(Stop::Fail(e)) => panic!("{e:?}"),
            }
        };
        let mut graphs = Graphs::new();
        let mut pages_loaded = 0;
        for name in store.index_names() {
            let def = store.index_def(&name).unwrap();
            let ix = match load_pages(disk, &def, store.committed_lsn) {
                Some(ix) => {
                    pages_loaded += 1;
                    ix
                }
                None => {
                    let mut ix = VectorIndex::new(def);
                    fill(&mut ix, &store);
                    if ix.needs_maintenance() {
                        ix = compact(&ix, &store, store.committed_lsn);
                    }
                    ix
                }
            };
            graphs.put(ix);
        }
        let db = Rc::new(RefCell::new(Database {
            store,
            lane: WriteLane::new(),
            group: GroupCommit::new(),
            owners: OwnerIds::new(),
            graphs,
            disk: disk.clone(),
            seed,
            pages_loaded,
            is_branch,
        }));
        disk.0.borrow_mut().open = Rc::downgrade(&db);
        db
    }

    fn index_rows(&mut self, ops: &[WalOp]) {
        for op in ops {
            if let WalOp::Insert { table, vid, values } = op {
                for (name, v) in index_adds(&self.store, table, values) {
                    if let Some(at) = self.graphs.find(&name) {
                        let ix = self.graphs.get(at);
                        let level = level_of(ix.draw(), ix.def.params.m);
                        let mut known = Known::new();
                        while let Err(want) = self.graphs.grow(at, *vid, v.clone(), level, &known) {
                            learn(self.graphs.get(at), &mut known, &want, &v);
                        }
                    }
                }
            }
        }
    }

    fn end_rows(&mut self, ended: &[(String, Vec<u64>)], lsn: u64) {
        for (table, vids) in ended {
            for name in self.graphs.end_rows(table, vids) {
                let at = self.graphs.find(&name).unwrap();
                let fresh = compact(self.graphs.get(at), &self.store, lsn);
                self.graphs.put(fresh);
            }
        }
    }

    fn commit(&mut self, owner: u64, ops: &[WalOp]) -> Result<u64, EngineError> {
        let (id, _) = self.group.submit(owner, encode_records(ops));
        self.lane.release();
        loop {
            let batch = self.group.drain_batch();
            if !batch.is_empty() {
                let last = self.append(gather(&batch));
                let ended = self.group.flush_batch(&mut self.store, &batch, Ok(last));
                self.end_rows(&ended, last);
            }
            if self.group.relinquish() {
                break;
            }
        }
        self.group.reclaim(id).unwrap()
    }
}

fn copy_op(op: &WalOp) -> WalOp {
    WalOp::decode(&op.encode()).unwrap()
}

fn load_pages(disk: &Disk, def: &twill::vector::IndexDef, committed: u64) -> Option<VectorIndex> {
    let d = disk.0.borrow();
    let region = index_page_region(&def.name);
    let first = d.pages.get(&region)?;
    let h = parse_page_header(first)?;
    if !is_current(&h, &def.name, committed) {
        return None;
    }
    let mut frames = vec![first.clone()];
    for i in 0..h.num_body_pages as u64 {
        frames.push(d.pages.get(&(region + 1 + i))?.clone());
    }
    VectorIndex::from_page_frames(def.clone(), &frames)
}

/// A connection to a database, with a host behind it.
struct Connection {
    db: Rc<RefCell<Database>>,
    state: Rc<RefCell<twill::conn::Connection>>,
    pub last_changes: i64,
    pub last_lsn: i64,
}

fn parsed(sql: &str) -> Result<(Stmt, usize), EngineError> {
    let mut seed = 1;
    let mut reals = Reals::new();
    loop {
        match parse(sql, &reals) {
            Ok(p) => return Ok(p),
            Err(Stop::Fail(e)) => return Err(e),
            Err(Stop::Need(ask)) => {
                let a = compute(&ask, &mut seed).unwrap();
                reals.file(ask, a);
            }
        }
    }
}

/// Run a statement to its end: answer what it asks, and do what it leaves to do.
fn run_on(
    db: &Rc<RefCell<Database>>,
    state: &Rc<RefCell<twill::conn::Connection>>,
    sql: &str,
    stmt: &Stmt,
    params: &[Value],
) -> Result<ResultSet, EngineError> {
    let db = &mut *db.borrow_mut();
    let conn = &mut *state.borrow_mut();
    let mut reals = Reals::new();
    let now = now_epoch();
    let took = writes(stmt) && !conn.is_writer();
    if took && !db.lane.acquire() {
        return Err(EngineError::new(EngineStatus::ErrConflict, "the write lane is held".to_string()));
    }
    let out: Outcome = loop {
        let owner = db.owners.next_owner();
        let env = Env { reals: &reals, now, params, session: &SessionContext::default(), place: &[] };
        match conn.run(&mut db.store, stmt, owner, &env) {
            Ok(o) => break o,
            Err(Stop::Need(ask)) => answer(db, &mut reals, ask),
            Err(Stop::Fail(e)) => {
                if took && !conn.is_writer() {
                    db.lane.release();
                }
                return Err(e);
            }
        }
    };
    db.graphs.drop_rows(&out.gone);
    match out.next {
        Next::Nothing => {
            if let Some(t) = &conn.txn {
                let ops: Vec<WalOp> = t.wal_ops.iter().map(copy_op).collect();
                db.index_rows(&ops);
            }
        }
        Next::Release => db.lane.release(),
        Next::Append { owner, ops } => {
            db.index_rows(&ops);
            let lsn = db.commit(owner, &ops)?;
            conn.acknowledge(lsn);
        }
        Next::Define { op } => {
            let lsn = db.append(encode_records(std::slice::from_ref(&op)));
            let (again, _) = parsed(sql)?;
            let env = Env { reals: &reals, now, params, session: &SessionContext::default(), place: &[] };
            match conn.define(&mut db.store, again, &op, lsn, &env) {
                Ok(()) => {}
                Err(_) => panic!("a durable definition has to take effect"),
            }
            db.graphs.follow(&op);
            if let WalOp::CreateIndex { def } = &op {
                let mut ix = VectorIndex::new(def.clone());
                fill(&mut ix, &db.store);
                if let Some(frames) = ix.to_page_frames(lsn) {
                    let region = index_page_region(&def.name);
                    let mut d = db.disk.0.borrow_mut();
                    for (i, f) in frames.into_iter().enumerate() {
                        d.pages.insert(region + i as u64, f);
                    }
                }
                db.graphs.put(ix);
            }
            db.lane.release();
        }
    }
    Ok(out.result)
}

#[allow(dead_code)]
impl Connection {
    fn open(disk: &Disk) -> Result<Connection, EngineError> {
        Ok(Connection {
            db: Database::open(disk, false),
            state: Rc::new(RefCell::new(twill::conn::Connection::new())),
            last_changes: 0,
            last_lsn: 0,
        })
    }

    fn note(&mut self) {
        self.last_changes = self.state.borrow().last_changes;
        self.last_lsn = self.state.borrow().last_lsn;
    }

    fn query(&mut self, sql: &str) -> Result<ResultSet, EngineError> {
        let (stmt, _) = parsed(sql)?;
        let r = run_on(&self.db, &self.state, sql, &stmt, &[]);
        self.note();
        r
    }

    fn exec(&mut self, sql: &str) -> Result<(), EngineError> {
        self.query(sql).map(|_| ())
    }

    fn begin(&mut self) -> Result<(), EngineError> {
        self.exec("BEGIN")
    }

    fn commit(&mut self) -> Result<(), EngineError> {
        self.exec("COMMIT")
    }

    fn rollback(&mut self) -> Result<(), EngineError> {
        self.exec("ROLLBACK")
    }

    fn catalog(&self) -> Vec<CatalogTable> {
        self.state.borrow().catalog(&self.db.borrow().store)
    }

    fn policies(&self) -> Vec<CatalogPolicy> {
        self.state.borrow().policies(&self.db.borrow().store)
    }

    fn rls_enabled(&self, table: &str) -> bool {
        self.state.borrow().rls_enabled(&self.db.borrow().store, table)
    }

    fn vector_pages_loaded(&self) -> u64 {
        self.db.borrow().pages_loaded
    }

    fn branch(&self, _name: &str) -> Result<Connection, EngineError> {
        self.state.borrow().check_branch(self.db.borrow().is_branch)?;
        let copy = Disk::default();
        copy.0.borrow_mut().log = self.db.borrow().disk.0.borrow().log.clone();
        Ok(Connection {
            db: Database::open(&copy, true),
            state: Rc::new(RefCell::new(twill::conn::Connection::new())),
            last_changes: 0,
            last_lsn: 0,
        })
    }

    fn prepare(&mut self, sql: &str) -> Result<Prepared, EngineError> {
        let (stmt, n) = parsed(sql)?;
        Ok(Prepared {
            db: self.db.clone(),
            state: self.state.clone(),
            sql: sql.to_string(),
            st: Statement::new(stmt, n),
        })
    }
}

impl Drop for Connection {
    fn drop(&mut self) {
        let db = &mut *self.db.borrow_mut();
        let (held, gone) = self.state.borrow_mut().close(&mut db.store);
        db.graphs.drop_rows(&gone);
        if held {
            db.lane.release();
        }
    }
}

/// A prepared statement, with a host behind it.
#[allow(dead_code)]
struct Prepared {
    db: Rc<RefCell<Database>>,
    state: Rc<RefCell<twill::conn::Connection>>,
    sql: String,
    st: Statement,
}

#[allow(dead_code)]
impl Prepared {
    fn bind(&mut self, idx: usize, value: Value) -> Result<(), EngineError> {
        self.st.bind(idx, value)
    }

    fn execute(&mut self) -> Result<(), EngineError> {
        if !self.st.executed() {
            let rs = run_on(&self.db, &self.state, &self.sql, &self.st.stmt, self.st.params())?;
            self.st.fill(rs);
        }
        Ok(())
    }

    fn step(&mut self) -> Result<bool, EngineError> {
        self.execute()?;
        Ok(self.st.step())
    }

    fn changes(&self) -> i64 {
        self.state.borrow().last_changes
    }

    fn reset(&mut self) {
        self.st.reset()
    }

    fn param_count(&self) -> usize {
        self.st.param_count()
    }

    fn column_value(&self, col: usize) -> Option<&Value> {
        self.st.column_value(col)
    }
}

/// The text of a value, as clients see it.
trait Shown {
    fn shown(&self) -> Option<String>;
}

impl Shown for Value {
    fn shown(&self) -> Option<String> {
        let mut seed = 1;
        let mut reals = Reals::new();
        loop {
            match self.render(&reals) {
                Ok(o) => return o.map(|cs| cs.into_iter().collect()),
                Err(Stop::Need(ask)) => {
                    let a = compute(&ask, &mut seed).unwrap();
                    reals.file(ask, a);
                }
                Err(Stop::Fail(e)) => panic!("{e:?}"),
            }
        }
    }
}

fn db_path(_tag: &str) -> Disk {
    Disk::default()
}

#[allow(dead_code)]
fn url_for(p: &Disk) -> Disk {
    p.clone()
}

#[allow(dead_code)]
fn cell(rs: &ResultSet, row: usize, col: usize) -> Option<String> {
    rs.rows[row][col].shown()
}

// ---- tests ----------------------------------------------------------------------------------------

fn open(p: &Disk) -> Connection {
    Connection::open(p).unwrap()
}

/// A `notes` table seeded with rows owned by two principals, RLS enabled, and a
/// `SELECT`/`ALL` policy restricting visibility to the row owner.
fn seeded(p: &Disk) -> Connection {
    let mut db = open(p);
    db.exec("CREATE TABLE notes (id INTEGER PRIMARY KEY, owner TEXT, body TEXT)")
        .unwrap();
    db.exec("INSERT INTO notes VALUES (1,'42','mine'),(2,'99','theirs'),(3,'42','also mine')")
        .unwrap();
    db.exec("ALTER TABLE notes ENABLE ROW LEVEL SECURITY")
        .unwrap();
    db.exec(
        "CREATE POLICY owner_can_read ON notes FOR ALL TO authenticated \
         USING (owner = auth.uid()) WITH CHECK (owner = auth.uid())",
    )
    .unwrap();
    db
}

/// `SET ROLE` + `SET twill.jwt.claims` flow through to `auth.uid()/role()/claim()`
///.
#[test]
fn auth_accessors_read_the_session_principal() {
    let p = db_path("auth");
    let mut db = open(&p);
    db.exec("SET ROLE user").unwrap();
    db.exec(r#"SET twill.jwt.claims = '{"sub":"u_42","org":"acme"}'"#)
        .unwrap();
    let rs = db
        .query("SELECT auth.uid(), auth.role(), auth.claim('org')")
        .unwrap();
    assert_eq!(rs.rows[0][0].shown().as_deref(), Some("u_42"));
    assert_eq!(rs.rows[0][1].shown().as_deref(), Some("user"));
    assert_eq!(rs.rows[0][2].shown().as_deref(), Some("acme"));
}

/// A connection that never ran the SETs has the default (anon) principal, and two
/// connections on the same `Database` never see each other's principal.
#[test]
fn principal_is_per_connection() {
    let p = db_path("isolation");
    let mut a = open(&p);
    let mut b = open(&p); // same URL → shares the Database, not the session

    a.exec("SET ROLE user").unwrap();
    a.exec(r#"SET twill.jwt.claims = '{"sub":"u_42"}'"#)
        .unwrap();

    let ra = a.query("SELECT auth.role(), auth.uid()").unwrap();
    assert_eq!(ra.rows[0][0].shown().as_deref(), Some("user"));
    assert_eq!(ra.rows[0][1].shown().as_deref(), Some("u_42"));

    let rb = b.query("SELECT auth.role(), auth.uid()").unwrap();
    assert_eq!(rb.rows[0][0].shown().as_deref(), Some("anon"));
    assert!(rb.rows[0][1].shown().is_none()); // NULL uid for the anon principal
}

/// The `USING` predicate filters every read to the rows the principal owns; the
/// single-table fast path.
#[test]
fn read_path_filters_by_using() {
    let p = db_path("read");
    let mut db = seeded(&p);
    db.exec("SET ROLE authenticated").unwrap();
    db.exec(r#"SET twill.jwt.claims = '{"sub":"42"}'"#).unwrap();

    let rs = db.query("SELECT id FROM notes ORDER BY id").unwrap();
    let ids: Vec<Option<String>> = rs.rows.iter().map(|r| r[0].shown()).collect();
    assert_eq!(ids, vec![Some("1".into()), Some("3".into())]); // owner=42 only
}

/// The relational path (a self-join here) applies each base table's policy, and a
/// derived table inherits its source's policy.
#[test]
fn read_path_filters_in_joins_and_derived_tables() {
    let p = db_path("join");
    let mut db = seeded(&p);
    db.exec("SET ROLE authenticated").unwrap();
    db.exec(r#"SET twill.jwt.claims = '{"sub":"42"}'"#).unwrap();

    // Self-join: only owner=42 rows survive on both sides.
    let rs = db
        .query(
            "SELECT a.id, b.id FROM notes a JOIN notes b ON a.owner = b.owner ORDER BY a.id, b.id",
        )
        .unwrap();
    for row in &rs.rows {
        assert!(matches!(row[0].shown().as_deref(), Some("1") | Some("3")));
        assert!(matches!(row[1].shown().as_deref(), Some("1") | Some("3")));
    }

    // Derived table inherits notes' policy.
    let rs = db
        .query("SELECT count(*) FROM (SELECT * FROM notes) sub")
        .unwrap();
    assert_eq!(rs.rows[0][0].shown().as_deref(), Some("2"));
}

/// RLS enabled with no policy matching the active role behaves as `WHERE FALSE`
/// (default-deny).
#[test]
fn default_deny_when_no_policy_matches() {
    let p = db_path("deny");
    let mut db = seeded(&p);
    // `anon` (no SET ROLE) has no matching policy → sees nothing.
    let rs = db.query("SELECT count(*) FROM notes").unwrap();
    assert_eq!(rs.rows[0][0].shown().as_deref(), Some("0"));

    // An authenticated principal with a non-matching uid also sees nothing.
    db.exec("SET ROLE authenticated").unwrap();
    db.exec(r#"SET twill.jwt.claims = '{"sub":"nobody"}'"#)
        .unwrap();
    let rs = db.query("SELECT count(*) FROM notes").unwrap();
    assert_eq!(rs.rows[0][0].shown().as_deref(), Some("0"));
}

/// Policies are durable catalog facts: they survive a process restart (WAL
/// replay) and reflect via `pg_policies`.
#[test]
fn policies_persist_across_restart() {
    let p = db_path("persist");
    {
        let _db = seeded(&p);
    } // drop → release fence; the Database leaves the registry

    let mut db = open(&p); // reopen → replay rebuilds the policy set
    assert!(db.rls_enabled("notes"));
    let policies = db.policies();
    assert_eq!(policies.len(), 1);
    let pol = &policies[0];
    assert_eq!(pol.name, "owner_can_read");
    assert_eq!(pol.command, "ALL");
    assert_eq!(pol.roles, vec!["authenticated".to_string()]);
    assert_eq!(pol.using.as_deref(), Some("owner = auth.uid()"));
    assert_eq!(pol.check.as_deref(), Some("owner = auth.uid()"));

    // Enforcement is still live after restart.
    db.exec("SET ROLE authenticated").unwrap();
    db.exec(r#"SET twill.jwt.claims = '{"sub":"99"}'"#).unwrap();
    let rs = db.query("SELECT id FROM notes").unwrap();
    assert_eq!(rs.rows.len(), 1);
    assert_eq!(rs.rows[0][0].shown().as_deref(), Some("2"));
}

/// `DROP POLICY` removes enforcement; the table is then default-deny (RLS still
/// enabled, no policy).
#[test]
fn drop_policy_returns_to_default_deny() {
    let p = db_path("droppol");
    let mut db = seeded(&p);
    db.exec("DROP POLICY owner_can_read ON notes").unwrap();
    assert!(db.policies().is_empty());

    db.exec("SET ROLE authenticated").unwrap();
    db.exec(r#"SET twill.jwt.claims = '{"sub":"42"}'"#).unwrap();
    let rs = db.query("SELECT count(*) FROM notes").unwrap();
    assert_eq!(rs.rows[0][0].shown().as_deref(), Some("0"));
}

/// Policy DDL inside an explicit transaction is rejected (autocommit-only).
#[test]
fn policy_ddl_is_autocommit_only() {
    let p = db_path("txn");
    let mut db = open(&p);
    db.exec("CREATE TABLE t (id INTEGER PRIMARY KEY, owner TEXT)")
        .unwrap();
    db.exec("BEGIN").unwrap();
    let err = db
        .exec("CREATE POLICY p ON t FOR ALL USING (owner = auth.uid())")
        .unwrap_err();
    assert_eq!(err.status, EngineStatus::ErrTxn);
    db.exec("ROLLBACK").unwrap();
}

/// A `notes` table with RLS on and an owner-scoped `ALL` policy; the connection is
/// authenticated as uid `42`.
fn as_owner_42(p: &Disk) -> Connection {
    let mut db = open(p);
    db.exec("CREATE TABLE notes (id INTEGER PRIMARY KEY, owner TEXT, body TEXT)")
        .unwrap();
    db.exec("ALTER TABLE notes ENABLE ROW LEVEL SECURITY")
        .unwrap();
    db.exec(
        "CREATE POLICY p ON notes FOR ALL TO authenticated \
         USING (owner = auth.uid()) WITH CHECK (owner = auth.uid())",
    )
    .unwrap();
    db.exec("SET ROLE authenticated").unwrap();
    db.exec(r#"SET twill.jwt.claims = '{"sub":"42"}'"#).unwrap();
    db
}

/// `WITH CHECK` admits a row the principal owns and rejects one it does not.
#[test]
fn with_check_gates_insert() {
    let p = db_path("insert");
    let mut db = as_owner_42(&p);

    db.exec("INSERT INTO notes VALUES (1,'42','mine')").unwrap();

    let err = db
        .exec("INSERT INTO notes VALUES (2,'99','not mine')")
        .unwrap_err();
    assert_eq!(err.status, EngineStatus::ErrConstraint);

    // Only the admitted row exists.
    db.exec("SET twill.rls.bypass = on").unwrap();
    let rs = db.query("SELECT count(*) FROM notes").unwrap();
    assert_eq!(rs.rows[0][0].shown().as_deref(), Some("1"));
}

/// A write denied by `WITH CHECK` emits no WAL record — it is absent after
/// recovery.
#[test]
fn denied_insert_never_reaches_the_wal() {
    let p = db_path("durable");
    {
        let mut db = as_owner_42(&p);
        let err = db
            .exec("INSERT INTO notes VALUES (7,'99','nope')")
            .unwrap_err();
        assert_eq!(err.status, EngineStatus::ErrConstraint);
    } // drop → release fence

    // Reopen: replay the WAL. The denied row must be absent (bypass to see all).
    let mut db = open(&p);
    db.exec("SET twill.rls.bypass = on").unwrap();
    let rs = db.query("SELECT count(*) FROM notes").unwrap();
    assert_eq!(rs.rows[0][0].shown().as_deref(), Some("0"));
}

/// UPDATE only touches rows the `USING` predicate admits, and the new row must
/// pass `WITH CHECK`.
#[test]
fn update_respects_using_and_check() {
    let p = db_path("update");
    let mut db = as_owner_42(&p);
    // Seed two owners via the bypass, then enforce as uid 42.
    db.exec("SET twill.rls.bypass = on").unwrap();
    db.exec("INSERT INTO notes VALUES (1,'42','a'),(2,'99','b')")
        .unwrap();
    db.exec("SET twill.rls.bypass = off").unwrap();

    // Updating someone else's row is a no-op (USING excludes it).
    db.exec("UPDATE notes SET body = 'hax' WHERE id = 2")
        .unwrap();
    assert_eq!(db.last_changes, 0);

    // Updating my own row works.
    db.exec("UPDATE notes SET body = 'edited' WHERE id = 1")
        .unwrap();
    assert_eq!(db.last_changes, 1);

    // Re-assigning ownership away from myself violates WITH CHECK → rejected.
    let err = db
        .exec("UPDATE notes SET owner = '99' WHERE id = 1")
        .unwrap_err();
    assert_eq!(err.status, EngineStatus::ErrConstraint);
}

/// DELETE only removes rows the `USING` predicate admits.
#[test]
fn delete_respects_using() {
    let p = db_path("delete");
    let mut db = as_owner_42(&p);
    db.exec("SET twill.rls.bypass = on").unwrap();
    db.exec("INSERT INTO notes VALUES (1,'42','a'),(2,'99','b')")
        .unwrap();
    db.exec("SET twill.rls.bypass = off").unwrap();

    db.exec("DELETE FROM notes WHERE id = 2").unwrap();
    assert_eq!(db.last_changes, 0); // not mine → untouched

    db.exec("DELETE FROM notes WHERE id = 1").unwrap();
    assert_eq!(db.last_changes, 1);
}

/// `RETURNING` is filtered by the SELECT policy, so an insert cannot surface a row
/// the principal could not read — even though the row was written.
#[test]
fn returning_is_rls_filtered() {
    let p = db_path("returning");
    let mut db = open(&p);
    db.exec("CREATE TABLE notes (id INTEGER PRIMARY KEY, owner TEXT)")
        .unwrap();
    db.exec("ALTER TABLE notes ENABLE ROW LEVEL SECURITY")
        .unwrap();
    // A SELECT policy that restricts visibility, and a permissive INSERT policy so
    // both rows are admitted.
    db.exec("CREATE POLICY r ON notes FOR SELECT TO authenticated USING (owner = auth.uid())")
        .unwrap();
    db.exec("CREATE POLICY w ON notes FOR INSERT TO authenticated WITH CHECK (true)")
        .unwrap();
    db.exec("SET ROLE authenticated").unwrap();
    db.exec(r#"SET twill.jwt.claims = '{"sub":"42"}'"#).unwrap();

    let rs = db
        .query("INSERT INTO notes VALUES (1,'99'),(2,'42') RETURNING id")
        .unwrap();
    // Both rows written, but only the owned one is returned.
    assert_eq!(rs.rows.len(), 1);
    assert_eq!(rs.rows[0][0].shown().as_deref(), Some("2"));
    assert_eq!(db.last_changes, 2);
}

/// The explicit, off-by-default bypass sees and writes every row; turning it off
/// returns to the filtered view. It is never inferred from a role name.
#[test]
fn explicit_bypass_sees_all_then_filters_again() {
    let p = db_path("bypass");
    let mut db = as_owner_42(&p);
    db.exec("SET twill.rls.bypass = on").unwrap();
    db.exec("INSERT INTO notes VALUES (1,'42','a'),(2,'99','b')")
        .unwrap();
    let rs = db.query("SELECT count(*) FROM notes").unwrap();
    assert_eq!(rs.rows[0][0].shown().as_deref(), Some("2"));

    db.exec("SET twill.rls.bypass = off").unwrap();
    let rs = db.query("SELECT count(*) FROM notes").unwrap();
    assert_eq!(rs.rows[0][0].shown().as_deref(), Some("1")); // only owner=42

    // Merely naming a role does NOT bypass — service_role with no explicit flag
    // is still filtered (bypass is never inferred from a role name).
    db.exec("SET ROLE service_role").unwrap();
    let rs = db.query("SELECT count(*) FROM notes").unwrap();
    assert_eq!(rs.rows[0][0].shown().as_deref(), Some("0")); // no policy for service_role
}

fn seed(db: &mut Connection) {
    db.exec("CREATE TABLE notes (id INTEGER PRIMARY KEY, owner TEXT)")
        .unwrap();
    db.exec("INSERT INTO notes VALUES (1,'42'),(2,'99')")
        .unwrap();
    db.exec("ALTER TABLE notes ENABLE ROW LEVEL SECURITY")
        .unwrap();
    db.exec("CREATE POLICY p ON notes FOR ALL TO authenticated USING (owner = auth.uid())")
        .unwrap();
}

fn count(db: &mut Connection) -> i64 {
    db.query("SELECT count(*) FROM notes").unwrap().rows[0][0]
        .shown()
        .unwrap()
        .parse()
        .unwrap()
}

/// Enforcement is at the executor, the lowest chokepoint: a *second* engine
/// handle to the same database (a different "client") is still filtered — it does
/// not inherit the first connection's principal and cannot read past the policy
///.
#[test]
fn a_second_handle_cannot_bypass() {
    let p = db_path("second");
    let mut a = open(&p);
    seed(&mut a);
    a.exec("SET ROLE authenticated").unwrap();
    a.exec(r#"SET twill.jwt.claims = '{"sub":"42"}'"#).unwrap();
    assert_eq!(count(&mut a), 1); // a sees only its own row

    // A fresh handle (the "attacker" with no SETs) is anon → default-deny.
    let mut b = open(&p);
    assert_eq!(count(&mut b), 0);
}

/// A debug-opened branch enforces RLS too — the policy rode the WAL into the
/// branch, and the branch handle has its own (default) principal, so an
/// unfiltered read via the branch stays filtered.
#[test]
fn a_debug_branch_cannot_bypass() {
    let p = db_path("branchbypass");
    let mut main = open(&p);
    seed(&mut main);

    let mut branch = main.branch("debug").unwrap();
    // The branch inherited the policy; its anon principal sees nothing.
    assert!(branch.rls_enabled("notes"));
    assert_eq!(count(&mut branch), 0);

    // With a matching principal on the branch, the policy still filters.
    branch.exec("SET ROLE authenticated").unwrap();
    branch
        .exec(r#"SET twill.jwt.claims = '{"sub":"99"}'"#)
        .unwrap();
    assert_eq!(count(&mut branch), 1);
}

/// A branch can diverge its policy set without touching the parent.
#[test]
fn branch_policy_divergence() {
    let p = db_path("divergence");
    let mut main = open(&p);
    seed(&mut main);

    let mut branch = main.branch("b").unwrap();
    assert_eq!(branch.policies().len(), 1);

    // Diverge: drop the policy on the branch only.
    branch.exec("DROP POLICY p ON notes").unwrap();
    assert!(branch.policies().is_empty());

    // The parent is unchanged.
    assert_eq!(main.policies().len(), 1);
    assert_eq!(main.policies()[0].name, "p");
}

/// PITR: a branch forked *before* the policy's creation LSN does not have the
/// policy; one forked *after* does — the policy is an LSN-stamped catalog fact, so
/// rewinding to a point-in-time restores the policy set in effect then.
#[test]
fn pitr_restores_policy_set_at_lsn() {
    let p = db_path("pitr");
    let mut main = open(&p);
    main.exec("CREATE TABLE notes (id INTEGER PRIMARY KEY, owner TEXT)")
        .unwrap();
    main.exec("INSERT INTO notes VALUES (1,'42'),(2,'99')")
        .unwrap();

    // Fork before any policy exists.
    let mut before = main.branch("before").unwrap();

    // Now enable RLS + create the policy on main.
    main.exec("ALTER TABLE notes ENABLE ROW LEVEL SECURITY")
        .unwrap();
    main.exec("CREATE POLICY p ON notes FOR ALL TO authenticated USING (owner = auth.uid())")
        .unwrap();

    // Fork after the policy exists.
    let mut after = main.branch("after").unwrap();

    // The "before" branch has no policy and RLS off → all rows visible.
    assert!(!before.rls_enabled("notes"));
    assert!(before.policies().is_empty());
    assert_eq!(count(&mut before), 2);

    // The "after" branch carries the policy → default-deny for anon.
    assert!(after.rls_enabled("notes"));
    assert_eq!(after.policies().len(), 1);
    assert_eq!(count(&mut after), 0);
}

// ---- further cases --------------------------------------------------------------------------------

fn message(db: &mut Connection, sql: &str) -> String {
    db.exec(sql).unwrap_err().message
}

#[test]
fn policies_are_checked_when_they_are_defined() {
    let p = db_path("ddl");
    let mut db = open(&p);
    db.exec("CREATE TABLE t (id INTEGER PRIMARY KEY, owner TEXT)").unwrap();
    assert_eq!(message(&mut db, "CREATE POLICY p ON gone USING (true)"), "no such table: gone");
    db.exec("CREATE POLICY p ON t USING (id > 0)").unwrap();
    assert_eq!(
        message(&mut db, "CREATE POLICY P ON t USING (true)"),
        "policy P already exists on t"
    );
    assert!(db.exec("CREATE POLICY q ON t USING (id >)").is_err());
    assert!(db.exec("CREATE POLICY q ON t FOR MERGE USING (true)").is_err());
    assert_eq!(message(&mut db, "DROP POLICY q ON t"), "no such policy: q on t");
    db.exec("DROP POLICY IF EXISTS q ON t").unwrap();
    assert_eq!(db.policies().len(), 1);
    db.exec("DROP POLICY p ON t").unwrap();
    assert_eq!(db.policies().len(), 0);
    assert!(!db.rls_enabled("gone"));
}

#[test]
fn policies_are_listed_by_table_and_name() {
    let p = db_path("list");
    let mut db = open(&p);
    db.exec("CREATE TABLE b (id INTEGER)").unwrap();
    db.exec("CREATE TABLE a (id INTEGER)").unwrap();
    db.exec("CREATE POLICY z ON b FOR DELETE TO x, y USING (id = 1)").unwrap();
    db.exec("CREATE POLICY y ON b TO PUBLIC WITH CHECK (id IN (1, 2))").unwrap();
    db.exec("CREATE POLICY z ON a FOR SELECT USING (length(auth.role()) > 0)").unwrap();
    let got: Vec<(String, String, &str, usize)> = db
        .policies()
        .into_iter()
        .map(|q| (q.table, q.name, q.command, q.roles.len()))
        .collect();
    assert_eq!(
        got,
        vec![
            ("a".to_string(), "z".to_string(), "SELECT", 0),
            ("b".to_string(), "y".to_string(), "ALL", 0),
            ("b".to_string(), "z".to_string(), "DELETE", 2),
        ]
    );
    let all = db.policies();
    assert_eq!(all[0].using.as_deref(), Some("length(auth.role()) > 0"));
    assert_eq!(all[0].check, None);
    assert_eq!(all[1].check.as_deref(), Some("id IN(1, 2)"));
}

#[test]
fn any_policy_for_the_role_lets_a_row_through() {
    let p = db_path("any");
    let mut db = open(&p);
    db.exec("CREATE TABLE t (id INTEGER PRIMARY KEY, kind TEXT)").unwrap();
    db.exec("INSERT INTO t VALUES (1,'a'),(2,'b'),(3,'c'),(4,NULL)").unwrap();
    db.exec("CREATE POLICY a ON t FOR SELECT TO reader USING (kind = 'a')").unwrap();
    db.exec("CREATE POLICY b ON t FOR SELECT TO reader USING (kind = 'b')").unwrap();
    db.exec("CREATE POLICY c ON t FOR SELECT TO other USING (kind = 'c')").unwrap();
    // Until they are enforced they hide nothing.
    db.exec("SET ROLE reader").unwrap();
    assert_eq!(db.query("SELECT id FROM t").unwrap().rows.len(), 4);
    db.exec("ALTER TABLE t ENABLE ROW LEVEL SECURITY").unwrap();
    let rs = db.query("SELECT id FROM t ORDER BY id").unwrap();
    assert_eq!(rs.rows.len(), 2);
    assert_eq!(cell(&rs, 0, 0).as_deref(), Some("1"));
    assert_eq!(cell(&rs, 1, 0).as_deref(), Some("2"));
    // A policy for reading lets nothing be written.
    assert_eq!(
        message(&mut db, "INSERT INTO t VALUES (5,'a')"),
        "new row violates row-level security policy: t"
    );
    db.exec("SET ROLE 'other'").unwrap();
    assert_eq!(db.query("SELECT id FROM t").unwrap().rows.len(), 1);
    db.exec("RESET ROLE").unwrap();
    assert_eq!(db.query("SELECT id FROM t").unwrap().rows.len(), 0);
    db.exec("ALTER TABLE t DISABLE ROW LEVEL SECURITY").unwrap();
    assert_eq!(db.query("SELECT id FROM t").unwrap().rows.len(), 4);
}

#[test]
fn a_clash_is_held_to_the_policies_too() {
    let p = db_path("clash");
    let mut db = as_owner_42(&p);
    db.exec("SET twill.rls.bypass = on").unwrap();
    db.exec("INSERT INTO notes VALUES (1,'42','a'),(2,'99','b')").unwrap();
    db.exec("RESET twill.rls.bypass").unwrap();
    let upsert = |id: i64| {
        format!("INSERT INTO notes VALUES ({id},'42','x') ON CONFLICT (id) DO UPDATE SET body = 'y'")
    };
    db.exec(&upsert(1)).unwrap();
    assert_eq!(db.exec(&upsert(2)).unwrap_err().status, EngineStatus::ErrConstraint);
    assert_eq!(
        db.exec("INSERT INTO notes VALUES (1,'42','x') ON CONFLICT (id) DO UPDATE SET owner = '9'")
            .unwrap_err()
            .status,
        EngineStatus::ErrConstraint
    );
    assert_eq!(
        db.exec("INSERT OR REPLACE INTO notes VALUES (2,'42','x')").unwrap_err().status,
        EngineStatus::ErrConstraint
    );
    db.exec("INSERT OR REPLACE INTO notes VALUES (1,'42','z')").unwrap();
    let rs = db.query("SELECT body FROM notes").unwrap();
    assert_eq!(rs.rows.len(), 1);
    assert_eq!(cell(&rs, 0, 0).as_deref(), Some("z"));
}

#[test]
fn a_view_shows_what_its_reader_may_read() {
    let p = db_path("view");
    let mut db = seeded(&p);
    db.exec("CREATE VIEW mine AS SELECT id, body FROM notes").unwrap();
    assert_eq!(db.query("SELECT id FROM mine").unwrap().rows.len(), 0);
    db.exec("SET ROLE authenticated").unwrap();
    db.exec(r#"SET twill.jwt.claims = '{"sub":"99"}'"#).unwrap();
    assert_eq!(db.query("SELECT id FROM mine").unwrap().rows.len(), 1);
    db.exec("RESET twill.jwt.claims").unwrap();
    assert_eq!(db.query("SELECT id FROM mine").unwrap().rows.len(), 0);
    let rs = db.query("SELECT count(*) FROM notes WHERE id IN (SELECT id FROM notes)").unwrap();
    assert_eq!(cell(&rs, 0, 0).as_deref(), Some("0"));
}

#[test]
fn a_nearest_neighbour_query_is_filtered() {
    let p = db_path("near");
    let mut db = open(&p);
    db.exec("CREATE TABLE d (id INTEGER PRIMARY KEY, owner TEXT, e vector(2))").unwrap();
    db.exec("INSERT INTO d VALUES (1,'a','[0,0]'),(2,'b','[1,0]'),(3,'a','[2,0]')").unwrap();
    db.exec("CREATE INDEX di ON d USING hnsw (e)").unwrap();
    db.exec("ALTER TABLE d ENABLE ROW LEVEL SECURITY").unwrap();
    db.exec("CREATE POLICY own ON d USING (owner = auth.uid())").unwrap();
    db.exec(r#"SET twill.jwt.claims = '{"sub":"a"}'"#).unwrap();
    let rs = db.query("SELECT id FROM d ORDER BY e <-> '[1,0]' LIMIT 2").unwrap();
    let mut ids: Vec<Option<String>> = rs.rows.iter().map(|r| r[0].shown()).collect();
    ids.sort();
    assert_eq!(ids, vec![Some("1".to_string()), Some("3".to_string())]);
}

#[test]
fn session_settings_are_read_strictly() {
    let p = db_path("strict");
    let mut db = open(&p);
    assert!(db.exec("SET ROLE 5").is_err());
    assert!(db.exec("SET twill.jwt.claims = 5").is_err());
    assert!(db.exec("SET twill.rls.bypass = maybe").is_err());
    db.exec("SET SESSION ROLE = writer").unwrap();
    let rs = db.query("SELECT auth.role(), auth.claim('k'), auth.claim(NULL)").unwrap();
    assert_eq!(cell(&rs, 0, 0).as_deref(), Some("writer"));
    assert_eq!(cell(&rs, 0, 1), None);
    assert_eq!(cell(&rs, 0, 2), None);
    db.exec("SET ROLE NONE").unwrap();
    let rs = db.query("SELECT auth.role()").unwrap();
    assert_eq!(cell(&rs, 0, 0).as_deref(), Some("anon"));
    assert!(db.query("SELECT auth.nothing()").is_err());
}

/// What a hidden row holds shows in no query.
#[test]
fn hidden_rows_show_in_no_query() {
    let queries = [
        "SELECT * FROM notes ORDER BY id",
        "SELECT count(*), max(id) FROM notes",
        "SELECT a.id, b.id FROM notes a LEFT JOIN notes b ON a.id < b.id ORDER BY a.id, b.id",
        "WITH c AS (SELECT * FROM notes) SELECT count(*) FROM c",
        "SELECT count(*) FROM (SELECT id FROM notes) d",
        "SELECT 1 WHERE EXISTS (SELECT 1 FROM notes WHERE owner = 'zed')",
        "SELECT id FROM notes UNION SELECT id FROM notes ORDER BY id",
        "SELECT count(*) FROM every_note",
    ];
    let answers = |hide: &str| -> Vec<Vec<Vec<Option<String>>>> {
        let p = db_path(hide);
        let mut db = seeded(&p);
        db.exec("CREATE VIEW every_note AS SELECT * FROM notes").unwrap();
        db.exec("SET twill.rls.bypass = on").unwrap();
        db.exec(hide).unwrap();
        assert_eq!(db.query("SELECT id FROM notes WHERE owner <> '42' AND owner <> '99'").unwrap().rows.len(), 1);
        db.exec("SET twill.rls.bypass = off").unwrap();
        db.exec("SET ROLE authenticated").unwrap();
        db.exec(r#"SET twill.jwt.claims = '{"sub":"42"}'"#).unwrap();
        queries
            .iter()
            .map(|q| {
                let rs = db.query(q).unwrap();
                rs.rows.iter().map(|r| r.iter().map(|v| v.shown()).collect()).collect()
            })
            .collect()
    };
    let plain = answers("UPDATE notes SET owner = 'abe' WHERE owner <> '42'");
    let other = answers("UPDATE notes SET owner = 'zed' WHERE owner <> '42'");
    assert_eq!(plain, other);
    assert_eq!(plain[0].len(), 2);
}
