//! Group commit: transactions that are ready together share one durable append.
//!
//! A committing connection puts the records of its transaction behind the queue. The
//! first to come while nobody flushes becomes the leader. It takes a bounded batch
//! off the front of the queue, has it appended, and settles it: every member is
//! published at the sequence number of its own commit mark, or, where the append
//! failed, every member is rolled back. The leader goes on until the queue is empty.
//! A commit is answered only from the outcome of the append that held its records.
use vstd::prelude::*;
use crate::ddl::{publish, published};
use crate::error::{EngineError, EngineStatus, ErrorV, StorageFault};
use crate::mvcc::{committed, endings_from, named_ids_view, removals_from, rolled_back};
use crate::store::{store_ok, Store, StoreV};

verus! {

/// The most records that share an append. A batch holds at least one transaction,
/// whatever its size.
pub const MAX_BATCH_RECORDS: usize = 1024;

pub open spec fn commit_status(f: StorageFault) -> EngineStatus {
    match f {
        StorageFault::Fenced | StorageFault::Contended => EngineStatus::ErrConflict,
        _ => EngineStatus::ErrStorage,
    }
}

/// A fault of the storage backend during a commit: a lost race is a conflict, all
/// else is a storage error.
pub fn commit_error(fault: StorageFault, message: String) -> (e: EngineError)
    ensures
        e@ == (ErrorV { status: commit_status(fault), message: message@ }),
{
    let status = match fault {
        StorageFault::Fenced | StorageFault::Contended => EngineStatus::ErrConflict,
        _ => EngineStatus::ErrStorage,
    };
    EngineError::new(status, message)
}

/// A transaction that waits to be made durable.
pub struct Member {
    pub id: u64,
    /// The writer whose pending versions this commit publishes.
    pub owner: u64,
    /// The encoded operations, and a commit mark.
    pub records: Vec<Vec<u8>>,
}

pub struct MemberV {
    pub id: u64,
    pub owner: u64,
    pub records: Seq<Seq<u8>>,
}

pub open spec fn records_view(v: Seq<Vec<u8>>) -> Seq<Seq<u8>> {
    Seq::new(v.len(), |i: int| v[i]@)
}

impl View for Member {
    type V = MemberV;

    open spec fn view(&self) -> MemberV {
        MemberV { id: self.id, owner: self.owner, records: records_view(self.records@) }
    }
}

pub open spec fn members_view(v: Seq<Member>) -> Seq<MemberV> {
    Seq::new(v.len(), |i: int| v[i]@)
}

/// What a commit came to: its sequence number, or why it failed.
pub type Verdict = Result<u64, ErrorV>;

pub open spec fn verdict(r: Result<u64, EngineError>) -> Verdict {
    match r {
        Ok(n) => Ok(n),
        Err(e) => Err(e@),
    }
}

pub open spec fn answers_view(v: Seq<(u64, Result<u64, EngineError>)>) -> Seq<(u64, Verdict)> {
    Seq::new(v.len(), |i: int| (v[i].0, verdict(v[i].1)))
}

/// The commits of one database that are on their way.
pub struct GroupCommit {
    pub queue: Vec<Member>,
    pub answers: Vec<(u64, Result<u64, EngineError>)>,
    pub leader_active: bool,
    pub next_id: u64,
    pub batches: u64,
    pub commits: u64,
}

pub struct GroupV {
    pub queue: Seq<MemberV>,
    pub answers: Seq<(u64, Verdict)>,
    pub leader_active: bool,
    pub next_id: u64,
    pub batches: u64,
    pub commits: u64,
}

impl View for GroupCommit {
    type V = GroupV;

    open spec fn view(&self) -> GroupV {
        GroupV {
            queue: members_view(self.queue@),
            answers: answers_view(self.answers@),
            leader_active: self.leader_active,
            next_id: self.next_id,
            batches: self.batches,
            commits: self.commits,
        }
    }
}

// ---- batches --------------------------------------------------------------------------------------

/// How many members a batch takes, where `n` are in it with `records` records.
pub open spec fn batch_len(q: Seq<MemberV>, n: int, records: int) -> int
    decreases q.len() - n,
{
    if n < 0 || n >= q.len() {
        n
    } else if n > 0 && records + q[n].records.len() > MAX_BATCH_RECORDS {
        n
    } else {
        batch_len(q, n + 1, records + q[n].records.len())
    }
}

/// The records of the first `n` members, counted.
pub open spec fn count(b: Seq<MemberV>, n: int) -> int
    decreases n,
{
    if n <= 0 || n > b.len() {
        0
    } else {
        count(b, n - 1) + b[n - 1].records.len()
    }
}

/// The records of the first `n` members, in the order of their submission.
pub open spec fn gathered(b: Seq<MemberV>, n: int) -> Seq<Seq<u8>>
    decreases n,
{
    if n <= 0 || n > b.len() {
        Seq::empty()
    } else {
        gathered(b, n - 1) + b[n - 1].records
    }
}

/// The sequence number of a member's commit mark, where the append took the numbers
/// up to `last`: behind it stand the records of the members that follow.
pub open spec fn mark_of(b: Seq<MemberV>, last: u64, i: int) -> int {
    last - (count(b, b.len() as int) - count(b, i + 1))
}

/// The store with the members from `i` on published at their marks.
pub open spec fn settled_from(s: StoreV, b: Seq<MemberV>, last: u64, i: int) -> StoreV
    decreases b.len() - i,
{
    if i < 0 || i >= b.len() {
        s
    } else {
        settled_from(committed(s, b[i].owner, mark_of(b, last, i) as u64), b, last, i + 1)
    }
}

/// The store with the members from `i` on rolled back.
pub open spec fn dropped_from(s: StoreV, b: Seq<MemberV>, i: int) -> StoreV
    decreases b.len() - i,
{
    if i < 0 || i >= b.len() {
        s
    } else {
        dropped_from(rolled_back(s, b[i].owner, Seq::empty()), b, i + 1)
    }
}

/// Per table, the versions that the members from `i` on end by being published.
pub open spec fn ended_from(
    s: StoreV,
    b: Seq<MemberV>,
    last: u64,
    i: int,
    acc: Seq<(Seq<char>, Seq<u64>)>,
) -> Seq<(Seq<char>, Seq<u64>)>
    decreases b.len() - i,
{
    if i < 0 || i >= b.len() {
        acc
    } else {
        ended_from(
            committed(s, b[i].owner, mark_of(b, last, i) as u64),
            b,
            last,
            i + 1,
            acc + endings_from(s.tables, b[i].owner, 0, Seq::empty()),
        )
    }
}

/// Per table, the versions that go when the members from `i` on are rolled back.
pub open spec fn gone_from(
    s: StoreV,
    b: Seq<MemberV>,
    i: int,
    acc: Seq<(Seq<char>, Seq<u64>)>,
) -> Seq<(Seq<char>, Seq<u64>)>
    decreases b.len() - i,
{
    if i < 0 || i >= b.len() {
        acc
    } else {
        gone_from(
            rolled_back(s, b[i].owner, Seq::empty()),
            b,
            i + 1,
            acc + removals_from(s.tables, b[i].owner, Seq::empty(), 0, Seq::empty()),
        )
    }
}

/// The versions that indexes have to follow: those that ended, or those that went.
pub open spec fn traces(s: StoreV, b: Seq<MemberV>, outcome: Result<u64, ErrorV>) -> Seq<
    (Seq<char>, Seq<u64>),
> {
    match outcome {
        Ok(last) => ended_from(s, b, last, 0, Seq::empty()),
        Err(_) => gone_from(s, b, 0, Seq::empty()),
    }
}

/// The store after a batch.
pub open spec fn settled(s: StoreV, b: Seq<MemberV>, outcome: Result<u64, ErrorV>) -> StoreV {
    match outcome {
        Ok(last) => if b.len() == 0 {
            s
        } else {
            published(settled_from(s, b, last, 0), last)
        },
        Err(_) => dropped_from(s, b, 0),
    }
}

/// What the members of a batch are answered.
pub open spec fn answered(b: Seq<MemberV>, outcome: Result<u64, ErrorV>) -> Seq<(u64, Verdict)> {
    Seq::new(
        b.len(),
        |i: int|
            (
                b[i].id,
                match outcome {
                    Ok(last) => Ok(mark_of(b, last, i) as u64),
                    Err(e) => Err(e),
                },
            ),
    )
}

/// Where the answer to a member stands.
pub open spec fn answer_pos(v: Seq<(u64, Verdict)>, id: u64, i: int) -> Option<int>
    decreases v.len() - i,
{
    if i < 0 || i >= v.len() {
        None
    } else if v[i].0 == id {
        Some(i)
    } else {
        answer_pos(v, id, i + 1)
    }
}

pub proof fn lemma_count_grows(b: Seq<MemberV>, i: int, j: int)
    requires
        0 <= i <= j <= b.len(),
    ensures
        0 <= count(b, i) <= count(b, j),
    decreases j,
{
    if i < j {
        lemma_count_grows(b, i, j - 1);
    } else if i > 0 {
        lemma_count_grows(b, i - 1, j - 1);
    }
}

proof fn lemma_batch_len(q: Seq<MemberV>, n: int, records: int)
    requires
        0 <= n <= q.len(),
        records == count(q, n),
        n <= 1 || records <= MAX_BATCH_RECORDS,
    ensures
        n <= batch_len(q, n, records) <= q.len(),
        n < q.len() && n == 0 ==> batch_len(q, n, records) >= 1,
        batch_len(q, n, records) <= 1 || count(q, batch_len(q, n, records)) <= MAX_BATCH_RECORDS,
        batch_len(q, n, records) < q.len() ==> count(q, batch_len(q, n, records) + 1)
            > MAX_BATCH_RECORDS,
    decreases q.len() - n,
{
    if n < q.len() {
        if !(n > 0 && records + q[n].records.len() > MAX_BATCH_RECORDS) {
            lemma_batch_len(q, n + 1, records + q[n].records.len());
        }
    }
}

impl GroupCommit {
    pub fn new() -> (r: GroupCommit)
        ensures
            r@ == (GroupV {
                queue: Seq::empty(),
                answers: Seq::empty(),
                leader_active: false,
                next_id: 1,
                batches: 0,
                commits: 0,
            }),
    {
        let r = GroupCommit {
            queue: Vec::new(),
            answers: Vec::new(),
            leader_active: false,
            next_id: 1,
            batches: 0,
            commits: 0,
        };
        assert(r@.queue =~= Seq::<MemberV>::empty());
        assert(r@.answers =~= Seq::<(u64, Verdict)>::empty());
        r
    }

    /// Durable appends performed, and transactions committed.
    pub fn metrics(&self) -> (r: (u64, u64))
        ensures
            r == (self@.batches, self@.commits),
    {
        (self.batches, self.commits)
    }

    /// Put a transaction behind the queue. Its number comes back, and whether the
    /// caller has to lead.
    pub fn submit(&mut self, owner: u64, records: Vec<Vec<u8>>) -> (r: (u64, bool))
        requires
            old(self)@.next_id < u64::MAX,
        ensures
            r == (old(self)@.next_id, !old(self)@.leader_active),
            final(self)@ == (GroupV {
                queue: old(self)@.queue.push(
                    MemberV { id: r.0, owner, records: records_view(records@) },
                ),
                next_id: (r.0 + 1) as u64,
                leader_active: true,
                ..old(self)@
            }),
    {
        let id: u64 = self.next_id;
        let lead = !self.leader_active;
        let ghost before = self@.queue;
        let m = Member { id, owner, records };
        let ghost mv = m@;
        self.queue.push(m);
        self.next_id = id + 1;
        self.leader_active = true;
        assert(self@.queue =~= before.push(mv));
        (id, lead)
    }

    /// How long the next batch is.
    fn next_batch(&self) -> (n: usize)
        ensures
            n == batch_len(self@.queue, 0, 0),
            n <= self@.queue.len(),
    {
        let ghost q = self@.queue;
        proof {
            lemma_batch_len(q, 0, 0);
        }
        let mut n: usize = 0;
        let mut records: usize = 0;
        while n < self.queue.len()
            invariant
                n <= self.queue.len(),
                q == self@.queue,
                n <= batch_len(q, 0, 0) <= q.len(),
                n <= 1 || records <= MAX_BATCH_RECORDS,
                n == 0 ==> records == 0,
                batch_len(q, n as int, records as int) == batch_len(q, 0, 0),
            decreases self.queue.len() - n,
        {
            assert(q[n as int] == self.queue@[n as int]@);
            let len: usize = self.queue[n].records.len();
            if n > 0 && (records > MAX_BATCH_RECORDS || len > MAX_BATCH_RECORDS - records) {
                return n;
            }
            records = if n == 0 {
                len
            } else {
                records + len
            };
            n += 1;
            proof {
                lemma_batch_len_bounds(q, n as int, records as int);
            }
        }
        n
    }

    /// Take the next batch off the front of the queue.
    pub fn drain_batch(&mut self) -> (b: Vec<Member>)
        ensures
            members_view(b@) == old(self)@.queue.take(batch_len(old(self)@.queue, 0, 0)),
            final(self)@ == (GroupV {
                queue: old(self)@.queue.skip(batch_len(old(self)@.queue, 0, 0)),
                ..old(self)@
            }),
    {
        let n: usize = self.next_batch();
        let ghost q = self.queue@;
        let ghost qv = self@.queue;
        proof {
            lemma_batch_len(qv, 0, 0);
        }
        let mut b: Vec<Member> = Vec::new();
        std::mem::swap(&mut b, &mut self.queue);
        let rest = b.split_off(n);
        self.queue = rest;
        assert(members_view(b@) =~= qv.take(n as int));
        assert(self@.queue =~= qv.skip(n as int));
        b
    }

    /// Settle a batch by what its append came to: `Ok` with the last sequence number
    /// that it took, or the fault. What indexes have to follow comes back.
    pub fn flush_batch(
        &mut self,
        store: &mut Store,
        batch: &Vec<Member>,
        outcome: Result<u64, EngineError>,
    ) -> (trace: Vec<(String, Vec<u64>)>)
        requires
            store_ok(old(store)@),
            outcome is Ok ==> count(members_view(batch@), batch@.len() as int) <= outcome->Ok_0,
        ensures
            final(store)@ == settled(old(store)@, members_view(batch@), verdict(outcome)),
            store_ok(final(store)@),
            named_ids_view(trace@) == traces(
                old(store)@,
                members_view(batch@),
                verdict(outcome),
            ),
            final(self)@ == (GroupV {
                answers: old(self)@.answers + answered(members_view(batch@), verdict(outcome)),
                batches: old(self)@.batches.wrapping_add(1),
                commits: if outcome is Ok {
                    old(self)@.commits.wrapping_add(batch@.len() as u64)
                } else {
                    old(self)@.commits
                },
                ..old(self)@
            }),
    {
        let ghost b = members_view(batch@);
        let ghost out = verdict(outcome);
        let ghost a0 = self@.answers;
        self.batches = self.batches.wrapping_add(1);
        match outcome {
            Ok(last) => {
                self.commits = self.commits.wrapping_add(batch.len() as u64);
                let (mut answers, trace) = publish_batch(store, batch, last);
                let ghost av = answers_view(answers@);
                self.answers.append(&mut answers);
                assert(self@.answers =~= a0 + av);
                trace
            },
            Err(e) => {
                let (mut answers, trace) = drop_batch(store, batch, &e);
                let ghost av = answers_view(answers@);
                self.answers.append(&mut answers);
                assert(self@.answers =~= a0 + av);
                trace
            },
        }
    }

    /// Step down as leader where nothing waits; whether that was so.
    pub fn relinquish(&mut self) -> (r: bool)
        ensures
            r == (old(self)@.queue.len() == 0),
            final(self)@ == (GroupV {
                leader_active: if r {
                    false
                } else {
                    old(self)@.leader_active
                },
                ..old(self)@
            }),
    {
        if self.queue.len() == 0 {
            self.leader_active = false;
            return true;
        }
        false
    }

    /// Reclaim the answer to a member, once there is one.
    pub fn reclaim(&mut self, id: u64) -> (r: Option<Result<u64, EngineError>>)
        ensures
            match answer_pos(old(self)@.answers, id, 0) {
                None => r is None && final(self)@ == old(self)@,
                Some(p) => {
                    &&& r is Some
                    &&& verdict(r->0) == old(self)@.answers[p].1
                    &&& final(self)@ == (GroupV {
                        answers: old(self)@.answers.remove(p),
                        ..old(self)@
                    })
                },
            },
    {
        let ghost av = self@.answers;
        let mut i: usize = 0;
        while i < self.answers.len()
            invariant
                i <= self.answers.len(),
                av == self@.answers,
                self@ == old(self)@,
                answer_pos(av, id, i as int) == answer_pos(av, id, 0),
            decreases self.answers.len() - i,
        {
            assert(av[i as int].0 == self.answers@[i as int].0);
            if self.answers[i].0 == id {
                let a = self.answers.remove(i);
                assert(self@.answers =~= av.remove(i as int));
                return Some(a.1);
            }
            i += 1;
        }
        None
    }

    /// Whether no commit is in flight, so that a definition can run alone.
    pub fn quiescent(&self) -> (r: bool)
        ensures
            r == (!self@.leader_active && self@.queue.len() == 0),
    {
        !self.leader_active && self.queue.len() == 0
    }
}

proof fn lemma_batch_len_bounds(q: Seq<MemberV>, n: int, records: int)
    requires
        0 <= n <= q.len(),
    ensures
        n <= batch_len(q, n, records) <= q.len(),
    decreases q.len() - n,
{
    if n < q.len() && !(n > 0 && records + q[n].records.len() > MAX_BATCH_RECORDS) {
        lemma_batch_len_bounds(q, n + 1, records + q[n].records.len());
    }
}

/// The records of a batch, one behind the other.
pub fn gather(batch: &Vec<Member>) -> (r: Vec<Vec<u8>>)
    ensures
        records_view(r@) == gathered(members_view(batch@), batch@.len() as int),
{
    let ghost b = members_view(batch@);
    let mut out: Vec<Vec<u8>> = Vec::new();
    assert(records_view(out@) =~= Seq::<Seq<u8>>::empty());
    let mut i: usize = 0;
    while i < batch.len()
        invariant
            i <= batch.len(),
            b == members_view(batch@),
            records_view(out@) == gathered(b, i as int),
        decreases batch.len() - i,
    {
        assert(b[i as int] == batch@[i as int]@);
        let ghost before = records_view(out@);
        let ghost mine = b[i as int].records;
        let mut j: usize = 0;
        assert(before + mine.take(0) =~= before);
        while j < batch[i].records.len()
            invariant
                i < batch.len(),
                j <= batch@[i as int].records@.len(),
                mine == records_view(batch@[i as int].records@),
                records_view(out@) == before + mine.take(j as int),
            decreases batch@[i as int].records@.len() - j,
        {
            let ghost ov = records_view(out@);
            let rec = copy_bytes(&batch[i].records[j]);
            let ghost rv = rec@;
            out.push(rec);
            assert(records_view(out@) =~= ov.push(rv));
            assert(mine.take(j + 1) =~= mine.take(j as int).push(mine[j as int]));
            assert((before + mine.take(j as int)).push(rv) =~= before + mine.take(j + 1));
            j += 1;
        }
        assert(mine.take(j as int) =~= mine);
        i += 1;
    }
    out
}

fn copy_bytes(v: &Vec<u8>) -> (r: Vec<u8>)
    ensures
        r@ == v@,
{
    let mut out: Vec<u8> = Vec::new();
    let mut i: usize = 0;
    while i < v.len()
        invariant
            i <= v.len(),
            out@ == v@.take(i as int),
        decreases v.len() - i,
    {
        out.push(v[i]);
        assert(v@.take(i + 1) =~= v@.take(i as int).push(v@[i as int]));
        i += 1;
    }
    assert(v@.take(i as int) =~= v@);
    out
}

fn total_records(batch: &Vec<Member>, last: u64) -> (n: u64)
    requires
        count(members_view(batch@), batch@.len() as int) <= last,
    ensures
        n == count(members_view(batch@), batch@.len() as int),
{
    let ghost b = members_view(batch@);
    let mut n: u64 = 0;
    let mut i: usize = 0;
    while i < batch.len()
        invariant
            i <= batch.len(),
            b == members_view(batch@),
            n == count(b, i as int),
            count(b, b.len() as int) <= last,
        decreases batch.len() - i,
    {
        assert(b[i as int] == batch@[i as int]@);
        proof {
            lemma_count_grows(b, i + 1, b.len() as int);
        }
        n = n + batch[i].records.len() as u64;
        i += 1;
    }
    n
}

/// Publish every member of a durable batch at its mark.
fn publish_batch(store: &mut Store, batch: &Vec<Member>, last: u64) -> (r: (
    Vec<(u64, Result<u64, EngineError>)>,
    Vec<(String, Vec<u64>)>,
))
    requires
        store_ok(old(store)@),
        count(members_view(batch@), batch@.len() as int) <= last,
    ensures
        final(store)@ == settled(
            old(store)@,
            members_view(batch@),
            Ok::<u64, ErrorV>(last),
        ),
        store_ok(final(store)@),
        answers_view(r.0@) == answered(members_view(batch@), Ok::<u64, ErrorV>(last)),
        named_ids_view(r.1@) == ended_from(
            old(store)@,
            members_view(batch@),
            last,
            0,
            Seq::empty(),
        ),
{
    let ghost b = members_view(batch@);
    let ghost s0 = store@;
    let total: u64 = total_records(batch, last);
    let base: u64 = last - total;
    let mut acc: u64 = 0;
    let mut out: Vec<(u64, Result<u64, EngineError>)> = Vec::new();
    let mut trace: Vec<(String, Vec<u64>)> = Vec::new();
    assert(named_ids_view(trace@) =~= Seq::<(Seq<char>, Seq<u64>)>::empty());
    let ghost want = answered(b, Ok::<u64, ErrorV>(last));
    assert(answers_view(out@) =~= want.take(0));
    let mut i: usize = 0;
    while i < batch.len()
        invariant
            i <= batch.len(),
            b == members_view(batch@),
            store_ok(store@),
            acc == count(b, i as int),
            total == count(b, b.len() as int),
            base == last - total,
            want == answered(b, Ok::<u64, ErrorV>(last)),
            answers_view(out@) == want.take(i as int),
            settled_from(store@, b, last, i as int) == settled_from(s0, b, last, 0),
            ended_from(store@, b, last, i as int, named_ids_view(trace@)) == ended_from(
                s0,
                b,
                last,
                0,
                Seq::empty(),
            ),
        decreases batch.len() - i,
    {
        assert(b[i as int] == batch@[i as int]@);
        proof {
            lemma_count_grows(b, i + 1, b.len() as int);
        }
        acc = acc + batch[i].records.len() as u64;
        let commit_lsn: u64 = base + acc;
        assert(commit_lsn == mark_of(b, last, i as int));
        let mut ended = store.finalize_owner(batch[i].owner, commit_lsn);
        let ghost tv = named_ids_view(trace@);
        let ghost nv = named_ids_view(ended@);
        trace.append(&mut ended);
        assert(named_ids_view(trace@) =~= tv + nv);
        let ghost ov = answers_view(out@);
        out.push((batch[i].id, Ok(commit_lsn)));
        assert(answers_view(out@) =~= ov.push(want[i as int]));
        assert(want.take(i + 1) =~= ov.push(want[i as int]));
        i += 1;
    }
    assert(want.take(i as int) =~= want);
    if batch.len() > 0 {
        publish(store, last);
    }
    (out, trace)
}

/// Roll back every member of a batch that did not become durable.
fn drop_batch(store: &mut Store, batch: &Vec<Member>, e: &EngineError) -> (r: (
    Vec<(u64, Result<u64, EngineError>)>,
    Vec<(String, Vec<u64>)>,
))
    requires
        store_ok(old(store)@),
    ensures
        final(store)@ == dropped_from(old(store)@, members_view(batch@), 0),
        store_ok(final(store)@),
        answers_view(r.0@) == answered(members_view(batch@), Err::<u64, ErrorV>(e@)),
        named_ids_view(r.1@) == gone_from(old(store)@, members_view(batch@), 0, Seq::empty()),
{
    let ghost b = members_view(batch@);
    let ghost s0 = store@;
    let mut out: Vec<(u64, Result<u64, EngineError>)> = Vec::new();
    let mut trace: Vec<(String, Vec<u64>)> = Vec::new();
    assert(named_ids_view(trace@) =~= Seq::<(Seq<char>, Seq<u64>)>::empty());
    let ghost want = answered(b, Err::<u64, ErrorV>(e@));
    assert(answers_view(out@) =~= want.take(0));
    let mut i: usize = 0;
    while i < batch.len()
        invariant
            i <= batch.len(),
            b == members_view(batch@),
            store_ok(store@),
            want == answered(b, Err::<u64, ErrorV>(e@)),
            answers_view(out@) == want.take(i as int),
            dropped_from(store@, b, i as int) == dropped_from(s0, b, 0),
            gone_from(store@, b, i as int, named_ids_view(trace@)) == gone_from(
                s0,
                b,
                0,
                Seq::empty(),
            ),
        decreases batch.len() - i,
    {
        assert(b[i as int] == batch@[i as int]@);
        let mut gone = store.rollback_owner(batch[i].owner);
        let ghost tv = named_ids_view(trace@);
        let ghost nv = named_ids_view(gone@);
        trace.append(&mut gone);
        assert(named_ids_view(trace@) =~= tv + nv);
        let ghost ov = answers_view(out@);
        out.push((batch[i].id, Err(e.clone())));
        assert(answers_view(out@) =~= ov.push(want[i as int]));
        assert(want.take(i + 1) =~= ov.push(want[i as int]));
        i += 1;
    }
    assert(want.take(i as int) =~= want);
    (out, trace)
}

// ---- laws -----------------------------------------------------------------------------------------

/// A batch is never empty while something waits; it keeps to the cap unless a
/// single transaction is above it; and it is as long as the cap allows.
pub proof fn law_batch_is_bounded(q: Seq<MemberV>)
    ensures
        q.len() > 0 ==> 1 <= batch_len(q, 0, 0) <= q.len(),
        batch_len(q, 0, 0) <= 1 || count(q, batch_len(q, 0, 0)) <= MAX_BATCH_RECORDS,
        batch_len(q, 0, 0) < q.len() ==> count(q, batch_len(q, 0, 0) + 1) > MAX_BATCH_RECORDS,
{
    lemma_batch_len(q, 0, 0);
}

/// The marks of a batch leave no gap: each stands as far behind the one before it as
/// its transaction has records, and the last one is the last number of the append.
pub proof fn law_marks_have_no_gap(b: Seq<MemberV>, last: u64, i: int)
    requires
        0 <= i < b.len(),
    ensures
        i + 1 < b.len() ==> mark_of(b, last, i + 1) - mark_of(b, last, i) == b[i
            + 1].records.len(),
        mark_of(b, last, b.len() - 1) == last,
{
}

/// Commits are numbered in the order of their submission.
pub proof fn law_marks_rise(b: Seq<MemberV>, last: u64, i: int, j: int)
    requires
        0 <= i < j < b.len(),
        forall|k: int| 0 <= k < b.len() ==> (#[trigger] b[k]).records.len() > 0,
    ensures
        mark_of(b, last, i) < mark_of(b, last, j) <= last,
{
    lemma_count_grows(b, i + 1, j);
    lemma_count_grows(b, j + 1, b.len() as int);
    assert(b[j].records.len() > 0);
}

pub proof fn lemma_gathered_len(b: Seq<MemberV>, n: int)
    requires
        0 <= n <= b.len(),
    ensures
        gathered(b, n).len() == count(b, n),
    decreases n,
{
    if n > 0 {
        lemma_gathered_len(b, n - 1);
    }
}

pub proof fn lemma_gathered_prefix(b: Seq<MemberV>, n: int, m: int, k: int)
    requires
        0 <= n <= m <= b.len(),
        0 <= k < count(b, n),
    ensures
        k < gathered(b, n).len() <= gathered(b, m).len(),
        gathered(b, m)[k] == gathered(b, n)[k],
    decreases m,
{
    lemma_gathered_len(b, n);
    lemma_gathered_len(b, m);
    lemma_count_grows(b, n, m);
    if n < m {
        lemma_gathered_prefix(b, n, m - 1, k);
    }
}

/// A member is published at the number under which the append stored its last
/// record, which is its commit mark: an append that takes the numbers up to `last`
/// gives the record at place `k` the number `last - total + 1 + k`.
pub proof fn law_published_at_own_mark(b: Seq<MemberV>, last: u64, i: int)
    requires
        0 <= i < b.len(),
        b[i].records.len() > 0,
    ensures
        ({
            let all = gathered(b, b.len() as int);
            let k = mark_of(b, last, i) - (last - all.len() + 1);
            0 <= k < all.len() && all[k] == b[i].records.last()
        }),
{
    let n = b.len() as int;
    lemma_gathered_len(b, n);
    lemma_gathered_len(b, i);
    lemma_count_grows(b, i, n);
    lemma_count_grows(b, i + 1, n);
    let k = count(b, i + 1) - 1;
    lemma_gathered_prefix(b, i + 1, n, k);
    assert(gathered(b, i + 1)[k] == b[i].records.last());
}

/// One commit in a batch of its own is published at the number of the append.
pub proof fn law_lone_commit(s: StoreV, m: MemberV, last: u64)
    ensures
        settled(s, seq![m], Ok::<u64, ErrorV>(last)) == published(
            committed(s, m.owner, last),
            last,
        ),
        answered(seq![m], Ok::<u64, ErrorV>(last)) == seq![(m.id, Ok::<u64, ErrorV>(last))],
{
    let b = seq![m];
    reveal_with_fuel(settled_from, 3);
    assert(mark_of(b, last, 0) == last);
    assert(answered(b, Ok::<u64, ErrorV>(last)) =~= seq![(m.id, Ok::<u64, ErrorV>(last))]);
}

} // verus!
