//! What a commit publishes is found again, whoever else is at work.
//!
//! Transactions that wrote and are not settled yet are in flight, in the order in
//! which they got the write lane. Some of them will be published, others given up;
//! whichever, what they logged tells what becomes of the store.
use vstd::prelude::*;
use crate::asks::StopV;
use crate::catalog::PolicyCommand;
use crate::conn::dml;
use crate::constraintlaws::{
    is_sound, law_updated_rows_are_valid, lemma_victims, may_go, sound_change, sound_victim,
};
use crate::constraints::{contested, key_at, rules_of};
use crate::ddl::published;
use crate::env::EnvV;
use crate::error::ErrorV;
use crate::group_commit::{
    count, dropped_from, gathered, lemma_count_grows, lemma_gathered_len, lemma_gathered_prefix,
    mark_of, settled, settled_from, MemberV,
};
use crate::idlaws::ids_ok;
use crate::inserts::{
    all_put, clash_rules, clashed, freed, held, holder_of, insert_draft, live_from, put_row,
    put_rows_from, staged_of, terms_of, ProgressV, TermsV,
};
use crate::mvcc::{
    committed, discards, finalized, finalized_rows, finalized_table, revived, rolled_back, undone,
    undone_from,
};
use crate::policy::guard_of;
use crate::primarylaws::{lemma_vids_appended, lemma_vids_stamped};
use crate::recovery::{
    applied, closed, holds, law_durable_is_recovered, left, loggable, records, replayed_ops,
    LogEntryV,
};
use crate::sparelaws::lemma_noted_seen;
use crate::sql::StmtV;
use crate::store::{
    lemma_name_pos, table_names, table_pos, version_pos, with_table, writer_sees, PENDING, StoreV,
    TableV, VersionV,
};
use crate::telling::{
    alike, draft_told, lemma_pos_finalized, lemma_told_appended, lemma_told_superseded, plain,
    scene_ok, told, SceneV,
};
use crate::updates::{
    changes_of, changes_put_from, delete_draft, deletes_from, deletes_put_from, sources_of,
    update_draft,
};
use crate::value::RowV;
use crate::wal::WalOpV;
use crate::writelaws::{lemma_freed_noted, lemma_holder, lemma_version_pos, vids_ok};
use crate::writes::{
    appended, fresh_draft, pending_version, slots_of, stamped, superseded, DraftV, WriteV,
};

verus! {

/// Transactions in flight: who writes, and what they logged.
pub type FlightV = Seq<(u64, Seq<WalOpV>)>;

// ---- what may become of a flight ------------------------------------------------------------------

/// A store once a transaction is published at its mark, or given up.
pub open spec fn fulfilled(s: StoreV, owner: u64, fate: Option<u64>) -> StoreV {
    match fate {
        Some(mark) => published(committed(s, owner, mark), mark),
        None => rolled_back(s, owner, Seq::empty()),
    }
}

/// A store once the fates of the transactions from `i` on took effect.
pub open spec fn fulfilled_from(s: StoreV, flight: FlightV, fates: Seq<Option<u64>>, i: int) -> StoreV
    decreases flight.len() - i,
{
    if i < 0 || i >= flight.len() {
        s
    } else {
        fulfilled_from(fulfilled(s, flight[i].0, fates[i]), flight, fates, i + 1)
    }
}

/// What the log gives of a transaction.
pub open spec fn retold(s: StoreV, ops: Seq<WalOpV>, fate: Option<u64>, env: EnvV) -> Result<
    StoreV,
    StopV,
> {
    match fate {
        Some(mark) => match replayed_ops(s, ops, 0, mark, env) {
            Err(e) => Err(e),
            Ok(r) => Ok(published(r, mark)),
        },
        None => Ok(s),
    }
}

/// What the log gives of the transactions from `i` on.
pub open spec fn retold_from(s: StoreV, flight: FlightV, fates: Seq<Option<u64>>, i: int, env: EnvV) -> Result<
    StoreV,
    StopV,
>
    decreases flight.len() - i,
{
    if i < 0 || i >= flight.len() {
        Ok(s)
    } else {
        match retold(s, flight[i].1, fates[i], env) {
            Err(e) => Err(e),
            Ok(t) => retold_from(t, flight, fates, i + 1, env),
        }
    }
}

/// One fate for each, and no mark is the one that stands for pending.
pub open spec fn fates_fit(flight: FlightV, fates: Seq<Option<u64>>) -> bool {
    &&& fates.len() == flight.len()
    &&& forall|i: int| 0 <= i < fates.len() ==> #[trigger] fates[i] != Some(PENDING)
}

/// With these fates, what the log gives on top of `base` is what becomes of the store.
pub open spec fn foretold(base: StoreV, flight: FlightV, fates: Seq<Option<u64>>, now: StoreV, env: EnvV) -> bool {
    match retold_from(base, flight, fates, 0, env) {
        Ok(r) => alike(r, fulfilled_from(now, flight, fates, 0)),
        Err(_) => false,
    }
}

/// Whatever becomes of the transactions in flight, each published at any mark or given
/// up, their operations tell it: replayed in their order on what was committed before
/// they give what becomes of the store.
pub open spec fn told_all(base: StoreV, flight: FlightV, now: StoreV, env: EnvV) -> bool {
    forall|fates: Seq<Option<u64>>|
        fates_fit(flight, fates) ==> #[trigger] foretold(base, flight, fates, now, env)
}

/// A version has an owner just as long as something of it is pending, and is not deleted
/// for others before it is created for them.
pub open spec fn orderly(v: VersionV) -> bool {
    &&& v.owner == 0 <==> v.create_lsn != PENDING && v.delete_lsn != PENDING
    &&& v.create_lsn == PENDING ==> v.delete_lsn == 0 || v.delete_lsn == PENDING
}

pub open spec fn flies(flight: FlightV, owner: u64) -> bool {
    exists|i: int| 0 <= i < flight.len() && (#[trigger] flight[i]).0 == owner
}

/// Each transaction has an owner of its own.
pub open spec fn owners_differ(flight: FlightV) -> bool {
    &&& forall|i: int| 0 <= i < flight.len() ==> (#[trigger] flight[i]).0 != 0
    &&& forall|i: int, j: int|
        #![trigger flight[i], flight[j]]
        0 <= i < flight.len() && 0 <= j < flight.len() && flight[i].0 == flight[j].0 ==> i == j
}

/// Versions that are committed, or pending for one in flight.
pub open spec fn rows_tended(rows: Seq<VersionV>, flight: FlightV) -> bool {
    forall|k: int|
        0 <= k < rows.len() ==> orderly(#[trigger] rows[k]) && (rows[k].owner == 0 || flies(
            flight,
            rows[k].owner,
        ))
}

/// Nobody but those in flight has anything pending.
pub open spec fn tended(s: StoreV, flight: FlightV) -> bool {
    &&& owners_differ(flight)
    &&& forall|i: int| 0 <= i < s.tables.len() ==> rows_tended((#[trigger] s.tables[i]).rows, flight)
}

// ---- rows -----------------------------------------------------------------------------------------

/// Rows once what one has pending is given up.
pub open spec fn given_up(rows: Seq<VersionV>, o: u64) -> Seq<VersionV> {
    undone(rows, o, Seq::empty(), Seq::empty())
}

pub open spec fn rows_fulfilled(rows: Seq<VersionV>, o: u64, fate: Option<u64>) -> Seq<VersionV> {
    match fate {
        Some(mark) => finalized_rows(rows, o, mark),
        None => given_up(rows, o),
    }
}

pub open spec fn rows_from(rows: Seq<VersionV>, flight: FlightV, fates: Seq<Option<u64>>, i: int) -> Seq<VersionV>
    decreases flight.len() - i,
{
    if i < 0 || i >= flight.len() {
        rows
    } else {
        rows_from(rows_fulfilled(rows, flight[i].0, fates[i]), flight, fates, i + 1)
    }
}

proof fn lemma_undone_snoc(rows: Seq<VersionV>, x: VersionV, o: u64, i: int, acc: Seq<VersionV>)
    requires
        0 <= i <= rows.len(),
    ensures
        ({
            let e = Seq::<u64>::empty();
            let u = undone_from(rows, o, e, e, i, acc);
            undone_from(rows.push(x), o, e, e, i, acc) == (if discards(x, o, e) {
                u
            } else {
                u.push(revived(x, o, e))
            })
        }),
    decreases rows.len() - i,
{
    let e = Seq::<u64>::empty();
    let all = rows.push(x);
    if i < rows.len() {
        assert(all[i] == rows[i]);
        if discards(rows[i], o, e) {
            lemma_undone_snoc(rows, x, o, i + 1, acc);
        } else {
            lemma_undone_snoc(rows, x, o, i + 1, acc.push(revived(rows[i], o, e)));
        }
    } else {
        assert(all[i] == x);
        let u = if discards(x, o, e) {
            acc
        } else {
            acc.push(revived(x, o, e))
        };
        assert(undone_from(all, o, e, e, i + 1, u) == u);
    }
}

/// A version that is given up, or what is left of it.
pub open spec fn left_of(v: VersionV, o: u64) -> Option<VersionV> {
    if discards(v, o, Seq::empty()) {
        None
    } else {
        Some(revived(v, o, Seq::empty()))
    }
}

pub open spec fn joined(rows: Seq<VersionV>, v: Option<VersionV>) -> Seq<VersionV> {
    match v {
        Some(x) => rows.push(x),
        None => rows,
    }
}

pub proof fn lemma_given_up_snoc(rows: Seq<VersionV>, x: VersionV, o: u64)
    ensures
        given_up(rows.push(x), o) == joined(given_up(rows, o), left_of(x, o)),
{
    lemma_undone_snoc(rows, x, o, 0, Seq::empty());
}

pub proof fn lemma_split_last(rows: Seq<VersionV>)
    requires
        rows.len() > 0,
    ensures
        rows == rows.drop_last().push(rows.last()),
{
    assert(rows =~= rows.drop_last().push(rows.last()));
}

/// Rows with a version stamped as deleted.
spec fn stamp(rows: Seq<VersionV>, vid: u64, me: u64) -> Seq<VersionV> {
    match version_pos(rows, vid, 0) {
        Some(i) => rows.update(i, stamped(rows[i], me)),
        None => rows,
    }
}

/// A version that nobody else has pending, and that is not deleted.
pub open spec fn ours(v: VersionV, me: u64) -> bool {
    v.owner == me || (v.owner == 0 && v.delete_lsn == 0)
}

spec fn ours_at(rows: Seq<VersionV>, vid: u64, me: u64) -> bool {
    version_pos(rows, vid, 0) matches Some(i) ==> ours(rows[i], me) && orderly(rows[i])
}

proof fn lemma_pos_snoc(rows: Seq<VersionV>, x: VersionV, vid: u64, i: int)
    requires
        0 <= i <= rows.len(),
    ensures
        version_pos(rows.push(x), vid, i) == (match version_pos(rows, vid, i) {
            Some(k) => Some(k),
            None => if x.vid == vid {
                Some(rows.len() as int)
            } else {
                None
            },
        }),
    decreases rows.len() - i,
{
    let all = rows.push(x);
    if i < rows.len() {
        assert(all[i] == rows[i]);
        lemma_pos_snoc(rows, x, vid, i + 1);
    } else {
        assert(all[i] == x);
        assert(version_pos(all, vid, i + 1) is None);
    }
}

proof fn lemma_stamp_snoc(rows: Seq<VersionV>, x: VersionV, vid: u64, me: u64)
    ensures
        stamp(rows.push(x), vid, me) == (if version_pos(rows, vid, 0) is Some {
            stamp(rows, vid, me).push(x)
        } else if x.vid == vid {
            rows.push(stamped(x, me))
        } else {
            rows.push(x)
        }),
{
    lemma_pos_snoc(rows, x, vid, 0);
    lemma_version_pos(rows, vid, 0);
    match version_pos(rows, vid, 0) {
        Some(i) => {
            assert(stamp(rows.push(x), vid, me) =~= stamp(rows, vid, me).push(x));
        },
        None => {
            if x.vid == vid {
                assert(stamp(rows.push(x), vid, me) =~= rows.push(stamped(x, me)));
            }
        },
    }
}

/// What another gives up leaves a version alone that is ours, and the stamp on it.
proof fn lemma_give_up_stamp(rows: Seq<VersionV>, vid: u64, me: u64, o: u64)
    requires
        o != me,
        o != 0,
        ours_at(rows, vid, me),
    ensures
        given_up(stamp(rows, vid, me), o) == stamp(given_up(rows, o), vid, me),
        match version_pos(rows, vid, 0) {
            Some(i) => version_pos(given_up(rows, o), vid, 0) matches Some(j) && given_up(
                rows,
                o,
            )[j] == rows[i],
            None => version_pos(given_up(rows, o), vid, 0) is None,
        },
    decreases rows.len(),
{
    if rows.len() == 0 {
        assert(given_up(rows, o) =~= rows);
    } else {
        let head = rows.drop_last();
        let x = rows.last();
        lemma_split_last(rows);
        lemma_pos_snoc(head, x, vid, 0);
        lemma_version_pos(head, vid, 0);
        lemma_give_up_stamp(head, vid, me, o);
        lemma_given_up_snoc(head, x, o);
        lemma_stamp_snoc(head, x, vid, me);
        let less = given_up(head, o);
        lemma_version_pos(less, vid, 0);
        match left_of(x, o) {
            Some(y) => {
                lemma_pos_snoc(less, y, vid, 0);
                lemma_stamp_snoc(less, y, vid, me);
            },
            None => {},
        }
        if version_pos(head, vid, 0) is Some {
            lemma_given_up_snoc(stamp(head, vid, me), x, o);
        } else if x.vid == vid {
            lemma_given_up_snoc(head, stamped(x, me), o);
        }
    }
}

/// What another publishes leaves a version alone that is ours, and the stamp on it.
proof fn lemma_finalize_stamp(rows: Seq<VersionV>, vid: u64, me: u64, o: u64, mark: u64)
    requires
        o != me,
        o != 0,
        ours_at(rows, vid, me),
    ensures
        finalized_rows(stamp(rows, vid, me), o, mark) == stamp(
            finalized_rows(rows, o, mark),
            vid,
            me,
        ),
        version_pos(finalized_rows(rows, o, mark), vid, 0) == version_pos(rows, vid, 0),
        version_pos(rows, vid, 0) matches Some(i) ==> finalized_rows(rows, o, mark)[i] == rows[i],
{
    lemma_pos_finalized(rows, vid, 0, o, mark);
    assert(finalized_rows(stamp(rows, vid, me), o, mark) =~= stamp(
        finalized_rows(rows, o, mark),
        vid,
        me,
    ));
}

proof fn lemma_rows_stamp(
    rows: Seq<VersionV>,
    flight: FlightV,
    fates: Seq<Option<u64>>,
    i: int,
    vid: u64,
    me: u64,
)
    requires
        0 <= i,
        owners_differ(flight),
        !flies(flight, me),
        ours_at(rows, vid, me),
    ensures
        rows_from(stamp(rows, vid, me), flight, fates, i) == stamp(
            rows_from(rows, flight, fates, i),
            vid,
            me,
        ),
        ours_at(rows_from(rows, flight, fates, i), vid, me),
    decreases flight.len() - i,
{
    if i < flight.len() {
        let o = flight[i].0;
        match fates[i] {
            Some(mark) => {
                lemma_finalize_stamp(rows, vid, me, o, mark);
            },
            None => {
                lemma_give_up_stamp(rows, vid, me, o);
            },
        }
        lemma_rows_stamp(rows_fulfilled(rows, o, fates[i]), flight, fates, i + 1, vid, me);
    }
}

proof fn lemma_rows_push(
    rows: Seq<VersionV>,
    flight: FlightV,
    fates: Seq<Option<u64>>,
    i: int,
    x: VersionV,
)
    requires
        0 <= i,
        !flies(flight, x.owner),
    ensures
        rows_from(rows.push(x), flight, fates, i) == rows_from(rows, flight, fates, i).push(x),
    decreases flight.len() - i,
{
    if i < flight.len() {
        let o = flight[i].0;
        assert(o != x.owner);
        match fates[i] {
            Some(mark) => {
                assert(finalized_rows(rows.push(x), o, mark) =~= finalized_rows(rows, o, mark).push(
                    x,
                ));
            },
            None => {
                lemma_given_up_snoc(rows, x, o);
            },
        }
        lemma_rows_push(rows_fulfilled(rows, o, fates[i]), flight, fates, i + 1, x);
    }
}

/// To give up what one has pending undoes a stamp of theirs.
proof fn lemma_give_up_own_stamp(rows: Seq<VersionV>, vid: u64, me: u64)
    requires
        me != 0,
        ours_at(rows, vid, me),
    ensures
        given_up(stamp(rows, vid, me), me) == given_up(rows, me),
    decreases rows.len(),
{
    if rows.len() > 0 {
        let head = rows.drop_last();
        let x = rows.last();
        lemma_split_last(rows);
        lemma_pos_snoc(head, x, vid, 0);
        lemma_version_pos(head, vid, 0);
        lemma_given_up_snoc(head, x, me);
        lemma_stamp_snoc(head, x, vid, me);
        if version_pos(head, vid, 0) is Some {
            lemma_give_up_own_stamp(head, vid, me);
            lemma_given_up_snoc(stamp(head, vid, me), x, me);
        } else if x.vid == vid {
            lemma_given_up_snoc(head, stamped(x, me), me);
            assert(left_of(stamped(x, me), me) == left_of(x, me));
        }
    }
}

// ---- stores ---------------------------------------------------------------------------------------

pub open spec fn table_from(t: TableV, flight: FlightV, fates: Seq<Option<u64>>, i: int) -> TableV {
    TableV { rows: rows_from(t.rows, flight, fates, i), ..t }
}

pub open spec fn lsn_from(lsn: u64, fates: Seq<Option<u64>>, n: int, i: int) -> u64
    decreases n - i,
{
    if i < 0 || i >= n {
        lsn
    } else {
        match fates[i] {
            Some(mark) => lsn_from(
                if mark > lsn {
                    mark
                } else {
                    lsn
                },
                fates,
                n,
                i + 1,
            ),
            None => lsn_from(lsn, fates, n, i + 1),
        }
    }
}

/// What fates do to a store they do to the rows of each table.
pub proof fn lemma_fulfilled(s: StoreV, flight: FlightV, fates: Seq<Option<u64>>, i: int)
    requires
        0 <= i,
    ensures
        fulfilled_from(s, flight, fates, i) == (StoreV {
            tables: Seq::new(s.tables.len(), |k: int| table_from(s.tables[k], flight, fates, i)),
            committed_lsn: lsn_from(s.committed_lsn, fates, flight.len() as int, i),
            ..s
        }),
    decreases flight.len() - i,
{
    let all = Seq::new(s.tables.len(), |k: int| table_from(s.tables[k], flight, fates, i));
    if i < flight.len() {
        let t = fulfilled(s, flight[i].0, fates[i]);
        lemma_fulfilled(t, flight, fates, i + 1);
        assert forall|k: int| 0 <= k < s.tables.len() implies table_from(
            #[trigger] t.tables[k],
            flight,
            fates,
            i + 1,
        ) == all[k] by {
            assert(t.tables[k].rows == rows_fulfilled(s.tables[k].rows, flight[i].0, fates[i]));
        }
        assert(fulfilled_from(s, flight, fates, i).tables =~= all);
    } else {
        assert(s.tables =~= all);
    }
}

/// The fates of a flight, and then those of another behind it.
proof fn lemma_fulfilled_both(
    s: StoreV,
    a: FlightV,
    b: FlightV,
    fa: Seq<Option<u64>>,
    fb: Seq<Option<u64>>,
    i: int,
)
    requires
        0 <= i <= a.len(),
        fa.len() == a.len(),
        fb.len() == b.len(),
    ensures
        fulfilled_from(s, a + b, fa + fb, i) == fulfilled_from(
            fulfilled_from(s, a, fa, i),
            b,
            fb,
            0,
        ),
    decreases a.len() - i,
{
    if i < a.len() {
        assert((a + b)[i] == a[i] && (fa + fb)[i] == fa[i]);
        lemma_fulfilled_both(fulfilled(s, a[i].0, fa[i]), a, b, fa, fb, i + 1);
    } else {
        lemma_fulfilled_behind(s, a, b, fa, fb, 0);
    }
}

proof fn lemma_fulfilled_behind(
    s: StoreV,
    a: FlightV,
    b: FlightV,
    fa: Seq<Option<u64>>,
    fb: Seq<Option<u64>>,
    i: int,
)
    requires
        0 <= i <= b.len(),
        fa.len() == a.len(),
        fb.len() == b.len(),
    ensures
        fulfilled_from(s, a + b, fa + fb, a.len() + i) == fulfilled_from(s, b, fb, i),
    decreases b.len() - i,
{
    if i < b.len() {
        assert((a + b)[a.len() + i] == b[i] && (fa + fb)[a.len() + i] == fb[i]);
        lemma_fulfilled_behind(fulfilled(s, b[i].0, fb[i]), a, b, fa, fb, i + 1);
    }
}

proof fn lemma_retold_both(
    s: StoreV,
    a: FlightV,
    b: FlightV,
    fa: Seq<Option<u64>>,
    fb: Seq<Option<u64>>,
    i: int,
    env: EnvV,
)
    requires
        0 <= i <= a.len(),
        fa.len() == a.len(),
        fb.len() == b.len(),
    ensures
        retold_from(s, a + b, fa + fb, i, env) == (match retold_from(s, a, fa, i, env) {
            Err(e) => Err::<StoreV, StopV>(e),
            Ok(t) => retold_from(t, b, fb, 0, env),
        }),
    decreases a.len() - i,
{
    if i < a.len() {
        assert((a + b)[i] == a[i] && (fa + fb)[i] == fa[i]);
        match retold(s, a[i].1, fa[i], env) {
            Err(_) => {},
            Ok(t) => {
                lemma_retold_both(t, a, b, fa, fb, i + 1, env);
            },
        }
    } else {
        lemma_retold_behind(s, a, b, fa, fb, 0, env);
    }
}

proof fn lemma_retold_behind(
    s: StoreV,
    a: FlightV,
    b: FlightV,
    fa: Seq<Option<u64>>,
    fb: Seq<Option<u64>>,
    i: int,
    env: EnvV,
)
    requires
        0 <= i <= b.len(),
        fa.len() == a.len(),
        fb.len() == b.len(),
    ensures
        retold_from(s, a + b, fa + fb, a.len() + i, env) == retold_from(s, b, fb, i, env),
    decreases b.len() - i,
{
    if i < b.len() {
        assert((a + b)[a.len() + i] == b[i] && (fa + fb)[a.len() + i] == fb[i]);
        match retold(s, b[i].1, fb[i], env) {
            Err(_) => {},
            Ok(t) => {
                lemma_retold_behind(t, a, b, fa, fb, i + 1, env);
            },
        }
    }
}

/// A flight with one more behind it.
proof fn lemma_last_fate(
    base: StoreV,
    now: StoreV,
    flight: FlightV,
    fates: Seq<Option<u64>>,
    me: u64,
    wal: Seq<WalOpV>,
    fate: Option<u64>,
    env: EnvV,
)
    requires
        fates.len() == flight.len(),
    ensures
        fulfilled_from(now, flight.push((me, wal)), fates.push(fate), 0) == fulfilled(
            fulfilled_from(now, flight, fates, 0),
            me,
            fate,
        ),
        retold_from(base, flight.push((me, wal)), fates.push(fate), 0, env) == (match retold_from(
            base,
            flight,
            fates,
            0,
            env,
        ) {
            Err(e) => Err::<StoreV, StopV>(e),
            Ok(t) => retold(t, wal, fate, env),
        }),
{
    let b = seq![(me, wal)];
    let fb = seq![fate];
    assert(flight.push((me, wal)) =~= flight + b);
    assert(fates.push(fate) =~= fates + fb);
    lemma_fulfilled_both(now, flight, b, fates, fb, 0);
    lemma_retold_both(base, flight, b, fates, fb, 0, env);
    reveal_with_fuel(fulfilled_from, 2);
    reveal_with_fuel(retold_from, 2);
}

// ---- who is left ----------------------------------------------------------------------------------

/// Versions that are committed, mine, or pending for one in flight from `i` on.
spec fn tended_from(rows: Seq<VersionV>, flight: FlightV, i: int, me: u64) -> bool {
    forall|k: int|
        0 <= k < rows.len() ==> orderly(#[trigger] rows[k]) && (rows[k].owner == 0 || rows[k].owner
            == me || flies_from(flight, i, rows[k].owner))
}

spec fn flies_from(flight: FlightV, i: int, owner: u64) -> bool {
    exists|j: int| i <= j < flight.len() && (#[trigger] flight[j]).0 == owner
}

/// What is left was there, as it is or revived.
proof fn lemma_left_was_there(rows: Seq<VersionV>, o: u64, k: int)
    requires
        0 <= k < given_up(rows, o).len(),
    ensures
        exists|j: int|
            0 <= j < rows.len() && left_of(#[trigger] rows[j], o) == Some(given_up(rows, o)[k]),
    decreases rows.len(),
{
    if rows.len() > 0 {
        let head = rows.drop_last();
        lemma_split_last(rows);
        lemma_given_up_snoc(head, rows.last(), o);
        if k < given_up(head, o).len() {
            lemma_left_was_there(head, o, k);
            let j = choose|j: int|
                0 <= j < head.len() && left_of(#[trigger] head[j], o) == Some(given_up(head, o)[k]);
            assert(rows[j] == head[j]);
        } else {
            assert(rows[rows.len() - 1] == rows.last());
        }
    }
}

proof fn lemma_tended_step(
    rows: Seq<VersionV>,
    flight: FlightV,
    fate: Option<u64>,
    i: int,
    me: u64,
)
    requires
        0 <= i < flight.len(),
        owners_differ(flight),
        tended_from(rows, flight, i, me),
        fate != Some(PENDING),
    ensures
        tended_from(rows_fulfilled(rows, flight[i].0, fate), flight, i + 1, me),
{
    let o = flight[i].0;
    let now = rows_fulfilled(rows, o, fate);
    assert forall|k: int| 0 <= k < now.len() implies orderly(#[trigger] now[k]) && (now[k].owner
        == 0 || now[k].owner == me || flies_from(flight, i + 1, now[k].owner)) by {
        let j = match fate {
            Some(_) => k,
            None => {
                lemma_left_was_there(rows, o, k);
                choose|j: int| 0 <= j < rows.len() && left_of(#[trigger] rows[j], o) == Some(now[k])
            },
        };
        assert(orderly(rows[j]));
        if rows[j].owner != o && rows[j].owner != 0 && rows[j].owner != me {
            let m = choose|m: int| i <= m < flight.len() && (#[trigger] flight[m]).0 == rows[j].owner;
            assert(m != i);
            assert(now[k].owner == rows[j].owner);
            assert(flight[m].0 == now[k].owner);
        }
    }
}

proof fn lemma_tended_all(
    rows: Seq<VersionV>,
    flight: FlightV,
    fates: Seq<Option<u64>>,
    i: int,
    me: u64,
)
    requires
        0 <= i <= flight.len(),
        owners_differ(flight),
        fates_fit(flight, fates),
        tended_from(rows, flight, i, me),
    ensures
        tended_from(rows_from(rows, flight, fates, i), flight, flight.len() as int, me),
    decreases flight.len() - i,
{
    if i < flight.len() {
        lemma_tended_step(rows, flight, fates[i], i, me);
        lemma_tended_all(
            rows_fulfilled(rows, flight[i].0, fates[i]),
            flight,
            fates,
            i + 1,
            me,
        );
    }
}

// ---- a statement among others ---------------------------------------------------------------------

/// What becomes of the others, and of the writer.
struct PlanV {
    others: FlightV,
    fates: Seq<Option<u64>>,
    fate: Option<u64>,
    /// The rows of the table before the statement.
    start: Seq<VersionV>,
    /// What the others' fates leave of them.
    from: Seq<VersionV>,
}

/// Rows that were stamped where they were ours, with pending ones of ours behind them.
pub open spec fn only_ours(start: Seq<VersionV>, now: Seq<VersionV>, me: u64) -> bool {
    &&& start.len() <= now.len()
    &&& forall|k: int|
        0 <= k < start.len() ==> #[trigger] now[k] == start[k] || (ours(start[k], me) && now[k]
            == stamped(start[k], me))
    &&& forall|k: int|
        start.len() <= k < now.len() ==> (#[trigger] now[k]).owner == me && now[k].create_lsn
            == PENDING
}

spec fn mapped(f: PlanV, d: DraftV) -> DraftV {
    DraftV { table: table_from(d.table, f.others, f.fates, 0), ..d }
}

spec fn plan_ok(x: SceneV, f: PlanV) -> bool {
    &&& scene_ok(x)
    &&& owners_differ(f.others)
    &&& !flies(f.others, x.me)
    &&& fates_fit(f.others, f.fates)
}

/// What a draft did so far is told.
spec fn carried(x: SceneV, f: PlanV, d: DraftV) -> bool {
    &&& vids_ok(d.table)
    &&& only_ours(f.start, d.table.rows, x.me)
    &&& tended_from(d.table.rows, f.others, 0, x.me)
    &&& d.table.schema == x.s.tables[table_pos(x.s, x.name)->0].schema
    &&& match f.fate {
        Some(mark) => mark == x.lsn && draft_told(x, mapped(f, d)),
        None => given_up(mapped(f, d).table.rows, x.me) == given_up(f.from, x.me),
    }
}

proof fn lemma_carried_appended(x: SceneV, f: PlanV, d: DraftV, row: RowV)
    requires
        plan_ok(x, f),
        carried(x, f, d),
        appended(d, x.name, row, x.me) is Ok,
    ensures
        carried(x, f, appended(d, x.name, row, x.me)->Ok_0),
{
    let e = appended(d, x.name, row, x.me)->Ok_0;
    let new = pending_version(d.table.next_vid, row, x.me);
    let m = mapped(f, d);
    lemma_vids_appended(d, x.name, row, x.me);
    lemma_rows_push(d.table.rows, f.others, f.fates, 0, new);
    assert(appended(m, x.name, row, x.me) == Ok::<DraftV, StopV>(mapped(f, e)));
    match f.fate {
        Some(_) => {
            lemma_told_appended(x, m, row);
        },
        None => {
            lemma_given_up_snoc(m.table.rows, new, x.me);
        },
    }
    let rows = d.table.rows;
    let now = e.table.rows;
    assert forall|k: int| 0 <= k < now.len() implies orderly(#[trigger] now[k]) && (now[k].owner
        == 0 || now[k].owner == x.me || flies_from(f.others, 0, now[k].owner)) by {
        if k < rows.len() {
            assert(now[k] == rows[k]);
        }
    }
}

proof fn lemma_carried_superseded(x: SceneV, f: PlanV, d: DraftV, vid: u64)
    requires
        plan_ok(x, f),
        carried(x, f, d),
        ours_all(d.table.rows, vid, x.me),
    ensures
        carried(x, f, superseded(d, x.name, vid, x.me)),
{
    let e = superseded(d, x.name, vid, x.me);
    let m = mapped(f, d);
    let rows = d.table.rows;
    let now = e.table.rows;
    lemma_vids_stamped(d, x.name, vid, x.me);
    lemma_version_pos(rows, vid, 0);
    assert(ours_at(rows, vid, x.me));
    lemma_rows_stamp(rows, f.others, f.fates, 0, vid, x.me);
    assert(now == stamp(rows, vid, x.me));
    assert(superseded(m, x.name, vid, x.me) == mapped(f, e));
    match f.fate {
        Some(_) => {
            lemma_told_superseded(x, m, vid);
        },
        None => {
            lemma_give_up_own_stamp(m.table.rows, vid, x.me);
        },
    }
    assert forall|k: int| 0 <= k < now.len() implies orderly(#[trigger] now[k]) && (now[k].owner
        == 0 || now[k].owner == x.me || flies_from(f.others, 0, now[k].owner)) by {
        if now[k] != rows[k] {
            assert(now[k] == stamped(rows[k], x.me));
        } else {
            assert(orderly(rows[k]));
        }
    }
}

/// Every version of that number is ours.
spec fn ours_all(rows: Seq<VersionV>, vid: u64, me: u64) -> bool {
    forall|j: int| 0 <= j < rows.len() && (#[trigger] rows[j]).vid == vid ==> ours(rows[j], me)
}

/// Versions are added and stamped by the writer alone, so what was ours stays ours.
proof fn lemma_ours_stays(d: DraftV, name: Seq<char>, vid: u64, me: u64, u: u64)
    requires
        ours_all(d.table.rows, u, me),
    ensures
        ours_all(superseded(d, name, vid, me).table.rows, u, me),
        forall|row: RowV| #[trigger]
            appended(d, name, row, me) is Ok ==> ours_all(
                appended(d, name, row, me)->Ok_0.table.rows,
                u,
                me,
            ),
{
    let rows = d.table.rows;
    let now = superseded(d, name, vid, me).table.rows;
    lemma_version_pos(rows, vid, 0);
    assert forall|j: int| 0 <= j < now.len() && (#[trigger] now[j]).vid == u implies ours(
        now[j],
        me,
    ) by {
        if now[j] != rows[j] {
            assert(now[j] == stamped(rows[j], me));
        } else {
            assert(rows[j].vid == u);
        }
    }
    assert forall|row: RowV| #[trigger] appended(d, name, row, me) is Ok implies ours_all(
        appended(d, name, row, me)->Ok_0.table.rows,
        u,
        me,
    ) by {
        let more = appended(d, name, row, me)->Ok_0.table.rows;
        assert forall|j: int| 0 <= j < more.len() && (#[trigger] more[j]).vid == u implies ours(
            more[j],
            me,
        ) by {
            if j < rows.len() {
                assert(more[j] == rows[j]);
            }
        }
    }
}

spec fn changes_ours(rows: Seq<VersionV>, c: Seq<(u64, RowV)>, me: u64) -> bool {
    forall|k: int| 0 <= k < c.len() ==> ours_all(rows, (#[trigger] c[k]).0, me)
}

proof fn lemma_carried_changes(x: SceneV, f: PlanV, d: DraftV, c: Seq<(u64, RowV)>, i: int)
    requires
        plan_ok(x, f),
        carried(x, f, d),
        changes_ours(d.table.rows, c, x.me),
        changes_put_from(d, x.name, c, x.me, i) is Ok,
    ensures
        carried(x, f, changes_put_from(d, x.name, c, x.me, i)->Ok_0),
    decreases c.len() - i,
{
    if 0 <= i < c.len() {
        let e = superseded(d, x.name, c[i].0, x.me);
        let g = appended(e, x.name, c[i].1, x.me)->Ok_0;
        assert(ours_all(d.table.rows, c[i].0, x.me));
        lemma_carried_superseded(x, f, d, c[i].0);
        lemma_carried_appended(x, f, e, c[i].1);
        assert forall|k: int| 0 <= k < c.len() implies ours_all(
            g.table.rows,
            (#[trigger] c[k]).0,
            x.me,
        ) by {
            lemma_ours_stays(d, x.name, c[i].0, x.me, c[k].0);
            lemma_ours_stays(e, x.name, c[i].0, x.me, c[k].0);
        }
        lemma_carried_changes(x, f, g, c, i + 1);
    }
}

proof fn lemma_carried_deletes(x: SceneV, f: PlanV, d: DraftV, c: Seq<(u64, RowV)>, i: int)
    requires
        plan_ok(x, f),
        carried(x, f, d),
        changes_ours(d.table.rows, c, x.me),
    ensures
        carried(x, f, deletes_put_from(d, x.name, c, x.me, i)),
    decreases c.len() - i,
{
    if 0 <= i < c.len() {
        let e = superseded(d, x.name, c[i].0, x.me);
        assert(ours_all(d.table.rows, c[i].0, x.me));
        lemma_carried_superseded(x, f, d, c[i].0);
        assert forall|k: int| 0 <= k < c.len() implies ours_all(
            e.table.rows,
            (#[trigger] c[k]).0,
            x.me,
        ) by {
            lemma_ours_stays(d, x.name, c[i].0, x.me, c[k].0);
        }
        lemma_carried_deletes(x, f, e, c, i + 1);
    }
}

/// A version that the writer sees as of `lsn`, or has pending.
spec fn noted(v: VersionV, me: u64, lsn: u64) -> bool {
    v.owner == me || (v.create_lsn != PENDING && (v.delete_lsn == 0 || v.delete_lsn == PENDING
        || v.delete_lsn > lsn))
}

/// Every holder of a key is noted.
spec fn live_noted(rows: Seq<VersionV>, live: Seq<(Seq<char>, u64)>, me: u64, lsn: u64) -> bool {
    forall|a: int, j: int|
        #![trigger live[a], rows[j]]
        0 <= a < live.len() && 0 <= j < rows.len() && rows[j].vid == live[a].1 ==> noted(
            rows[j],
            me,
            lsn,
        )
}

proof fn lemma_held_noted(t: TermsV, p: ProgressV, key: Seq<char>, row: RowV, lsn: u64)
    requires
        vids_ok(p.draft.table),
        live_noted(p.draft.table.rows, p.live, t.owner, lsn),
        held(t, p, key, row) is Ok,
    ensures
        live_noted(
            held(t, p, key, row)->Ok_0.draft.table.rows,
            held(t, p, key, row)->Ok_0.live,
            t.owner,
            lsn,
        ),
{
    let q = held(t, p, key, row)->Ok_0;
    let rows = p.draft.table.rows;
    let now = q.draft.table.rows;
    assert forall|a: int, j: int|
        #![trigger q.live[a], now[j]]
        0 <= a < q.live.len() && 0 <= j < now.len() && now[j].vid == q.live[a].1 implies noted(
        now[j],
        t.owner,
        lsn,
    ) by {
        if j < rows.len() {
            assert(now[j] == rows[j]);
            assert(rows[j].vid < p.draft.table.next_vid);
            assert(a < p.live.len());
            assert(q.live[a] == p.live[a]);
        }
    }
}

proof fn lemma_carried_row(x: SceneV, f: PlanV, t: TermsV, p: ProgressV, row: RowV, tick: u64, lsn: u64)
    requires
        plan_ok(x, f),
        carried(x, f, p.draft),
        live_noted(p.draft.table.rows, p.live, x.me, lsn),
        t.name == x.name,
        t.owner == x.me,
        t.snapshot <= lsn,
        put_row(t, p, row, tick) is Ok,
    ensures
        carried(x, f, put_row(t, p, row, tick)->Ok_0.draft),
        t.pk.len() > 0 ==> live_noted(
            put_row(t, p, row, tick)->Ok_0.draft.table.rows,
            put_row(t, p, row, tick)->Ok_0.live,
            x.me,
            lsn,
        ),
{
    if t.pk.len() == 0 {
        lemma_carried_appended(x, f, p.draft, row);
    } else {
        let key = key_at(row, t.pk);
        match holder_of(p.live, key, p.live.len() as int) {
            None => {
                lemma_carried_appended(x, f, p.draft, row);
                lemma_held_noted(t, p, key, row, lsn);
            },
            Some(old) => match clashed(t, p.draft, old, row, tick) {
                Ok(Some(new)) => {
                    let rows = p.draft.table.rows;
                    let d = superseded(p.draft, t.name, old, t.owner);
                    let m = ProgressV { draft: d, live: freed(p.live, key) };
                    let now = d.table.rows;
                    lemma_version_pos(rows, old, 0);
                    lemma_holder(p.live, key, p.live.len() as int);
                    let a = choose|a: int| 0 <= a < p.live.len() && p.live[a] == (key, old);
                    assert forall|j: int| 0 <= j < rows.len() && (#[trigger] rows[j]).vid
                        == old implies ours(rows[j], x.me) by {
                        let i = version_pos(rows, old, 0)->0;
                        assert(rows[i].vid == rows[j].vid);
                        assert(rows[j].vid == p.live[a].1);
                        assert(noted(rows[j], x.me, lsn));
                        assert(!contested(rows[j], t.snapshot, t.owner));
                        assert(orderly(rows[j]));
                    }
                    lemma_carried_superseded(x, f, p.draft, old);
                    lemma_carried_appended(x, f, d, new);
                    assert forall|b: int, j: int|
                        #![trigger m.live[b], now[j]]
                        0 <= b < m.live.len() && 0 <= j < now.len() && now[j].vid
                            == m.live[b].1 implies noted(now[j], x.me, lsn) by {
                        lemma_freed_noted(p.live, key, b);
                        let c = choose|c: int| 0 <= c < p.live.len() && p.live[c] == m.live[b];
                        if now[j] == rows[j] {
                            assert(rows[j].vid == p.live[c].1);
                        }
                    }
                    lemma_held_noted(t, m, key_at(new, t.pk), new, lsn);
                },
                _ => {},
            },
        }
    }
}

proof fn lemma_carried_rows(
    x: SceneV,
    f: PlanV,
    t: TermsV,
    rows: Seq<RowV>,
    i: int,
    p: ProgressV,
    lsn: u64,
)
    requires
        plan_ok(x, f),
        carried(x, f, p.draft),
        t.pk.len() > 0 ==> live_noted(p.draft.table.rows, p.live, x.me, lsn),
        t.name == x.name,
        t.owner == x.me,
        t.snapshot <= lsn,
        put_rows_from(t, rows, i, p) is Ok,
    ensures
        carried(x, f, put_rows_from(t, rows, i, p)->Ok_0.draft),
    decreases rows.len() - i,
{
    if 0 <= i < rows.len() {
        let q = put_row(t, p, rows[i], i as u64)->Ok_0;
        if t.pk.len() == 0 {
            lemma_carried_appended(x, f, p.draft, rows[i]);
        } else {
            lemma_carried_row(x, f, t, p, rows[i], i as u64, lsn);
        }
        lemma_carried_rows(x, f, t, rows, i + 1, q, lsn);
    }
}

/// A statement that has not done anything yet.
proof fn lemma_carried_start(s: StoreV, x: SceneV, f: PlanV, t: TableV)
    requires
        x.s == fulfilled_from(s, f.others, f.fates, 0),
        plan_ok(x, f),
        vids_ok(t),
        t.rows == s.tables[table_pos(x.s, x.name)->0].rows,
        t.schema == s.tables[table_pos(x.s, x.name)->0].schema,
        tended_from(t.rows, f.others, 0, x.me),
        f.start == t.rows,
        f.from == rows_from(t.rows, f.others, f.fates, 0),
        f.fate matches Some(mark) ==> mark == x.lsn && told(
            x.base,
            x.wal,
            x.s,
            x.me,
            x.lsn,
            x.env,
        ),
    ensures
        carried(x, f, fresh_draft(t)),
{
    let p = table_pos(x.s, x.name)->0;
    let d = fresh_draft(t);
    let m = mapped(f, d);
    lemma_fulfilled(s, f.others, f.fates, 0);
    lemma_tended_all(t.rows, f.others, f.fates, 0, x.me);
    match f.fate {
        Some(mark) => {
            assert(x.wal + d.wal =~= x.wal);
            let r = published(replayed_ops(x.base, x.wal, 0, x.lsn, x.env)->Ok_0, x.lsn);
            let a = published(committed(x.s, x.me, x.lsn), x.lsn);
            let b = published(committed(with_table(x.s, p, m.table), x.me, x.lsn), x.lsn);
            assert forall|i: int| 0 <= i < r.tables.len() implies (#[trigger] r.tables[i]).schema
                == b.tables[i].schema && r.tables[i].rows == b.tables[i].rows by {
                assert(r.tables[i].schema == a.tables[i].schema);
                assert(a.tables[i] == finalized_table(x.s.tables[i], x.me, x.lsn));
                if i == p {
                    assert(b.tables[i] == finalized_table(m.table, x.me, x.lsn));
                }
            }
            assert forall|k: int| 0 <= k < m.table.rows.len() implies plain(
                #[trigger] m.table.rows[k],
                x.me,
            ) by {
                assert(orderly(m.table.rows[k]));
            }
        },
        None => {},
    }
}

/// What a finished draft did is told of the store it goes into.
proof fn lemma_carried_end(s: StoreV, base: StoreV, x: SceneV, f: PlanV, d: DraftV)
    requires
        x.s == fulfilled_from(s, f.others, f.fates, 0),
        plan_ok(x, f),
        carried(x, f, d),
        table_pos(x.s, x.name) == table_pos(s, x.name),
        f.from == x.s.tables[table_pos(s, x.name)->0].rows,
        retold_from(base, f.others, f.fates, 0, x.env) == Ok::<StoreV, StopV>(x.base),
        f.fate is None ==> alike(x.base, rolled_back(x.s, x.me, Seq::empty())),
    ensures
        foretold(
            base,
            f.others.push((x.me, x.wal + d.wal)),
            f.fates.push(f.fate),
            with_table(s, table_pos(s, x.name)->0, d.table),
            x.env,
        ),
{
    let p = table_pos(s, x.name)->0;
    let now = with_table(s, p, d.table);
    let m = mapped(f, d);
    let y = with_table(x.s, p, m.table);
    lemma_fulfilled(s, f.others, f.fates, 0);
    lemma_fulfilled(now, f.others, f.fates, 0);
    assert(fulfilled_from(now, f.others, f.fates, 0).tables =~= y.tables);
    lemma_last_fate(base, now, f.others, f.fates, x.me, x.wal + d.wal, f.fate, x.env);
    match f.fate {
        Some(mark) => {},
        None => {
            let a = rolled_back(x.s, x.me, Seq::empty());
            let b = rolled_back(y, x.me, Seq::empty());
            assert forall|i: int| 0 <= i < x.base.tables.len() implies (
            #[trigger] x.base.tables[i]).schema == b.tables[i].schema && x.base.tables[i].rows
                == b.tables[i].rows by {
                assert(x.base.tables[i].schema == a.tables[i].schema);
                assert(a.tables[i].rows == given_up(x.s.tables[i].rows, x.me));
                assert(b.tables[i].rows == given_up(y.tables[i].rows, x.me));
            }
        },
    }
}

/// What a write does, with one set of fates.
proof fn lemma_write_told(
    s: StoreV,
    q: StmtV,
    wc: WriteV,
    base: StoreV,
    flight: FlightV,
    wal: Seq<WalOpV>,
    fates: Seq<Option<u64>>,
    fate: Option<u64>,
    env: EnvV,
)
    requires
        tended(s, flight.push((wc.owner, wal))),
        ids_ok(s),
        wc.snapshot <= s.committed_lsn < PENDING,
        told_all(base, flight.push((wc.owner, wal)), s, env),
        fates_fit(flight, fates),
        fate != Some(PENDING),
        dml(s, q, wc) is Ok,
    ensures
        foretold(
            base,
            flight.push((wc.owner, wal + dml(s, q, wc)->Ok_0.1.wal)),
            fates.push(fate),
            dml(s, q, wc)->Ok_0.0,
            env,
        ),
        tended(dml(s, q, wc)->Ok_0.0, flight.push((wc.owner, wal + dml(s, q, wc)->Ok_0.1.wal))),
{
    reveal(dml);
    let me = wc.owner;
    let all = flight.push((me, wal));
    let xs = fulfilled_from(s, flight, fates, 0);
    assert(owners_differ(flight) && !flies(flight, me) && me != 0) by {
        lemma_apart_from_last(flight, me, wal);
    }
    assert forall|g: Option<u64>| g != Some(PENDING) implies #[trigger] foretold(
        base,
        all,
        fates.push(g),
        s,
        env,
    ) by {
        let fs = fates.push(g);
        assert forall|i: int| 0 <= i < fs.len() implies #[trigger] fs[i] != Some(PENDING) by {
            if i < fates.len() {
                assert(fates[i] != Some(PENDING));
            }
        }
        assert(fates_fit(all, fs));
    }
    lemma_last_fate(base, s, flight, fates, me, wal, fate, env);
    lemma_last_fate(base, s, flight, fates, me, wal, None, env);
    assert(foretold(base, all, fates.push(None), s, env));
    assert(foretold(base, all, fates.push(fate), s, env));
    lemma_fulfilled(s, flight, fates, 0);
    assert(table_names(xs.tables) =~= table_names(s.tables));
    let r0 = retold_from(base, flight, fates, 0, env)->Ok_0;
    let lsn = match fate {
        Some(mark) => mark,
        None => 0,
    };
    if q is Insert || q is Update || q is Delete {
        let table = target(q);
        lemma_name_pos(table_names(s.tables), table, 0);
        let i = table_pos(s, table)->0;
        let t0 = s.tables[i];
        let x = SceneV { s: xs, base: r0, wal, name: table, me, lsn, env };
        let f = PlanV {
            others: flight,
            fates,
            fate,
            start: t0.rows,
            from: rows_from(t0.rows, flight, fates, 0),
        };
        assert(tended_from(t0.rows, flight, 0, me)) by {
            lemma_tended_by_last(t0.rows, flight, me, wal);
        }
        assert(vids_ok(t0));
        lemma_write_carried(s, q, wc, x, f);
        let d = draft_of(s, q, wc);
        lemma_carried_end(s, base, x, f, d);
        assert(dml(s, q, wc)->Ok_0.0 == with_table(s, i, d.table));
        assert(dml(s, q, wc)->Ok_0.1.wal == d.wal);
        lemma_tended_with(s, flight, me, wal, wal + d.wal, i, d.table);
    } else {
        assert(wal + Seq::<WalOpV>::empty() =~= wal);
    }
}

pub proof fn lemma_apart_from_last(flight: FlightV, me: u64, wal: Seq<WalOpV>)
    requires
        owners_differ(flight.push((me, wal))),
    ensures
        owners_differ(flight),
        !flies(flight, me),
        me != 0,
{
    let all = flight.push((me, wal));
    assert(all[flight.len() as int].0 == me);
    assert forall|i: int| 0 <= i < flight.len() implies (#[trigger] flight[i]).0 != 0 && flight[i].0
        != me by {
        assert(all[i] == flight[i]);
    }
    assert forall|i: int, j: int|
        #![trigger flight[i], flight[j]]
        0 <= i < flight.len() && 0 <= j < flight.len() && flight[i].0 == flight[j].0 implies i
        == j by {
        assert(all[i] == flight[i] && all[j] == flight[j]);
    }
}

proof fn lemma_tended_by_last(rows: Seq<VersionV>, flight: FlightV, me: u64, wal: Seq<WalOpV>)
    ensures
        rows_tended(rows, flight.push((me, wal))) <==> tended_from(rows, flight, 0, me),
{
    let all = flight.push((me, wal));
    assert(all[flight.len() as int].0 == me);
    assert forall|o: u64| #[trigger] flies(all, o) <==> o == me || flies_from(flight, 0, o) by {
        if flies(all, o) {
            let j = choose|j: int| 0 <= j < all.len() && (#[trigger] all[j]).0 == o;
            if j < flight.len() {
                assert(flight[j].0 == o);
            }
        }
        if flies_from(flight, 0, o) {
            let j = choose|j: int| 0 <= j < flight.len() && (#[trigger] flight[j]).0 == o;
            assert(all[j].0 == o);
        }
    }
}

proof fn lemma_tended_with(
    s: StoreV,
    flight: FlightV,
    me: u64,
    wal: Seq<WalOpV>,
    more: Seq<WalOpV>,
    i: int,
    t: TableV,
)
    requires
        tended(s, flight.push((me, wal))),
        0 <= i < s.tables.len(),
        tended_from(t.rows, flight, 0, me),
    ensures
        tended(with_table(s, i, t), flight.push((me, more))),
{
    let all = flight.push((me, wal));
    let now = flight.push((me, more));
    let after = with_table(s, i, t);
    lemma_apart_from_last(flight, me, wal);
    assert(owners_differ(now)) by {
        assert forall|a: int| 0 <= a < now.len() implies (#[trigger] now[a]).0 != 0 by {
            assert(now[a].0 == all[a].0);
        }
        assert forall|a: int, b: int|
            #![trigger now[a], now[b]]
            0 <= a < now.len() && 0 <= b < now.len() && now[a].0 == now[b].0 implies a == b by {
            assert(now[a].0 == all[a].0 && now[b].0 == all[b].0);
        }
    }
    assert forall|k: int| 0 <= k < after.tables.len() implies rows_tended(
        (#[trigger] after.tables[k]).rows,
        now,
    ) by {
        let rows = after.tables[k].rows;
        if k != i {
            assert(rows_tended(s.tables[k].rows, all));
            lemma_tended_by_last(rows, flight, me, wal);
        }
        lemma_tended_by_last(rows, flight, me, more);
    }
}

/// The draft of a statement.
spec fn draft_of(s: StoreV, q: StmtV, wc: WriteV) -> DraftV {
    match q {
        StmtV::Insert { table, columns, source, on_conflict, returning } => insert_draft(
            s,
            s.tables[table_pos(s, table)->0],
            table,
            columns,
            source,
            on_conflict,
            wc,
        )->Ok_0,
        StmtV::Update { table, sets, from, filter, returning } => update_draft(
            s,
            s.tables[table_pos(s, table)->0],
            table,
            sets,
            from,
            filter,
            wc,
        )->Ok_0,
        StmtV::Delete { table, using, filter, returning } => delete_draft(
            s,
            s.tables[table_pos(s, table)->0],
            table,
            using,
            filter,
            wc,
        )->Ok_0,
        _ => arbitrary(),
    }
}

spec fn target(q: StmtV) -> Seq<char> {
    match q {
        StmtV::Insert { table, .. } => table,
        StmtV::Update { table, .. } => table,
        StmtV::Delete { table, .. } => table,
        _ => Seq::empty(),
    }
}

proof fn lemma_write_carried(s: StoreV, q: StmtV, wc: WriteV, x: SceneV, f: PlanV)
    requires
        q is Insert || q is Update || q is Delete,
        dml(s, q, wc) is Ok,
        x.name == target(q),
        x.me == wc.owner,
        x.s == fulfilled_from(s, f.others, f.fates, 0),
        table_pos(x.s, x.name) == table_pos(s, x.name),
        x.s.tables.len() == s.tables.len(),
        plan_ok(x, f),
        ids_ok(s),
        wc.snapshot <= s.committed_lsn < PENDING,
        tended_from(s.tables[table_pos(s, x.name)->0].rows, f.others, 0, x.me),
        f.start == s.tables[table_pos(s, x.name)->0].rows,
        f.from == rows_from(s.tables[table_pos(s, x.name)->0].rows, f.others, f.fates, 0),
        f.fate matches Some(mark) ==> mark == x.lsn && told(
            x.base,
            x.wal,
            x.s,
            x.me,
            x.lsn,
            x.env,
        ),
    ensures
        carried(x, f, draft_of(s, q, wc)),
{
    reveal(dml);
    let me = wc.owner;
    let i = table_pos(s, x.name)->0;
    let t0 = s.tables[i];
    let old = t0.rows;
    assert(vids_ok(t0));
    match q {
        StmtV::Insert { table, columns, source, on_conflict, returning } => {
            let lsn = s.committed_lsn;
            let slots = slots_of(s, t0.schema, columns, source, wc)->Ok_0;
            let (rows, auto) = staged_of(slots, t0.schema, table, t0.next_autoinc, wc.env)->Ok_0;
            let t = TableV { next_autoinc: auto, ..t0 };
            let rules = clash_rules(t0.schema, on_conflict, wc.env)->Ok_0;
            let terms = terms_of(s, t0, table, on_conflict, rules, wc);
            let p = ProgressV {
                draft: fresh_draft(t),
                live: live_from(t.rows, terms.pk, lsn, me, 0, Seq::empty()),
            };
            assert(all_put(s, t, terms, rows, wc) == Ok::<DraftV, StopV>(draft_of(s, q, wc)));
            assert(vids_ok(t)) by {
                assert forall|a: int| 0 <= a < t.rows.len() implies (#[trigger] t.rows[a]).vid
                    < t.next_vid by {
                    assert(t0.rows[a].vid < t0.next_vid);
                }
            }
            lemma_carried_start(s, x, f, t);
            lemma_noted_seen(t.rows, terms.pk, lsn, me, 0, Seq::empty());
            assert forall|a: int, j: int|
                #![trigger p.live[a], old[j]]
                0 <= a < p.live.len() && 0 <= j < old.len() && old[j].vid
                    == p.live[a].1 implies noted(old[j], me, lsn) by {
                let k = choose|k: int|
                    0 <= k < t.rows.len() && (#[trigger] t.rows[k]).vid == p.live[a].1
                        && writer_sees(t.rows[k], lsn, me);
                assert(t0.rows[k].vid == t0.rows[j].vid);
            }
            lemma_carried_rows(x, f, terms, rows, 0, p, lsn);
        },
        StmtV::Update { table, sets, from, filter, returning } => {
            let c = changes_of(s, t0, table, sets, from, filter, wc)->Ok_0;
            let rules = rules_of(t0.schema, PolicyCommand::Update, wc.env)->Ok_0;
            law_updated_rows_are_valid(s, t0, table, sets, from, filter, wc);
            assert forall|k: int| 0 <= k < c.len() implies ours_all(old, (#[trigger] c[k]).0, me) by {
                assert(is_sound(old, t0.schema, table, rules, wc, c[k]));
                let y = choose|y: int| sound_change(old, t0.schema, table, rules, wc, c[k], y);
                assert(orderly(old[y]));
                assert forall|j: int| 0 <= j < old.len() && (#[trigger] old[j]).vid
                    == c[k].0 implies ours(old[j], me) by {
                    assert(old[j].vid == old[y].vid);
                }
            }
            lemma_carried_start(s, x, f, t0);
            lemma_carried_changes(x, f, fresh_draft(t0), c, 0);
        },
        StmtV::Delete { table, using, filter, returning } => {
            let src = sources_of(s, t0.schema, table, using, wc)->Ok_0;
            let guard = guard_of(t0.schema, PolicyCommand::Delete, wc.env)->Ok_0;
            let c = deletes_from(old, t0.schema, guard, src, filter, wc, 0, Seq::empty())->Ok_0;
            lemma_victims(old, t0.schema, guard, src, filter, wc, 0, Seq::empty());
            assert forall|k: int| 0 <= k < c.len() implies ours_all(old, (#[trigger] c[k]).0, me) by {
                assert(may_go(old, t0.schema, guard, wc, c[k]));
                let y = choose|y: int| sound_victim(old, t0.schema, guard, wc, c[k], y);
                assert(orderly(old[y]));
                assert forall|j: int| 0 <= j < old.len() && (#[trigger] old[j]).vid
                    == c[k].0 implies ours(old[j], me) by {
                    assert(old[j].vid == old[y].vid);
                }
            }
            lemma_carried_start(s, x, f, t0);
            lemma_carried_deletes(x, f, fresh_draft(t0), c, 0);
            let e = deletes_put_from(fresh_draft(t0), table, c, me, 0);
            let d = draft_of(s, q, wc);
            assert(d.table == e.table && d.wal == e.wal);
            assert(mapped(f, d).table == mapped(f, e).table);
        },
        _ => {},
    }
}

/// A statement stamps nothing but what is its writer's own or committed and not
/// deleted, and adds pending versions of its writer behind the rest; other tables stay
/// as they are.
pub proof fn law_writes_touch_their_own(
    s: StoreV,
    q: StmtV,
    wc: WriteV,
    flight: FlightV,
    wal: Seq<WalOpV>,
)
    requires
        tended(s, flight.push((wc.owner, wal))),
        ids_ok(s),
        wc.snapshot <= s.committed_lsn < PENDING,
        dml(s, q, wc) is Ok,
    ensures
        dml(s, q, wc)->Ok_0.0.tables.len() == s.tables.len(),
        forall|i: int|
            0 <= i < s.tables.len() ==> (#[trigger] dml(s, q, wc)->Ok_0.0.tables[i]).schema
                == s.tables[i].schema && only_ours(
                s.tables[i].rows,
                dml(s, q, wc)->Ok_0.0.tables[i].rows,
                wc.owner,
            ),
{
    reveal(dml);
    let me = wc.owner;
    let after = dml(s, q, wc)->Ok_0.0;
    if q is Insert || q is Update || q is Delete {
        let fates = none_published(flight.len());
        let xs = fulfilled_from(s, flight, fates, 0);
        let table = target(q);
        lemma_apart_from_last(flight, me, wal);
        lemma_fulfilled(s, flight, fates, 0);
        assert(table_names(xs.tables) =~= table_names(s.tables));
        lemma_name_pos(table_names(s.tables), table, 0);
        let at = table_pos(s, table)->0;
        let rows = s.tables[at].rows;
        let x = SceneV { s: xs, base: s, wal, name: table, me, lsn: 0, env: wc.env };
        let f = PlanV {
            others: flight,
            fates,
            fate: None,
            start: rows,
            from: rows_from(rows, flight, fates, 0),
        };
        assert(rows_tended(rows, flight.push((me, wal))));
        lemma_tended_by_last(rows, flight, me, wal);
        lemma_write_carried(s, q, wc, x, f);
        assert(after == with_table(s, at, draft_of(s, q, wc).table));
    }
}

/// A statement that writes rows tells all it did, whoever else is in flight: where
/// what the transactions logged tells what may become of them, it does so with the
/// operations of the statement behind those of its transaction, which is the last to
/// have got the write lane.
pub proof fn law_writes_are_told(
    s: StoreV,
    q: StmtV,
    wc: WriteV,
    base: StoreV,
    flight: FlightV,
    wal: Seq<WalOpV>,
    env: EnvV,
)
    requires
        tended(s, flight.push((wc.owner, wal))),
        ids_ok(s),
        wc.snapshot <= s.committed_lsn < PENDING,
        told_all(base, flight.push((wc.owner, wal)), s, env),
        dml(s, q, wc) is Ok,
    ensures
        told_all(
            base,
            flight.push((wc.owner, wal + dml(s, q, wc)->Ok_0.1.wal)),
            dml(s, q, wc)->Ok_0.0,
            env,
        ),
        tended(dml(s, q, wc)->Ok_0.0, flight.push((wc.owner, wal + dml(s, q, wc)->Ok_0.1.wal))),
{
    let after = dml(s, q, wc)->Ok_0;
    let now = flight.push((wc.owner, wal + after.1.wal));
    let none = Seq::new(flight.len(), |i: int| None::<u64>);
    lemma_write_told(s, q, wc, base, flight, wal, none, None, env);
    assert forall|fates: Seq<Option<u64>>| fates_fit(now, fates) implies #[trigger] foretold(
        base,
        now,
        fates,
        after.0,
        env,
    ) by {
        let head = fates.drop_last();
        assert(fates =~= head.push(fates.last()));
        assert(fates[flight.len() as int] == fates.last());
        assert forall|i: int| 0 <= i < head.len() implies #[trigger] head[i] != Some(PENDING) by {
            assert(head[i] == fates[i]);
        }
        lemma_write_told(s, q, wc, base, flight, wal, head, fates.last(), env);
    }
}

// ---- coming and going -----------------------------------------------------------------------------

/// What a log left tells of a store like it, where nobody is in flight.
pub proof fn law_nothing_told_at_start(base: StoreV, s: StoreV, env: EnvV)
    requires
        alike(base, s),
    ensures
        told_all(base, Seq::empty(), s, env),
{
    let none: FlightV = Seq::empty();
    assert forall|fates: Seq<Option<u64>>| fates_fit(none, fates) implies #[trigger] foretold(
        base,
        none,
        fates,
        s,
        env,
    ) by {}
}

proof fn lemma_nothing_given_up(rows: Seq<VersionV>, me: u64)
    requires
        forall|k: int| 0 <= k < rows.len() ==> (#[trigger] rows[k]).owner != me,
    ensures
        given_up(rows, me) == rows,
    decreases rows.len(),
{
    if rows.len() == 0 {
        assert(given_up(rows, me) =~= rows);
    } else {
        let head = rows.drop_last();
        lemma_split_last(rows);
        assert forall|k: int| 0 <= k < head.len() implies (#[trigger] head[k]).owner != me by {
            assert(head[k] == rows[k]);
        }
        lemma_nothing_given_up(head, me);
        lemma_given_up_snoc(head, rows.last(), me);
        assert(rows[rows.len() - 1] == rows.last());
    }
}

/// One who gets the write lane joins those in flight, with nothing to tell.
pub proof fn law_a_writer_joins(base: StoreV, flight: FlightV, s: StoreV, me: u64, env: EnvV)
    requires
        tended(s, flight),
        told_all(base, flight, s, env),
        me != 0,
        !flies(flight, me),
    ensures
        told_all(base, flight.push((me, Seq::empty())), s, env),
        tended(s, flight.push((me, Seq::empty()))),
{
    let all = flight.push((me, Seq::<WalOpV>::empty()));
    assert forall|fates: Seq<Option<u64>>| fates_fit(all, fates) implies #[trigger] foretold(
        base,
        all,
        fates,
        s,
        env,
    ) by {
        let head = fates.drop_last();
        let fate = fates.last();
        assert(fates =~= head.push(fate));
        assert forall|i: int| 0 <= i < head.len() implies #[trigger] head[i] != Some(PENDING) by {
            assert(head[i] == fates[i]);
        }
        assert(fates_fit(flight, head));
        assert(foretold(base, flight, head, s, env));
        lemma_last_fate(base, s, flight, head, me, Seq::empty(), fate, env);
        lemma_fulfilled(s, flight, head, 0);
        let x = fulfilled_from(s, flight, head, 0);
        let y = fulfilled(x, me, fate);
        assert forall|i: int| 0 <= i < x.tables.len() implies (#[trigger] y.tables[i]).rows
            == x.tables[i].rows && y.tables[i].schema == x.tables[i].schema by {
            let rows = x.tables[i].rows;
            assert(rows_tended(s.tables[i].rows, flight));
            lemma_tended_front(s.tables[i].rows, flight, head, flight.len() as int, 0);
            assert(flight.take(flight.len() as int) =~= flight);
            assert forall|k: int| 0 <= k < rows.len() implies (#[trigger] rows[k]).owner != me by {
                assert(orderly(rows[k]));
            }
            lemma_nothing_given_up(rows, me);
            match fate {
                Some(mark) => {
                    assert(finalized_rows(rows, me, mark) =~= rows);
                },
                None => {},
            }
        }
        let r = retold_from(base, flight, head, 0, env)->Ok_0;
        let z = retold(r, Seq::empty(), fate, env)->Ok_0;
        assert forall|i: int| 0 <= i < z.tables.len() implies (#[trigger] z.tables[i]).schema
            == y.tables[i].schema && z.tables[i].rows == y.tables[i].rows by {
            assert(z.tables[i] == r.tables[i]);
            assert(r.tables[i].schema == x.tables[i].schema);
            assert(y.tables[i].rows == x.tables[i].rows);
        }
    }
    assert(owners_differ(all)) by {
        assert forall|i: int| 0 <= i < all.len() implies (#[trigger] all[i]).0 != 0 by {
            if i < flight.len() {
                assert(all[i] == flight[i]);
            }
        }
        assert forall|i: int, j: int|
            #![trigger all[i], all[j]]
            0 <= i < all.len() && 0 <= j < all.len() && all[i].0 == all[j].0 implies i == j by {
            if i < flight.len() {
                assert(all[i] == flight[i]);
            }
            if j < flight.len() {
                assert(all[j] == flight[j]);
            }
        }
    }
    assert forall|i: int| 0 <= i < s.tables.len() implies rows_tended(
        (#[trigger] s.tables[i]).rows,
        all,
    ) by {
        let rows = s.tables[i].rows;
        assert(rows_tended(rows, flight));
        assert forall|k: int| 0 <= k < rows.len() implies orderly(#[trigger] rows[k]) && (
        rows[k].owner == 0 || flies(all, rows[k].owner)) by {
            if rows[k].owner != 0 {
                let j = choose|j: int|
                    0 <= j < flight.len() && (#[trigger] flight[j]).0 == rows[k].owner;
                assert(all[j].0 == rows[k].owner);
            }
        }
    }
}

/// Once the first `n` are settled nobody but the others has anything pending.
proof fn lemma_tended_front(
    rows: Seq<VersionV>,
    flight: FlightV,
    fates: Seq<Option<u64>>,
    n: int,
    i: int,
)
    requires
        0 <= i <= n <= flight.len(),
        owners_differ(flight),
        fates_fit(flight.take(n), fates),
        i == 0 ==> rows_tended(rows, flight),
        i > 0 ==> tended_from(rows, flight, i, 0),
    ensures
        tended_from(rows_from(rows, flight.take(n), fates, i), flight, n, 0),
    decreases n - i,
{
    if i == 0 {
        assert forall|k: int| 0 <= k < rows.len() implies orderly(#[trigger] rows[k]) && (
        rows[k].owner == 0 || rows[k].owner == 0 || flies_from(flight, 0, rows[k].owner)) by {
            if rows[k].owner != 0 {
                let j = choose|j: int|
                    0 <= j < flight.len() && (#[trigger] flight[j]).0 == rows[k].owner;
                assert(flight[j].0 == rows[k].owner);
            }
        }
    }
    if i < n {
        assert(flight.take(n)[i] == flight[i]);
        lemma_tended_step(rows, flight, fates[i], i, 0);
        lemma_tended_front(rows_fulfilled(rows, flight[i].0, fates[i]), flight, fates, n, i + 1);
    }
}

proof fn lemma_tended_rest(s: StoreV, flight: FlightV, fates: Seq<Option<u64>>, n: int)
    requires
        0 <= n <= flight.len(),
        tended(s, flight),
        fates_fit(flight.take(n), fates),
    ensures
        tended(fulfilled_from(s, flight.take(n), fates, 0), flight.skip(n)),
{
    let rest = flight.skip(n);
    let after = fulfilled_from(s, flight.take(n), fates, 0);
    lemma_fulfilled(s, flight.take(n), fates, 0);
    assert(owners_differ(rest)) by {
        assert forall|i: int| 0 <= i < rest.len() implies (#[trigger] rest[i]).0 != 0 by {
            assert(rest[i] == flight[n + i]);
        }
        assert forall|i: int, j: int|
            #![trigger rest[i], rest[j]]
            0 <= i < rest.len() && 0 <= j < rest.len() && rest[i].0 == rest[j].0 implies i == j by {
            assert(rest[i] == flight[n + i] && rest[j] == flight[n + j]);
        }
    }
    assert forall|i: int| 0 <= i < after.tables.len() implies rows_tended(
        (#[trigger] after.tables[i]).rows,
        rest,
    ) by {
        let rows = after.tables[i].rows;
        assert(rows_tended(s.tables[i].rows, flight));
        lemma_tended_front(s.tables[i].rows, flight, fates, n, 0);
        assert forall|k: int| 0 <= k < rows.len() implies orderly(#[trigger] rows[k]) && (
        rows[k].owner == 0 || flies(rest, rows[k].owner)) by {
            if rows[k].owner != 0 {
                let j = choose|j: int|
                    n <= j < flight.len() && (#[trigger] flight[j]).0 == rows[k].owner;
                assert(rest[j - n] == flight[j]);
            }
        }
    }
}

/// Once the fates of the first took effect, what the others logged is told on top of
/// what the log then gives.
proof fn lemma_told_behind(
    base: StoreV,
    flight: FlightV,
    now: StoreV,
    fates: Seq<Option<u64>>,
    n: int,
    env: EnvV,
)
    requires
        0 <= n <= flight.len(),
        told_all(base, flight, now, env),
        fates_fit(flight.take(n), fates),
    ensures
        retold_from(base, flight.take(n), fates, 0, env) is Ok,
        told_all(
            retold_from(base, flight.take(n), fates, 0, env)->Ok_0,
            flight.skip(n),
            fulfilled_from(now, flight.take(n), fates, 0),
            env,
        ),
{
    let head = flight.take(n);
    let rest = flight.skip(n);
    assert(head + rest =~= flight);
    let none = Seq::new(rest.len(), |i: int| None::<u64>);
    assert forall|fr: Seq<Option<u64>>| fates_fit(rest, fr) implies foretold(
        base,
        flight,
        fates + fr,
        now,
        env,
    ) && #[trigger] foretold(
        retold_from(base, head, fates, 0, env)->Ok_0,
        rest,
        fr,
        fulfilled_from(now, head, fates, 0),
        env,
    ) && retold_from(base, head, fates, 0, env) is Ok by {
        let all = fates + fr;
        assert forall|i: int| 0 <= i < all.len() implies #[trigger] all[i] != Some(PENDING) by {
            if i < n {
                assert(all[i] == fates[i]);
            } else {
                assert(all[i] == fr[i - n]);
            }
        }
        assert(fates_fit(flight, all));
        assert(foretold(base, flight, all, now, env));
        lemma_fulfilled_both(now, head, rest, fates, fr, 0);
        lemma_retold_both(base, head, rest, fates, fr, 0, env);
    }
    assert(fates_fit(rest, none));
    assert(foretold(
        retold_from(base, head, fates, 0, env)->Ok_0,
        rest,
        none,
        fulfilled_from(now, head, fates, 0),
        env,
    ));
}

// ---- batches --------------------------------------------------------------------------------------

/// The members of a batch are the first in flight, with the records of their operations.
pub open spec fn fly_first(b: Seq<MemberV>, flight: FlightV) -> bool {
    &&& b.len() <= flight.len()
    &&& forall|j: int|
        0 <= j < b.len() ==> (#[trigger] b[j]).owner == flight[j].0 && b[j].records == records(
            flight[j].1,
        ) && loggable(flight[j].1)
}

/// Entries that hold the records of a batch, under the numbers up to `last`.
pub open spec fn appended_as(entries: Seq<LogEntryV>, b: Seq<MemberV>, last: u64) -> bool {
    let all = gathered(b, b.len() as int);
    &&& entries.len() == all.len()
    &&& forall|k: int|
        0 <= k < entries.len() ==> (#[trigger] entries[k]).bytes == all[k] && entries[k].lsn == last
            - all.len() + 1 + k
}

/// Each member published at its mark.
pub open spec fn all_published(b: Seq<MemberV>, last: u64) -> Seq<Option<u64>> {
    Seq::new(b.len(), |j: int| Some(mark_of(b, last, j) as u64))
}

/// Each given up.
pub open spec fn none_published(n: nat) -> Seq<Option<u64>> {
    Seq::new(n, |j: int| None::<u64>)
}

/// A store without what those in flight have pending: what is committed.
pub open spec fn settled_part(s: StoreV, flight: FlightV) -> StoreV {
    fulfilled_from(s, flight, none_published(flight.len()), 0)
}

proof fn lemma_member_entries(
    entries: Seq<LogEntryV>,
    b: Seq<MemberV>,
    flight: FlightV,
    last: u64,
    j: int,
)
    requires
        fly_first(b, flight),
        appended_as(entries, b, last),
        0 <= j < b.len(),
    ensures
        0 <= count(b, j) < count(b, j + 1) <= entries.len(),
        holds(entries.subrange(count(b, j), count(b, j + 1)), flight[j].1),
        entries.subrange(count(b, j), count(b, j + 1)).last().lsn == mark_of(b, last, j),
        0 <= mark_of(b, last, j) <= last,
{
    let n = b.len() as int;
    let (lo, hi) = (count(b, j), count(b, j + 1));
    let part = entries.subrange(lo, hi);
    let ops = flight[j].1;
    lemma_gathered_len(b, n);
    lemma_gathered_len(b, j);
    lemma_gathered_len(b, j + 1);
    lemma_count_grows(b, 0, j);
    lemma_count_grows(b, j, j + 1);
    lemma_count_grows(b, j + 1, n);
    assert(b[j].records == records(ops));
    assert forall|k: int| 0 <= k < part.len() implies (#[trigger] part[k]).bytes == records(
        ops,
    )[k] by {
        assert(part[k] == entries[lo + k]);
        lemma_gathered_prefix(b, j + 1, n, lo + k);
        assert(gathered(b, j + 1)[lo + k] == b[j].records[k]);
    }
    assert(part.last() == entries[hi - 1]);
}

/// What the log gives of a batch is what its members tell.
proof fn lemma_batch_replayed(
    log: Seq<LogEntryV>,
    entries: Seq<LogEntryV>,
    b: Seq<MemberV>,
    flight: FlightV,
    r: StoreV,
    last: u64,
    j: int,
    env: EnvV,
)
    requires
        0 <= j <= b.len(),
        fly_first(b, flight),
        appended_as(entries, b, last),
        closed(log),
        left(log, env) == Ok::<StoreV, StopV>(r),
        retold_from(r, flight.take(b.len() as int), all_published(b, last), j, env) is Ok,
    ensures
        closed(log + entries.skip(count(b, j))),
        left(log + entries.skip(count(b, j)), env) == retold_from(
            r,
            flight.take(b.len() as int),
            all_published(b, last),
            j,
            env,
        ),
    decreases b.len() - j,
{
    let n = b.len() as int;
    let head = flight.take(n);
    let fates = all_published(b, last);
    lemma_gathered_len(b, n);
    if j < n {
        let part = entries.subrange(count(b, j), count(b, j + 1));
        lemma_member_entries(entries, b, flight, last, j);
        assert(head[j] == flight[j]);
        assert(b[j].owner == flight[j].0);
        law_durable_is_recovered(log, part, flight[j].1, env);
        reveal(applied);
        let t = retold(r, head[j].1, fates[j], env)->Ok_0;
        lemma_batch_replayed(log + part, entries, b, flight, t, last, j + 1, env);
        assert((log + part) + entries.skip(count(b, j + 1)) =~= log + entries.skip(count(b, j)));
    } else {
        assert(log + entries.skip(count(b, j)) =~= log);
    }
}

/// A batch that is published, as those in flight see it.
proof fn lemma_settled(
    s: StoreV,
    t: StoreV,
    b: Seq<MemberV>,
    flight: FlightV,
    last: u64,
    i: int,
)
    requires
        0 <= i <= b.len(),
        fly_first(b, flight),
        t == (StoreV { committed_lsn: t.committed_lsn, ..s }),
        forall|j: int| 0 <= j < b.len() ==> 0 <= #[trigger] mark_of(b, last, j) <= last,
    ensures
        fulfilled_from(t, flight.take(b.len() as int), all_published(b, last), i) == (StoreV {
            committed_lsn: if i < b.len() && last > t.committed_lsn {
                last
            } else {
                t.committed_lsn
            },
            ..settled_from(s, b, last, i)
        }),
        settled_from(s, b, last, i).committed_lsn == s.committed_lsn,
    decreases b.len() - i,
{
    let head = flight.take(b.len() as int);
    let fates = all_published(b, last);
    if i < b.len() {
        let mark = mark_of(b, last, i) as u64;
        assert(b[i].owner == flight[i].0 && head[i] == flight[i]);
        assert(0 <= mark_of(b, last, i) <= last);
        let u = committed(s, b[i].owner, mark);
        let w = published(committed(t, b[i].owner, mark), mark);
        lemma_settled(u, w, b, flight, last, i + 1);
        if i + 1 == b.len() {
            assert(mark_of(b, last, i) == last);
        }
    }
}

/// A batch that became durable is found again, whoever else is in flight: where the
/// log left what is committed, and the transactions in flight tell what may become of
/// them, then the log with the records of the batch behind leaves what is committed
/// once the batch is published, each member at its own mark. Those that are still in
/// flight tell what may become of them as before.
pub proof fn law_batch_survives(
    log: Seq<LogEntryV>,
    entries: Seq<LogEntryV>,
    base: StoreV,
    b: Seq<MemberV>,
    flight: FlightV,
    now: StoreV,
    last: u64,
    env: EnvV,
)
    requires
        closed(log),
        left(log, env) == Ok::<StoreV, StopV>(base),
        fly_first(b, flight),
        appended_as(entries, b, last),
        last < PENDING,
        tended(now, flight),
        told_all(base, flight, now, env),
    ensures
        closed(log + entries),
        left(log + entries, env) is Ok,
        ({
            let found = left(log + entries, env)->Ok_0;
            let after = settled(now, b, Ok::<u64, ErrorV>(last));
            let rest = flight.skip(b.len() as int);
            &&& alike(found, settled_part(after, rest))
            &&& rest.len() == 0 ==> alike(found, after)
            &&& told_all(found, rest, after, env)
            &&& tended(after, rest)
        }),
{
    let n = b.len() as int;
    let head = flight.take(n);
    let rest = flight.skip(n);
    let fates = all_published(b, last);
    assert forall|j: int| 0 <= j < n implies 0 <= #[trigger] mark_of(b, last, j) <= last by {
        lemma_member_entries(entries, b, flight, last, j);
    }
    assert forall|j: int| 0 <= j < fates.len() implies #[trigger] fates[j] != Some(PENDING) by {
        assert(0 <= mark_of(b, last, j) <= last);
    }
    assert(fates_fit(head, fates));
    lemma_told_behind(base, flight, now, fates, n, env);
    lemma_batch_replayed(log, entries, b, flight, base, last, 0, env);
    assert(entries.skip(count(b, 0)) =~= entries);
    lemma_settled(now, now, b, flight, last, 0);
    lemma_tended_rest(now, flight, fates, n);
    let found = left(log + entries, env)->Ok_0;
    let after = settled(now, b, Ok::<u64, ErrorV>(last));
    assert(fulfilled_from(now, head, fates, 0) == after);
    lemma_settled_part(found, rest, after, env);
}

/// What the log gives is what is committed.
proof fn lemma_settled_part(base: StoreV, flight: FlightV, now: StoreV, env: EnvV)
    requires
        told_all(base, flight, now, env),
    ensures
        alike(base, settled_part(now, flight)),
        flight.len() == 0 ==> alike(base, now),
{
    let none = none_published(flight.len());
    assert(fates_fit(flight, none));
    assert(foretold(base, flight, none, now, env));
    lemma_retold_nothing(base, flight, 0, env);
}

proof fn lemma_retold_nothing(base: StoreV, flight: FlightV, i: int, env: EnvV)
    requires
        0 <= i,
    ensures
        retold_from(base, flight, none_published(flight.len()), i, env) == Ok::<StoreV, StopV>(base),
    decreases flight.len() - i,
{
    if i < flight.len() {
        lemma_retold_nothing(base, flight, i + 1, env);
    }
}

proof fn lemma_dropped(s: StoreV, b: Seq<MemberV>, flight: FlightV, i: int)
    requires
        0 <= i,
        fly_first(b, flight),
    ensures
        fulfilled_from(s, flight.take(b.len() as int), none_published(b.len()), i) == dropped_from(
            s,
            b,
            i,
        ),
    decreases b.len() - i,
{
    if i < b.len() {
        assert(b[i].owner == flight[i].0 && flight.take(b.len() as int)[i] == flight[i]);
        lemma_dropped(rolled_back(s, b[i].owner, Seq::empty()), b, flight, i + 1);
    }
}

/// A batch that could not be made durable is as good as never written: those behind it
/// tell what may become of them on top of the same log.
pub proof fn law_failed_batch_is_forgotten(
    base: StoreV,
    b: Seq<MemberV>,
    flight: FlightV,
    now: StoreV,
    e: ErrorV,
    env: EnvV,
)
    requires
        fly_first(b, flight),
        tended(now, flight),
        told_all(base, flight, now, env),
    ensures
        told_all(base, flight.skip(b.len() as int), settled(now, b, Err(e)), env),
        tended(settled(now, b, Err(e)), flight.skip(b.len() as int)),
{
    let n = b.len() as int;
    let head = flight.take(n);
    let none = none_published(b.len());
    assert(fates_fit(head, none));
    lemma_told_behind(base, flight, now, none, n, env);
    lemma_retold_nothing(base, head, 0, env);
    lemma_dropped(now, b, flight, 0);
    lemma_tended_rest(now, flight, none, n);
}

// ---- rollbacks ------------------------------------------------------------------------------------

proof fn lemma_give_up_twice(rows: Seq<VersionV>, me: u64, o: u64, fate: Option<u64>)
    requires
        o != me,
        o != 0,
        me != 0,
    ensures
        rows_fulfilled(given_up(rows, me), o, fate) == given_up(
            rows_fulfilled(rows, o, fate),
            me,
        ),
    decreases rows.len(),
{
    if rows.len() == 0 {
        assert(given_up(rows, me) =~= rows);
        assert(rows_fulfilled(rows, o, fate) =~= rows) by {
            match fate {
                Some(_) => {},
                None => {
                    assert(given_up(rows, o) =~= rows);
                },
            }
        }
    } else {
        let head = rows.drop_last();
        let x = rows.last();
        lemma_split_last(rows);
        lemma_give_up_twice(head, me, o, fate);
        lemma_given_up_snoc(head, x, me);
        match fate {
            Some(mark) => {
                let y = finalized(x, o, mark);
                assert(finalized_rows(rows, o, mark) =~= finalized_rows(head, o, mark).push(y));
                lemma_given_up_snoc(finalized_rows(head, o, mark), y, me);
                match left_of(x, me) {
                    Some(z) => {
                        assert(finalized_rows(given_up(rows, me), o, mark) =~= finalized_rows(
                            given_up(head, me),
                            o,
                            mark,
                        ).push(finalized(z, o, mark)));
                    },
                    None => {},
                }
            },
            None => {
                lemma_given_up_snoc(head, x, o);
                match left_of(x, o) {
                    Some(y) => {
                        lemma_given_up_snoc(given_up(head, o), y, me);
                    },
                    None => {},
                }
                match left_of(x, me) {
                    Some(z) => {
                        lemma_given_up_snoc(given_up(head, me), z, o);
                    },
                    None => {},
                }
            },
        }
    }
}

proof fn lemma_rows_given_up(
    rows: Seq<VersionV>,
    flight: FlightV,
    fates: Seq<Option<u64>>,
    i: int,
    me: u64,
)
    requires
        0 <= i,
        owners_differ(flight),
        !flies(flight, me),
        me != 0,
    ensures
        rows_from(given_up(rows, me), flight, fates, i) == given_up(
            rows_from(rows, flight, fates, i),
            me,
        ),
    decreases flight.len() - i,
{
    if i < flight.len() {
        let o = flight[i].0;
        assert(o != me);
        lemma_give_up_twice(rows, me, o, fates[i]);
        lemma_rows_given_up(rows_fulfilled(rows, o, fates[i]), flight, fates, i + 1, me);
    }
}

/// A transaction that is rolled back, or whose connection closes, is as good as never
/// begun: the others tell what may become of them without it.
pub proof fn law_rollback_is_forgotten(
    base: StoreV,
    flight: FlightV,
    s: StoreV,
    me: u64,
    wal: Seq<WalOpV>,
    env: EnvV,
)
    requires
        tended(s, flight.push((me, wal))),
        told_all(base, flight.push((me, wal)), s, env),
    ensures
        told_all(base, flight, rolled_back(s, me, Seq::empty()), env),
        tended(rolled_back(s, me, Seq::empty()), flight),
{
    let all = flight.push((me, wal));
    let after = rolled_back(s, me, Seq::empty());
    lemma_apart_from_last(flight, me, wal);
    assert forall|fates: Seq<Option<u64>>| fates_fit(flight, fates) implies #[trigger] foretold(
        base,
        flight,
        fates,
        after,
        env,
    ) by {
        let more = fates.push(None);
        assert forall|i: int| 0 <= i < more.len() implies #[trigger] more[i] != Some(PENDING) by {
            if i < fates.len() {
                assert(more[i] == fates[i]);
            }
        }
        assert(fates_fit(all, more));
        assert(foretold(base, all, more, s, env));
        lemma_last_fate(base, s, flight, fates, me, wal, None, env);
        lemma_fulfilled(s, flight, fates, 0);
        lemma_fulfilled(after, flight, fates, 0);
        let x = fulfilled_from(after, flight, fates, 0);
        let y = rolled_back(fulfilled_from(s, flight, fates, 0), me, Seq::empty());
        assert forall|i: int| 0 <= i < x.tables.len() implies #[trigger] x.tables[i]
            == y.tables[i] by {
            assert(after.tables[i].rows == given_up(s.tables[i].rows, me));
            lemma_rows_given_up(s.tables[i].rows, flight, fates, 0, me);
        }
        assert(x.tables =~= y.tables);
    }
    assert forall|i: int| 0 <= i < after.tables.len() implies rows_tended(
        (#[trigger] after.tables[i]).rows,
        flight,
    ) by {
        let rows = s.tables[i].rows;
        let now = after.tables[i].rows;
        assert(now == given_up(rows, me));
        assert(rows_tended(rows, all));
        lemma_tended_by_last(rows, flight, me, wal);
        assert forall|k: int| 0 <= k < now.len() implies orderly(#[trigger] now[k]) && (
        now[k].owner == 0 || flies(flight, now[k].owner)) by {
            lemma_left_was_there(rows, me, k);
            let j = choose|j: int|
                0 <= j < rows.len() && left_of(#[trigger] rows[j], me) == Some(now[k]);
            assert(orderly(rows[j]));
            if rows[j].owner != me && rows[j].owner != 0 {
                let m = choose|m: int|
                    0 <= m < flight.len() && (#[trigger] flight[m]).0 == rows[j].owner;
                assert(flight[m].0 == now[k].owner);
            }
        }
    }
}

/// What is told of a store is told of every store like it. So a rollback to a
/// savepoint, which restores every row, restores what is told.
pub proof fn law_like_stores_are_told_alike(
    base: StoreV,
    flight: FlightV,
    a: StoreV,
    b: StoreV,
    env: EnvV,
)
    requires
        alike(a, b),
        told_all(base, flight, a, env),
        tended(a, flight),
    ensures
        told_all(base, flight, b, env),
        tended(b, flight),
{
    assert forall|fates: Seq<Option<u64>>| fates_fit(flight, fates) implies #[trigger] foretold(
        base,
        flight,
        fates,
        b,
        env,
    ) by {
        assert(foretold(base, flight, fates, a, env));
        lemma_fulfilled(a, flight, fates, 0);
        lemma_fulfilled(b, flight, fates, 0);
        let r = retold_from(base, flight, fates, 0, env)->Ok_0;
        let x = fulfilled_from(a, flight, fates, 0);
        let y = fulfilled_from(b, flight, fates, 0);
        assert forall|i: int| 0 <= i < r.tables.len() implies (#[trigger] r.tables[i]).schema
            == y.tables[i].schema && r.tables[i].rows == y.tables[i].rows by {
            assert(r.tables[i].schema == x.tables[i].schema);
            assert(a.tables[i].schema == b.tables[i].schema);
        }
    }
    assert forall|i: int| 0 <= i < b.tables.len() implies rows_tended(
        (#[trigger] b.tables[i]).rows,
        flight,
    ) by {
        assert(rows_tended(a.tables[i].rows, flight));
        assert(a.tables[i].rows == b.tables[i].rows);
    }
}

} // verus!
