//! What every write keeps.
use vstd::prelude::*;
use crate::catalog::{PolicyCommand, SchemaV};
use crate::constraints::key_at;
use crate::inserts::{
    clash_rules, clashed, freed, held, holder_of, insert_draft, inserted, live_from, put_row,
    put_rows_from, staged_of, terms_of, ProgressV, TermsV,
};
use crate::policy::{guard_of, GuardV};
use crate::relation::RelationV;
use crate::sql::{ExprV, FromV, InsertSourceV, ItemV, OnConflictV};
use crate::store::{
    reader_sees, table_pos, version_pos, with_table, writer_sees, PENDING, StoreV, TableV, VersionV,
};
use crate::updates::{
    changed_row, changes_from, changes_of, changes_put_from, delete_draft, deleted, deletes_from,
    deletes_put_from, sources_of, touched, update_draft, updated,
};
use crate::value::RowV;
use crate::writes::{
    appended, fresh_draft, pending_version, slots_of, stamped, superseded, DraftV, WriteV,
};

verus! {

/// What holds of the version ids of every table: each is used once, and the next
/// one is still free.
pub open spec fn vids_ok(t: TableV) -> bool {
    &&& forall|i: int, j: int|
        #![trigger t.rows[i], t.rows[j]]
        0 <= i < t.rows.len() && 0 <= j < t.rows.len() && t.rows[i].vid == t.rows[j].vid ==> i == j
    &&& forall|i: int| 0 <= i < t.rows.len() ==> (#[trigger] t.rows[i]).vid < t.next_vid
}

/// Not deleted as of `lsn`.
pub open spec fn alive(v: VersionV, lsn: u64) -> bool {
    v.delete_lsn == 0 || v.delete_lsn > lsn
}

/// A version as it was, or, if it was alive, stamped as deleted by `owner`.
pub open spec fn kept(a: VersionV, b: VersionV, owner: u64, lsn: u64) -> bool {
    b == a || (b == stamped(a, owner) && alive(a, lsn))
}

/// Versions are only added, as pending ones of `owner`, or stamped.
pub open spec fn grown(old: Seq<VersionV>, new: Seq<VersionV>, owner: u64, lsn: u64) -> bool {
    &&& new.len() >= old.len()
    &&& forall|i: int| 0 <= i < old.len() ==> kept(old[i], #[trigger] new[i], owner, lsn)
    &&& forall|i: int|
        old.len() <= i < new.len() ==> (#[trigger] new[i]).create_lsn == PENDING && new[i].owner
            == owner
}

pub proof fn lemma_version_pos(rows: Seq<VersionV>, vid: u64, i: int)
    requires
        0 <= i,
    ensures
        match version_pos(rows, vid, i) {
            Some(k) => i <= k < rows.len() && rows[k].vid == vid,
            None => forall|k: int| i <= k < rows.len() ==> (#[trigger] rows[k]).vid != vid,
        },
    decreases rows.len() - i,
{
    if i < rows.len() && rows[i].vid != vid {
        lemma_version_pos(rows, vid, i + 1);
    }
}

/// Whether a version id belongs to a row that may be stamped.
pub open spec fn stampable(old: Seq<VersionV>, now: Seq<VersionV>, vid: u64, lsn: u64) -> bool {
    exists|j: int|
        0 <= j < now.len() && (#[trigger] now[j]).vid == vid && (j >= old.len() || alive(
            old[j],
            lsn,
        ))
}

/// What is kept while a draft grows out of the rows `old`.
pub open spec fn draft_ok(old: Seq<VersionV>, d: DraftV, owner: u64, lsn: u64) -> bool {
    vids_ok(d.table) && grown(old, d.table.rows, owner, lsn)
}

pub proof fn lemma_superseded(
    old: Seq<VersionV>,
    d: DraftV,
    name: Seq<char>,
    vid: u64,
    owner: u64,
    lsn: u64,
)
    requires
        draft_ok(old, d, owner, lsn),
        stampable(old, d.table.rows, vid, lsn),
    ensures
        draft_ok(old, superseded(d, name, vid, owner), owner, lsn),
        superseded(d, name, vid, owner).table.rows.len() == d.table.rows.len(),
        forall|u: u64| #[trigger]
            stampable(old, d.table.rows, u, lsn) ==> stampable(
                old,
                superseded(d, name, vid, owner).table.rows,
                u,
                lsn,
            ),
{
    let rows = d.table.rows;
    let e = superseded(d, name, vid, owner);
    lemma_version_pos(rows, vid, 0);
    let j = choose|j: int|
        0 <= j < rows.len() && (#[trigger] rows[j]).vid == vid && (j >= old.len() || alive(
            old[j],
            lsn,
        ));
    let i = version_pos(rows, vid, 0)->0;
    assert(rows[i].vid == rows[j].vid);
    assert(i == j);
    let new = e.table.rows;
    assert(new =~= rows.update(i, stamped(rows[i], owner)));
    assert forall|k: int| 0 <= k < old.len() implies kept(old[k], #[trigger] new[k], owner, lsn) by {
        assert(kept(old[k], rows[k], owner, lsn));
    }
    assert forall|k: int| old.len() <= k < new.len() implies (#[trigger] new[k]).create_lsn
        == PENDING && new[k].owner == owner by {
        assert(rows[k].create_lsn == PENDING && rows[k].owner == owner);
    }
    assert forall|a: int, b: int|
        #![trigger new[a], new[b]]
        0 <= a < new.len() && 0 <= b < new.len() && new[a].vid == new[b].vid implies a == b by {
        assert(rows[a].vid == rows[b].vid);
    }
    assert forall|a: int| 0 <= a < new.len() implies (#[trigger] new[a]).vid < e.table.next_vid by {
        assert(rows[a].vid < d.table.next_vid);
    }
    assert forall|u: u64| #[trigger] stampable(old, rows, u, lsn) implies stampable(
        old,
        new,
        u,
        lsn,
    ) by {
        let a = choose|a: int|
            0 <= a < rows.len() && (#[trigger] rows[a]).vid == u && (a >= old.len() || alive(
                old[a],
                lsn,
            ));
        assert(new[a].vid == u);
    }
}

pub proof fn lemma_appended(
    old: Seq<VersionV>,
    d: DraftV,
    name: Seq<char>,
    row: RowV,
    owner: u64,
    lsn: u64,
)
    requires
        draft_ok(old, d, owner, lsn),
        appended(d, name, row, owner) is Ok,
    ensures
        draft_ok(old, appended(d, name, row, owner)->Ok_0, owner, lsn),
        stampable(
            old,
            appended(d, name, row, owner)->Ok_0.table.rows,
            d.table.next_vid,
            lsn,
        ),
        forall|u: u64| #[trigger]
            stampable(old, d.table.rows, u, lsn) ==> stampable(
                old,
                appended(d, name, row, owner)->Ok_0.table.rows,
                u,
                lsn,
            ),
{
    let rows = d.table.rows;
    let e = appended(d, name, row, owner)->Ok_0;
    let new = e.table.rows;
    let n = rows.len() as int;
    assert(new =~= rows.push(pending_version(d.table.next_vid, row, owner)));
    assert forall|k: int| 0 <= k < old.len() implies kept(old[k], #[trigger] new[k], owner, lsn) by {
        assert(kept(old[k], rows[k], owner, lsn));
    }
    assert forall|k: int| old.len() <= k < new.len() implies (#[trigger] new[k]).create_lsn
        == PENDING && new[k].owner == owner by {
        if k < n {
            assert(rows[k].create_lsn == PENDING && rows[k].owner == owner);
        }
    }
    assert forall|a: int, b: int|
        #![trigger new[a], new[b]]
        0 <= a < new.len() && 0 <= b < new.len() && new[a].vid == new[b].vid implies a == b by {
        if a < n {
            assert(rows[a].vid < d.table.next_vid);
        }
        if b < n {
            assert(rows[b].vid < d.table.next_vid);
        }
        if a < n && b < n {
            assert(rows[a].vid == rows[b].vid);
        }
    }
    assert forall|a: int| 0 <= a < new.len() implies (#[trigger] new[a]).vid < e.table.next_vid by {
        if a < n {
            assert(rows[a].vid < d.table.next_vid);
        }
    }
    assert(new[n].vid == d.table.next_vid);
    assert forall|u: u64| #[trigger] stampable(old, rows, u, lsn) implies stampable(
        old,
        new,
        u,
        lsn,
    ) by {
        let a = choose|a: int|
            0 <= a < rows.len() && (#[trigger] rows[a]).vid == u && (a >= old.len() || alive(
                old[a],
                lsn,
            ));
        assert(new[a].vid == u);
    }
}

// ---- INSERT ---------------------------------------------------------------------------------------

/// What is kept while the rows of an `INSERT` are put in.
pub open spec fn progress_ok(old: Seq<VersionV>, p: ProgressV, owner: u64, lsn: u64) -> bool {
    &&& draft_ok(old, p.draft, owner, lsn)
    &&& forall|k: int|
        0 <= k < p.live.len() ==> stampable(
            old,
            p.draft.table.rows,
            (#[trigger] p.live[k]).1,
            lsn,
        )
}

pub proof fn lemma_holder(live: Seq<(Seq<char>, u64)>, key: Seq<char>, n: int)
    requires
        0 <= n <= live.len(),
    ensures
        match holder_of(live, key, n) {
            Some(v) => exists|k: int| 0 <= k < n && live[k] == (key, v),
            None => forall|k: int| 0 <= k < n ==> (#[trigger] live[k]).0 != key,
        },
    decreases n,
{
    if n > 0 {
        if live[n - 1].0 == key {
            assert(live[n - 1] == (key, live[n - 1].1));
        } else {
            lemma_holder(live, key, n - 1);
        }
    }
}

/// What is held after a key was freed was held before.
pub proof fn lemma_freed_noted(live: Seq<(Seq<char>, u64)>, key: Seq<char>, a: int)
    requires
        0 <= a < freed(live, key).len(),
    ensures
        live.contains(freed(live, key)[a]),
    decreases live.len(),
{
    let head = live.drop_last();
    if a < freed(head, key).len() {
        lemma_freed_noted(head, key, a);
        let e = freed(live, key)[a];
        let b = choose|b: int| 0 <= b < head.len() && head[b] == e;
        assert(live[b] == e);
    } else {
        assert(live[live.len() - 1] == freed(live, key)[a]);
    }
}

proof fn lemma_put_row(old: Seq<VersionV>, t: TermsV, p: ProgressV, row: RowV, tick: u64, lsn: u64)
    requires
        progress_ok(old, p, t.owner, lsn),
        put_row(t, p, row, tick) is Ok,
    ensures
        progress_ok(old, put_row(t, p, row, tick)->Ok_0, t.owner, lsn),
{
    let q = put_row(t, p, row, tick)->Ok_0;
    if t.pk.len() == 0 {
        lemma_appended(old, p.draft, t.name, row, t.owner, lsn);
        assert forall|k: int| 0 <= k < q.live.len() implies stampable(
            old,
            q.draft.table.rows,
            (#[trigger] q.live[k]).1,
            lsn,
        ) by {
            assert(stampable(old, p.draft.table.rows, p.live[k].1, lsn));
        }
    } else {
        let key = key_at(row, t.pk);
        lemma_holder(p.live, key, p.live.len() as int);
        match holder_of(p.live, key, p.live.len() as int) {
            None => {
                lemma_held(old, t, p, key, row, lsn);
            },
            Some(vid) => {
                match clashed(t, p.draft, vid, row, tick) {
                    Ok(Some(new)) => {
                        let k = choose|k: int| 0 <= k < p.live.len() && p.live[k] == (key, vid);
                        assert(stampable(old, p.draft.table.rows, p.live[k].1, lsn));
                        lemma_superseded(old, p.draft, t.name, vid, t.owner, lsn);
                        let m = ProgressV {
                            draft: superseded(p.draft, t.name, vid, t.owner),
                            live: freed(p.live, key),
                        };
                        assert forall|k: int| 0 <= k < m.live.len() implies stampable(
                            old,
                            m.draft.table.rows,
                            (#[trigger] m.live[k]).1,
                            lsn,
                        ) by {
                            lemma_freed_noted(p.live, key, k);
                            let b = choose|b: int| 0 <= b < p.live.len() && p.live[b] == m.live[k];
                            assert(stampable(old, p.draft.table.rows, p.live[b].1, lsn));
                        }
                        lemma_held(old, t, m, key_at(new, t.pk), new, lsn);
                    },
                    _ => {},
                }
            },
        }
    }
}

proof fn lemma_held(old: Seq<VersionV>, t: TermsV, p: ProgressV, key: Seq<char>, row: RowV, lsn: u64)
    requires
        progress_ok(old, p, t.owner, lsn),
        held(t, p, key, row) is Ok,
    ensures
        progress_ok(old, held(t, p, key, row)->Ok_0, t.owner, lsn),
{
    let q = held(t, p, key, row)->Ok_0;
    lemma_appended(old, p.draft, t.name, row, t.owner, lsn);
    assert forall|k: int| 0 <= k < q.live.len() implies stampable(
        old,
        q.draft.table.rows,
        (#[trigger] q.live[k]).1,
        lsn,
    ) by {
        if k < p.live.len() {
            assert(stampable(old, p.draft.table.rows, p.live[k].1, lsn));
        }
    }
}

proof fn lemma_put_rows(old: Seq<VersionV>, t: TermsV, rows: Seq<RowV>, i: int, p: ProgressV, lsn: u64)
    requires
        progress_ok(old, p, t.owner, lsn),
        put_rows_from(t, rows, i, p) is Ok,
    ensures
        progress_ok(old, put_rows_from(t, rows, i, p)->Ok_0, t.owner, lsn),
    decreases rows.len() - i,
{
    if 0 <= i < rows.len() {
        lemma_put_row(old, t, p, rows[i], i as u64, lsn);
        lemma_put_rows(old, t, rows, i + 1, put_row(t, p, rows[i], i as u64)->Ok_0, lsn);
    }
}

pub open spec fn live_ok(rows: Seq<VersionV>, live: Seq<(Seq<char>, u64)>, lsn: u64) -> bool {
    forall|k: int| 0 <= k < live.len() ==> stampable(rows, rows, (#[trigger] live[k]).1, lsn)
}

/// Every held key is that of a row that is alive.
proof fn lemma_live(
    rows: Seq<VersionV>,
    pk: Seq<usize>,
    lsn: u64,
    me: u64,
    i: int,
    acc: Seq<(Seq<char>, u64)>,
)
    requires
        0 <= i,
        lsn < PENDING,
        live_ok(rows, acc, lsn),
    ensures
        live_ok(rows, live_from(rows, pk, lsn, me, i, acc), lsn),
    decreases rows.len() - i,
{
    if i < rows.len() {
        if writer_sees(rows[i], lsn, me) {
            assert(rows[i].vid == rows[i].vid && alive(rows[i], lsn));
            assert(stampable(rows, rows, rows[i].vid, lsn));
            let next = acc.push((key_at(rows[i].values, pk), rows[i].vid));
            assert forall|k: int| 0 <= k < next.len() implies stampable(
                rows,
                rows,
                (#[trigger] next[k]).1,
                lsn,
            ) by {
                if k < acc.len() {
                    assert(stampable(rows, rows, acc[k].1, lsn));
                }
            }
            lemma_live(rows, pk, lsn, me, i + 1, next);
        } else {
            lemma_live(rows, pk, lsn, me, i + 1, acc);
        }
    }
}

/// What a write to the table `name` leaves of a store: all but that table, and of
/// its versions every one as it was or stamped as deleted by `owner`, with pending
/// versions of `owner` behind them.
pub open spec fn written_over(s: StoreV, name: Seq<char>, after: StoreV, owner: u64, lsn: u64) -> bool {
    match table_pos(s, name) {
        None => false,
        Some(i) => {
            &&& after == with_table(s, i, after.tables[i])
            &&& after.tables[i].schema == s.tables[i].schema
            &&& vids_ok(after.tables[i])
            &&& grown(s.tables[i].rows, after.tables[i].rows, owner, lsn)
        },
    }
}

proof fn lemma_draft_schema(t: TermsV, rows: Seq<RowV>, i: int, p: ProgressV)
    requires
        put_rows_from(t, rows, i, p) is Ok,
    ensures
        put_rows_from(t, rows, i, p)->Ok_0.draft.table.schema == p.draft.table.schema,
    decreases rows.len() - i,
{
    if 0 <= i < rows.len() {
        lemma_draft_schema(t, rows, i + 1, put_row(t, p, rows[i], i as u64)->Ok_0);
    }
}

/// An `INSERT` that succeeds only adds pending versions of its writer and stamps
/// those that it replaces; nothing is overwritten, and no other table changes.
pub proof fn law_insert_only_adds(
    s: StoreV,
    name: Seq<char>,
    columns: Option<Seq<Seq<char>>>,
    source: InsertSourceV,
    on_conflict: OnConflictV,
    returning: Option<Seq<ItemV>>,
    wc: WriteV,
)
    requires
        forall|i: int| 0 <= i < s.tables.len() ==> vids_ok(#[trigger] s.tables[i]),
        s.committed_lsn < PENDING,
        table_pos(s, name) matches Some(i) ==> 0 <= i < s.tables.len(),
        inserted(s, name, columns, source, on_conflict, returning, wc) is Ok,
    ensures
        written_over(
            s,
            name,
            inserted(s, name, columns, source, on_conflict, returning, wc)->Ok_0.0,
            wc.owner,
            s.committed_lsn,
        ),
{
    let i = table_pos(s, name)->0;
    let t0 = s.tables[i];
    let lsn = s.committed_lsn;
    let slots = slots_of(s, t0.schema, columns, source, wc)->Ok_0;
    let (rows, auto) = staged_of(slots, t0.schema, name, t0.next_autoinc, wc.env)->Ok_0;
    let t = TableV { next_autoinc: auto, ..t0 };
    let terms = terms_of(
        s,
        t0,
        name,
        on_conflict,
        clash_rules(t0.schema, on_conflict, wc.env)->Ok_0,
        wc,
    );
    let p = ProgressV {
        draft: fresh_draft(t),
        live: live_from(t.rows, terms.pk, lsn, wc.owner, 0, Seq::empty()),
    };
    assert(vids_ok(t0));
    assert(vids_ok(t)) by {
        assert(t.rows == t0.rows);
        assert forall|a: int| 0 <= a < t.rows.len() implies (#[trigger] t.rows[a]).vid
            < t.next_vid by {
            assert(t0.rows[a].vid < t0.next_vid);
        }
    }
    lemma_live(t.rows, terms.pk, lsn, wc.owner, 0, Seq::empty());
    lemma_put_rows(t.rows, terms, rows, 0, p, lsn);
    lemma_draft_schema(terms, rows, 0, p);
    let d = insert_draft(s, t0, name, columns, source, on_conflict, wc)->Ok_0;
    assert(d == put_rows_from(terms, rows, 0, p)->Ok_0.draft);
    let after = with_table(s, i, d.table);
    assert(after.tables[i] == d.table);
}

// ---- UPDATE and DELETE ----------------------------------------------------------------------------

/// Every change names a row that may be stamped.
pub open spec fn changes_ok(old: Seq<VersionV>, now: Seq<VersionV>, c: Seq<(u64, RowV)>, lsn: u64) -> bool {
    forall|k: int| 0 <= k < c.len() ==> stampable(old, now, (#[trigger] c[k]).0, lsn)
}

pub proof fn lemma_changes(
    rows: Seq<VersionV>,
    schema: SchemaV,
    name: Seq<char>,
    sets: Seq<(Seq<char>, ExprV)>,
    src: Option<RelationV>,
    filter: Option<ExprV>,
    rules: crate::constraints::RulesV,
    wc: WriteV,
    i: int,
    acc: Seq<(u64, RowV)>,
    lsn: u64,
)
    requires
        0 <= i,
        changes_ok(rows, rows, acc, lsn),
        changes_from(rows, schema, name, sets, src, filter, rules, wc, i, acc) is Ok,
    ensures
        changes_ok(
            rows,
            rows,
            changes_from(rows, schema, name, sets, src, filter, rules, wc, i, acc)->Ok_0,
            lsn,
        ),
    decreases rows.len() - i,
{
    if i < rows.len() {
        let r = changed_row(rows[i], i as u64, schema, name, sets, src, filter, rules, wc);
        match r {
            Ok(Some(row)) => {
                let next = acc.push((rows[i].vid, row));
                assert(alive(rows[i], lsn));
                assert(stampable(rows, rows, rows[i].vid, lsn));
                assert forall|k: int| 0 <= k < next.len() implies stampable(
                    rows,
                    rows,
                    (#[trigger] next[k]).0,
                    lsn,
                ) by {
                    if k < acc.len() {
                        assert(stampable(rows, rows, acc[k].0, lsn));
                    }
                }
                lemma_changes(
                    rows,
                    schema,
                    name,
                    sets,
                    src,
                    filter,
                    rules,
                    wc,
                    i + 1,
                    next,
                    lsn,
                );
            },
            _ => {
                lemma_changes(
                    rows,
                    schema,
                    name,
                    sets,
                    src,
                    filter,
                    rules,
                    wc,
                    i + 1,
                    acc,
                    lsn,
                );
            },
        }
    }
}

proof fn lemma_changes_put(
    old: Seq<VersionV>,
    d: DraftV,
    name: Seq<char>,
    c: Seq<(u64, RowV)>,
    owner: u64,
    i: int,
    lsn: u64,
)
    requires
        0 <= i,
        draft_ok(old, d, owner, lsn),
        changes_ok(old, d.table.rows, c, lsn),
        changes_put_from(d, name, c, owner, i) is Ok,
    ensures
        draft_ok(old, changes_put_from(d, name, c, owner, i)->Ok_0, owner, lsn),
        changes_put_from(d, name, c, owner, i)->Ok_0.table.schema == d.table.schema,
    decreases c.len() - i,
{
    if i < c.len() {
        assert(stampable(old, d.table.rows, c[i].0, lsn));
        lemma_superseded(old, d, name, c[i].0, owner, lsn);
        let e = superseded(d, name, c[i].0, owner);
        lemma_appended(old, e, name, c[i].1, owner, lsn);
        let f = appended(e, name, c[i].1, owner)->Ok_0;
        assert forall|k: int| 0 <= k < c.len() implies stampable(
            old,
            f.table.rows,
            (#[trigger] c[k]).0,
            lsn,
        ) by {
            assert(stampable(old, d.table.rows, c[k].0, lsn));
            assert(stampable(old, e.table.rows, c[k].0, lsn));
        }
        lemma_changes_put(old, f, name, c, owner, i + 1, lsn);
    }
}

/// An `UPDATE` that succeeds stamps the versions it replaces and adds pending ones
/// behind the rest; nothing is overwritten, and no other table changes.
pub proof fn law_update_only_adds(
    s: StoreV,
    name: Seq<char>,
    sets: Seq<(Seq<char>, ExprV)>,
    from: Option<FromV>,
    filter: Option<ExprV>,
    returning: Option<Seq<ItemV>>,
    wc: WriteV,
)
    requires
        forall|i: int| 0 <= i < s.tables.len() ==> vids_ok(#[trigger] s.tables[i]),
        table_pos(s, name) matches Some(i) ==> 0 <= i < s.tables.len(),
        updated(s, name, sets, from, filter, returning, wc) is Ok,
    ensures
        written_over(
            s,
            name,
            updated(s, name, sets, from, filter, returning, wc)->Ok_0.0,
            wc.owner,
            s.committed_lsn,
        ),
{
    let i = table_pos(s, name)->0;
    let t = s.tables[i];
    let lsn = s.committed_lsn;
    let c = changes_of(s, t, name, sets, from, filter, wc)->Ok_0;
    let rules = crate::constraints::rules_of(t.schema, PolicyCommand::Update, wc.env)->Ok_0;
    let src = sources_of(s, t.schema, name, from, wc)->Ok_0;
    lemma_changes(
        t.rows,
        t.schema,
        name,
        sets,
        src,
        filter,
        rules,
        wc,
        0,
        Seq::empty(),
        lsn,
    );
    assert(vids_ok(t));
    lemma_changes_put(t.rows, fresh_draft(t), name, c, wc.owner, 0, lsn);
    let d = update_draft(s, t, name, sets, from, filter, wc)->Ok_0;
    assert(with_table(s, i, d.table).tables[i] == d.table);
}

proof fn lemma_deletes(
    rows: Seq<VersionV>,
    schema: SchemaV,
    guard: GuardV,
    src: Option<RelationV>,
    filter: Option<ExprV>,
    wc: WriteV,
    i: int,
    acc: Seq<(u64, RowV)>,
    lsn: u64,
)
    requires
        0 <= i,
        changes_ok(rows, rows, acc, lsn),
        deletes_from(rows, schema, guard, src, filter, wc, i, acc) is Ok,
    ensures
        changes_ok(
            rows,
            rows,
            deletes_from(rows, schema, guard, src, filter, wc, i, acc)->Ok_0,
            lsn,
        ),
    decreases rows.len() - i,
{
    if i < rows.len() {
        if !writer_sees(rows[i], wc.snapshot, wc.owner) {
            lemma_deletes(rows, schema, guard, src, filter, wc, i + 1, acc, lsn);
        } else {
            match touched(guard, filter, schema, src, rows[i].values, i as u64, wc.env) {
                Ok(Some(_)) => {
                    let next = acc.push((rows[i].vid, rows[i].values));
                    assert(alive(rows[i], lsn));
                    assert(stampable(rows, rows, rows[i].vid, lsn));
                    assert forall|k: int| 0 <= k < next.len() implies stampable(
                        rows,
                        rows,
                        (#[trigger] next[k]).0,
                        lsn,
                    ) by {
                        if k < acc.len() {
                            assert(stampable(rows, rows, acc[k].0, lsn));
                        }
                    }
                    lemma_deletes(rows, schema, guard, src, filter, wc, i + 1, next, lsn);
                },
                _ => {
                    lemma_deletes(rows, schema, guard, src, filter, wc, i + 1, acc, lsn);
                },
            }
        }
    }
}

proof fn lemma_deletes_put(
    old: Seq<VersionV>,
    d: DraftV,
    name: Seq<char>,
    c: Seq<(u64, RowV)>,
    owner: u64,
    i: int,
    lsn: u64,
)
    requires
        0 <= i,
        draft_ok(old, d, owner, lsn),
        d.table.rows.len() == old.len(),
        changes_ok(old, d.table.rows, c, lsn),
    ensures
        draft_ok(old, deletes_put_from(d, name, c, owner, i), owner, lsn),
        deletes_put_from(d, name, c, owner, i).table.rows.len() == old.len(),
        deletes_put_from(d, name, c, owner, i).table.schema == d.table.schema,
    decreases c.len() - i,
{
    if i < c.len() {
        assert(stampable(old, d.table.rows, c[i].0, lsn));
        lemma_superseded(old, d, name, c[i].0, owner, lsn);
        let e = superseded(d, name, c[i].0, owner);
        assert forall|k: int| 0 <= k < c.len() implies stampable(
            old,
            e.table.rows,
            (#[trigger] c[k]).0,
            lsn,
        ) by {
            assert(stampable(old, d.table.rows, c[k].0, lsn));
        }
        lemma_deletes_put(old, e, name, c, owner, i + 1, lsn);
    }
}

/// A `DELETE` that succeeds stamps versions and does nothing else: none is added,
/// none is overwritten, and no other table changes.
pub proof fn law_delete_only_stamps(
    s: StoreV,
    name: Seq<char>,
    using: Option<FromV>,
    filter: Option<ExprV>,
    returning: Option<Seq<ItemV>>,
    wc: WriteV,
)
    requires
        forall|i: int| 0 <= i < s.tables.len() ==> vids_ok(#[trigger] s.tables[i]),
        table_pos(s, name) matches Some(i) ==> 0 <= i < s.tables.len(),
        deleted(s, name, using, filter, returning, wc) is Ok,
    ensures
        written_over(
            s,
            name,
            deleted(s, name, using, filter, returning, wc)->Ok_0.0,
            wc.owner,
            s.committed_lsn,
        ),
        ({
            let i = table_pos(s, name)->0;
            deleted(s, name, using, filter, returning, wc)->Ok_0.0.tables[i].rows.len()
                == s.tables[i].rows.len()
        }),
{
    let i = table_pos(s, name)->0;
    let t = s.tables[i];
    let lsn = s.committed_lsn;
    let src = sources_of(s, t.schema, name, using, wc)->Ok_0;
    let guard = guard_of(t.schema, PolicyCommand::Delete, wc.env)->Ok_0;
    let c = deletes_from(t.rows, t.schema, guard, src, filter, wc, 0, Seq::empty())->Ok_0;
    lemma_deletes(t.rows, t.schema, guard, src, filter, wc, 0, Seq::empty(), lsn);
    assert(vids_ok(t));
    lemma_deletes_put(t.rows, fresh_draft(t), name, c, wc.owner, 0, lsn);
    let d = delete_draft(s, t, name, using, filter, wc)->Ok_0;
    assert(with_table(s, i, d.table).tables[i] == d.table);
}

/// What is not committed nobody else sees: a reader at any published snapshot sees
/// of a table after a write exactly what it saw before.
pub proof fn law_writes_are_private(
    s: StoreV,
    name: Seq<char>,
    after: StoreV,
    owner: u64,
    snapshot: u64,
    i: int,
    k: int,
)
    requires
        written_over(s, name, after, owner, s.committed_lsn),
        snapshot <= s.committed_lsn < PENDING,
        table_pos(s, name) == Some(i),
        0 <= i < s.tables.len(),
        0 <= k < after.tables[i].rows.len(),
    ensures
        reader_sees(after.tables[i].rows[k], snapshot) == (k < s.tables[i].rows.len()
            && reader_sees(s.tables[i].rows[k], snapshot)),
        k < s.tables[i].rows.len() ==> after.tables[i].rows[k].values
            == s.tables[i].rows[k].values,
{
    let old = s.tables[i].rows;
    let new = after.tables[i].rows;
    if k < old.len() {
        assert(kept(old[k], new[k], owner, s.committed_lsn));
    } else {
        assert(new[k].create_lsn == PENDING);
    }
}

} // verus!
