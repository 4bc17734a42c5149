//! What writes keep of the primary key.
use vstd::prelude::*;
use crate::catalog::{column_pos, key_columns, PolicyCommand, SchemaV};
use crate::constraints::{cells_at, key_at, taken_from};
use crate::env::EnvV;
use crate::eval::{ev, CtxV};
use crate::inserts::{
    assigned_from, clash_rules, clashed, freed, held, holder_of, insert_draft, inserted, live_from,
    put_row, put_rows_from, replaced, staged_of, terms_of, upsert_ctx, upsert_row, with_cell,
    ProgressV, TermsV,
};
use crate::sql::{ExprV, FromV, InsertSourceV, ItemV, OnConflictV};
use crate::store::{
    table_pos, version_pos, with_table, writer_sees, PENDING, StoreV, TableV, VersionV,
};
use crate::updates::{
    change_rows, change_vids, changes_of, changes_put_from, keys_fresh, sources_of, updated,
};
use crate::value::{coerced, RowV};
use crate::writelaws::{
    lemma_appended, lemma_changes, lemma_freed_noted, lemma_version_pos, stampable, vids_ok,
};
use crate::writes::{
    appended, fresh_draft, pending_version, slots_of, stamped, superseded, DraftV, WriteV,
};

verus! {

/// No two rows that the writer `me` sees as live have the same key.
pub open spec fn keys_distinct(rows: Seq<VersionV>, pk: Seq<usize>, lsn: u64, me: u64) -> bool {
    forall|i: int, j: int|
        #![trigger rows[i], rows[j]]
        0 <= i < rows.len() && 0 <= j < rows.len() && writer_sees(rows[i], lsn, me) && writer_sees(
            rows[j],
            lsn,
            me,
        ) && key_at(rows[i].values, pk) == key_at(rows[j].values, pk) ==> i == j
}

// ---- INSERT ---------------------------------------------------------------------------------------

proof fn lemma_holder_push(live: Seq<(Seq<char>, u64)>, e: (Seq<char>, u64), key: Seq<char>, n: int)
    requires
        0 <= n <= live.len(),
    ensures
        holder_of(live.push(e), key, n) == holder_of(live, key, n),
    decreases n,
{
    if n > 0 {
        assert(live.push(e)[n - 1] == live[n - 1]);
        lemma_holder_push(live, e, key, n - 1);
    }
}

/// The first `n` rows, where they are live, are the holders of their keys.
pub open spec fn holders_ok(
    rows: Seq<VersionV>,
    live: Seq<(Seq<char>, u64)>,
    pk: Seq<usize>,
    lsn: u64,
    me: u64,
    n: int,
) -> bool {
    forall|j: int|
        0 <= j < n && j < rows.len() && writer_sees(#[trigger] rows[j], lsn, me) ==> holder_of(
            live,
            key_at(rows[j].values, pk),
            live.len() as int,
        ) == Some(rows[j].vid)
}

pub proof fn lemma_live_holders(
    rows: Seq<VersionV>,
    pk: Seq<usize>,
    lsn: u64,
    me: u64,
    i: int,
    acc: Seq<(Seq<char>, u64)>,
)
    requires
        0 <= i,
        keys_distinct(rows, pk, lsn, me),
        holders_ok(rows, acc, pk, lsn, me, i),
    ensures
        holders_ok(
            rows,
            live_from(rows, pk, lsn, me, i, acc),
            pk,
            lsn,
            me,
            rows.len() as int,
        ),
    decreases rows.len() - i,
{
    if i < rows.len() {
        if writer_sees(rows[i], lsn, me) {
            let e = (key_at(rows[i].values, pk), rows[i].vid);
            let next = acc.push(e);
            assert forall|j: int|
                0 <= j < i + 1 && j < rows.len() && writer_sees(#[trigger] rows[j], lsn, me) implies holder_of(
                next,
                key_at(rows[j].values, pk),
                next.len() as int,
            ) == Some(rows[j].vid) by {
                let kj = key_at(rows[j].values, pk);
                if j < i {
                    if kj == e.0 {
                        assert(rows[i] == rows[i]);
                        assert(i == j);
                    }
                    lemma_holder_push(acc, e, kj, acc.len() as int);
                }
            }
            lemma_live_holders(rows, pk, lsn, me, i + 1, next);
        } else {
            lemma_live_holders(rows, pk, lsn, me, i + 1, acc);
        }
    }
}

/// Every version under a noted key has that key.
pub open spec fn entries_ok(t: TableV, live: Seq<(Seq<char>, u64)>, pk: Seq<usize>) -> bool {
    &&& forall|a: int| 0 <= a < live.len() ==> (#[trigger] live[a]).1 < t.next_vid
    &&& forall|a: int, j: int|
        #![trigger live[a], t.rows[j]]
        0 <= a < live.len() && 0 <= j < t.rows.len() && t.rows[j].vid == live[a].1 ==> key_at(
            t.rows[j].values,
            pk,
        ) == live[a].0
}

pub proof fn lemma_holder_noted(live: Seq<(Seq<char>, u64)>, key: Seq<char>, n: int)
    requires
        holder_of(live, key, n) is Some,
    ensures
        exists|a: int| 0 <= a < live.len() && #[trigger] live[a] == (key, holder_of(live, key, n)->0),
    decreases n,
{
    if live[n - 1].0 == key {
        assert(live[n - 1] == (key, live[n - 1].1));
    } else {
        lemma_holder_noted(live, key, n - 1);
    }
}

pub proof fn lemma_live_entries(
    t: TableV,
    pk: Seq<usize>,
    lsn: u64,
    me: u64,
    i: int,
    acc: Seq<(Seq<char>, u64)>,
)
    requires
        0 <= i,
        vids_ok(t),
        entries_ok(t, acc, pk),
    ensures
        entries_ok(t, live_from(t.rows, pk, lsn, me, i, acc), pk),
    decreases t.rows.len() - i,
{
    if i < t.rows.len() {
        if writer_sees(t.rows[i], lsn, me) {
            let e = (key_at(t.rows[i].values, pk), t.rows[i].vid);
            let next = acc.push(e);
            assert forall|a: int| 0 <= a < next.len() implies (#[trigger] next[a]).1
                < t.next_vid by {
                if a < acc.len() {
                    assert(acc[a].1 < t.next_vid);
                }
            }
            assert forall|a: int, j: int|
                #![trigger next[a], t.rows[j]]
                0 <= a < next.len() && 0 <= j < t.rows.len() && t.rows[j].vid == next[a].1 implies key_at(
                t.rows[j].values,
                pk,
            ) == next[a].0 by {
                if a < acc.len() {
                    assert(next[a] == acc[a]);
                } else {
                    assert(t.rows[i].vid == t.rows[j].vid);
                }
            }
            lemma_live_entries(t, pk, lsn, me, i + 1, next);
        } else {
            lemma_live_entries(t, pk, lsn, me, i + 1, acc);
        }
    }
}

/// A key that was freed has no holder, and every other has the one that it had.
pub proof fn lemma_freed(live: Seq<(Seq<char>, u64)>, key: Seq<char>, other: Seq<char>)
    ensures
        holder_of(freed(live, key), other, freed(live, key).len() as int) == (if other == key {
            None
        } else {
            holder_of(live, other, live.len() as int)
        }),
    decreases live.len(),
{
    if live.len() > 0 {
        let head = live.drop_last();
        let rest = freed(head, key);
        lemma_freed(head, key, other);
        assert(live =~= head.push(live.last()));
        lemma_holder_push(head, live.last(), other, head.len() as int);
        if live.last().0 != key {
            lemma_holder_push(rest, live.last(), other, rest.len() as int);
        }
    }
}

/// What is kept while rows are put in: every live row holds its key.
pub open spec fn held_ok(t: TermsV, p: ProgressV, lsn: u64) -> bool {
    &&& vids_ok(p.draft.table)
    &&& holders_ok(
        p.draft.table.rows,
        p.live,
        t.pk,
        lsn,
        t.owner,
        p.draft.table.rows.len() as int,
    )
    &&& entries_ok(p.draft.table, p.live, t.pk)
}

pub proof fn lemma_vids_appended(d: DraftV, name: Seq<char>, row: RowV, owner: u64)
    requires
        vids_ok(d.table),
        appended(d, name, row, owner) is Ok,
    ensures
        vids_ok(appended(d, name, row, owner)->Ok_0.table),
{
    lemma_appended(d.table.rows, d, name, row, owner, 0);
}

/// A version added under a key that no live row has.
proof fn lemma_held_ok(t: TermsV, p: ProgressV, key: Seq<char>, row: RowV, lsn: u64)
    requires
        held_ok(t, p, lsn),
        key == key_at(row, t.pk),
        held(t, p, key, row) is Ok,
        forall|j: int|
            0 <= j < p.draft.table.rows.len() && writer_sees(
                #[trigger] p.draft.table.rows[j],
                lsn,
                t.owner,
            ) ==> key_at(p.draft.table.rows[j].values, t.pk) != key,
    ensures
        held_ok(t, held(t, p, key, row)->Ok_0, lsn),
{
    let q = held(t, p, key, row)->Ok_0;
    let rows = p.draft.table.rows;
    let new = q.draft.table.rows;
    let vid = p.draft.table.next_vid;
    lemma_vids_appended(p.draft, t.name, row, t.owner);
    assert(new =~= rows.push(pending_version(vid, row, t.owner)));
    assert forall|j: int|
        0 <= j < new.len() && writer_sees(#[trigger] new[j], lsn, t.owner) implies holder_of(
        q.live,
        key_at(new[j].values, t.pk),
        q.live.len() as int,
    ) == Some(new[j].vid) by {
        let kj = key_at(new[j].values, t.pk);
        if j < rows.len() {
            assert(new[j] == rows[j]);
            assert(kj != key);
            lemma_holder_push(p.live, (key, vid), kj, p.live.len() as int);
        }
    }
    assert(entries_ok(q.draft.table, q.live, t.pk)) by {
        assert forall|a: int| 0 <= a < q.live.len() implies (#[trigger] q.live[a]).1
            < q.draft.table.next_vid by {
            if a < p.live.len() {
                assert(p.live[a].1 < p.draft.table.next_vid);
            }
        }
        assert forall|a: int, j: int|
            #![trigger q.live[a], new[j]]
            0 <= a < q.live.len() && 0 <= j < new.len() && new[j].vid == q.live[a].1 implies key_at(
            new[j].values,
            t.pk,
        ) == q.live[a].0 by {
            if a < p.live.len() {
                assert(q.live[a] == p.live[a]);
                assert(p.live[a].1 < p.draft.table.next_vid);
                if j < rows.len() {
                    assert(new[j] == rows[j]);
                }
            } else if j < rows.len() {
                assert(new[j] == rows[j]);
                assert(rows[j].vid < p.draft.table.next_vid);
            }
        }
    }
}

pub proof fn lemma_vids_stamped(d: DraftV, name: Seq<char>, vid: u64, owner: u64)
    requires
        vids_ok(d.table),
    ensures
        vids_ok(superseded(d, name, vid, owner).table),
{
    let rows = d.table.rows;
    let e = superseded(d, name, vid, owner);
    let new = e.table.rows;
    lemma_version_pos(rows, vid, 0);
    assert forall|a: int, b: int|
        #![trigger new[a], new[b]]
        0 <= a < new.len() && 0 <= b < new.len() && new[a].vid == new[b].vid implies a == b by {
        assert(rows[a].vid == rows[b].vid);
    }
    assert forall|a: int| 0 <= a < new.len() implies (#[trigger] new[a]).vid < e.table.next_vid by {
        assert(rows[a].vid < d.table.next_vid);
    }
}

/// Once the holder of a key is stamped and the key is free, every live row holds its
/// key still, and none has that one.
pub proof fn lemma_superseded_held(t: TermsV, p: ProgressV, key: Seq<char>, vid: u64, lsn: u64)
    requires
        held_ok(t, p, lsn),
        holder_of(p.live, key, p.live.len() as int) == Some(vid),
    ensures
        ({
            let m = ProgressV {
                draft: superseded(p.draft, t.name, vid, t.owner),
                live: freed(p.live, key),
            };
            let now = m.draft.table.rows;
            &&& held_ok(t, m, lsn)
            &&& forall|j: int|
                0 <= j < now.len() && writer_sees(#[trigger] now[j], lsn, t.owner) ==> key_at(
                    now[j].values,
                    t.pk,
                ) != key
        }),
{
    let rows = p.draft.table.rows;
    let d = superseded(p.draft, t.name, vid, t.owner);
    let m = ProgressV { draft: d, live: freed(p.live, key) };
    let now = d.table.rows;
    lemma_vids_stamped(p.draft, t.name, vid, t.owner);
    lemma_version_pos(rows, vid, 0);
    assert forall|j: int|
        0 <= j < now.len() && writer_sees(#[trigger] now[j], lsn, t.owner) implies now[j] == rows[j]
        && key_at(now[j].values, t.pk) != key by {
        if now[j] != rows[j] {
            assert(now[j] == stamped(rows[j], t.owner));
        }
        if key_at(rows[j].values, t.pk) == key {
            assert(rows[j].vid == vid);
            let i = version_pos(rows, vid, 0)->0;
            assert(rows[i].vid == rows[j].vid);
        }
    }
    assert(held_ok(t, m, lsn)) by {
        assert forall|j: int|
            0 <= j < now.len() && writer_sees(#[trigger] now[j], lsn, t.owner) implies holder_of(
            m.live,
            key_at(now[j].values, t.pk),
            m.live.len() as int,
        ) == Some(now[j].vid) by {
            assert(now[j] == rows[j]);
            lemma_freed(p.live, key, key_at(now[j].values, t.pk));
        }
        assert forall|a: int, j: int|
            #![trigger m.live[a], now[j]]
            0 <= a < m.live.len() && 0 <= j < now.len() && now[j].vid == m.live[a].1 implies key_at(
            now[j].values,
            t.pk,
        ) == m.live[a].0 by {
            lemma_freed_noted(p.live, key, a);
            let b = choose|b: int| 0 <= b < p.live.len() && p.live[b] == m.live[a];
            assert(rows[j].vid == p.live[b].1);
        }
        assert forall|a: int| 0 <= a < m.live.len() implies (#[trigger] m.live[a]).1
            < d.table.next_vid by {
            lemma_freed_noted(p.live, key, a);
            let b = choose|b: int| 0 <= b < p.live.len() && p.live[b] == m.live[a];
            assert(p.live[b].1 < p.draft.table.next_vid);
        }
    }
}

/// A row that replaces another holds its own key, which no other live row has.
pub proof fn lemma_replaced_held(t: TermsV, p: ProgressV, key: Seq<char>, vid: u64, row: RowV, lsn: u64)
    requires
        held_ok(t, p, lsn),
        holder_of(p.live, key, p.live.len() as int) == Some(vid),
        replaced(t, p, key, vid, row) is Ok,
    ensures
        held_ok(t, replaced(t, p, key, vid, row)->Ok_0, lsn),
{
    let m = ProgressV {
        draft: superseded(p.draft, t.name, vid, t.owner),
        live: freed(p.live, key),
    };
    lemma_superseded_held(t, p, key, vid, lsn);
    lemma_held_ok(t, m, key_at(row, t.pk), row, lsn);
}

pub proof fn lemma_put_row_keys(t: TermsV, p: ProgressV, row: RowV, tick: u64, lsn: u64)
    requires
        held_ok(t, p, lsn),
        put_row(t, p, row, tick) is Ok,
        t.pk.len() > 0,
    ensures
        held_ok(t, put_row(t, p, row, tick)->Ok_0, lsn),
{
    let key = key_at(row, t.pk);
    match holder_of(p.live, key, p.live.len() as int) {
        None => {
            lemma_held_ok(t, p, key, row, lsn);
        },
        Some(vid) => match clashed(t, p.draft, vid, row, tick) {
            Ok(Some(new)) => {
                lemma_replaced_held(t, p, key, vid, new, lsn);
            },
            _ => {},
        },
    }
}

proof fn lemma_put_rows_keys(t: TermsV, rows: Seq<RowV>, i: int, p: ProgressV, lsn: u64)
    requires
        held_ok(t, p, lsn),
        put_rows_from(t, rows, i, p) is Ok,
        t.pk.len() > 0,
    ensures
        held_ok(t, put_rows_from(t, rows, i, p)->Ok_0, lsn),
    decreases rows.len() - i,
{
    if 0 <= i < rows.len() {
        lemma_put_row_keys(t, p, rows[i], i as u64, lsn);
        lemma_put_rows_keys(t, rows, i + 1, put_row(t, p, rows[i], i as u64)->Ok_0, lsn);
    }
}

/// An `INSERT` keeps the primary key: where no two live rows had the same key, no
/// two have it afterwards, whatever is done on a clash.
pub proof fn law_insert_keeps_keys(
    s: StoreV,
    name: Seq<char>,
    columns: Option<Seq<Seq<char>>>,
    source: InsertSourceV,
    on_conflict: OnConflictV,
    returning: Option<Seq<ItemV>>,
    wc: WriteV,
    i: int,
)
    requires
        table_pos(s, name) == Some(i),
        0 <= i < s.tables.len(),
        vids_ok(s.tables[i]),
        key_columns(s.tables[i].schema.columns).len() > 0,
        keys_distinct(
            s.tables[i].rows,
            key_columns(s.tables[i].schema.columns),
            s.committed_lsn,
            wc.owner,
        ),
        inserted(s, name, columns, source, on_conflict, returning, wc) is Ok,
    ensures
        keys_distinct(
            inserted(s, name, columns, source, on_conflict, returning, wc)->Ok_0.0.tables[i].rows,
            key_columns(s.tables[i].schema.columns),
            s.committed_lsn,
            wc.owner,
        ),
{
    let t0 = s.tables[i];
    let lsn = s.committed_lsn;
    let slots = slots_of(s, t0.schema, columns, source, wc)->Ok_0;
    let (rows, auto) = staged_of(slots, t0.schema, name, t0.next_autoinc, wc.env)->Ok_0;
    let t = TableV { next_autoinc: auto, ..t0 };
    let terms = terms_of(
        s,
        t0,
        name,
        on_conflict,
        clash_rules(t0.schema, on_conflict, wc.env)->Ok_0,
        wc,
    );
    let p = ProgressV {
        draft: fresh_draft(t),
        live: live_from(t.rows, terms.pk, lsn, wc.owner, 0, Seq::empty()),
    };
    assert(vids_ok(t)) by {
        assert(t.rows == t0.rows);
        assert forall|a: int| 0 <= a < t.rows.len() implies (#[trigger] t.rows[a]).vid
            < t.next_vid by {
            assert(t0.rows[a].vid < t0.next_vid);
        }
    }
    lemma_live_holders(t.rows, terms.pk, lsn, wc.owner, 0, Seq::empty());
    lemma_live_entries(t, terms.pk, lsn, wc.owner, 0, Seq::empty());
    lemma_put_rows_keys(terms, rows, 0, p, lsn);
    let q = put_rows_from(terms, rows, 0, p)->Ok_0;
    let d = insert_draft(s, t0, name, columns, source, on_conflict, wc)->Ok_0;
    assert(d == q.draft);
    assert(with_table(s, i, d.table).tables[i] == d.table);
    let now = d.table.rows;
    assert forall|a: int, b: int|
        #![trigger now[a], now[b]]
        0 <= a < now.len() && 0 <= b < now.len() && writer_sees(now[a], lsn, wc.owner)
            && writer_sees(now[b], lsn, wc.owner) && key_at(now[a].values, terms.pk) == key_at(
            now[b].values,
            terms.pk,
        ) implies a == b by {
        assert(now[a].vid == now[b].vid);
    }
}

proof fn lemma_assigned_key(
    sets: Seq<(Seq<char>, ExprV)>,
    schema: SchemaV,
    c: CtxV,
    env: EnvV,
    i: int,
    row: RowV,
    pk: Seq<usize>,
)
    requires
        0 <= i,
        spares_columns(sets, schema, pk),
    ensures
        assigned_from(sets, schema, c, env, i, row) matches Ok(new) ==> key_at(new, pk) == key_at(
            row,
            pk,
        ),
    decreases sets.len() - i,
{
    if i < sets.len() {
        match column_pos(schema, sets[i].0) {
            Some(p) => match ev(sets[i].1, c, env) {
                Ok(v) => match coerced(env.reals, schema.columns[p as int].ty, v) {
                    Ok(w) => {
                        let next = with_cell(row, p, w);
                        assert(cells_at(next, pk) =~= cells_at(row, pk)) by {
                            assert forall|k: int| 0 <= k < pk.len() implies cells_at(next, pk)[k]
                                == cells_at(row, pk)[k] by {
                                assert(pk.contains(pk[k]));
                            }
                        }
                        lemma_assigned_key(sets, schema, c, env, i + 1, next, pk);
                    },
                    Err(_) => {},
                },
                Err(_) => {},
            },
            None => {},
        }
    }
}

/// No assignment is to one of the columns.
pub open spec fn spares_columns(
    sets: Seq<(Seq<char>, ExprV)>,
    schema: SchemaV,
    cols: Seq<usize>,
) -> bool {
    forall|k: int|
        0 <= k < sets.len() ==> match column_pos(schema, (#[trigger] sets[k]).0) {
            Some(p) => !cols.contains(p),
            None => true,
        }
}

/// `ON CONFLICT DO UPDATE` leaves the key of a row as it is where it assigns to no key
/// column.
pub proof fn law_upsert_keeps_key(
    t: TermsV,
    existing: VersionV,
    row: RowV,
    sets: Seq<(Seq<char>, ExprV)>,
    filter: Option<ExprV>,
    tick: u64,
)
    requires
        spares_columns(sets, t.schema, t.pk),
    ensures
        upsert_row(t, existing, row, sets, filter, tick) matches Ok(Some(new)) ==> key_at(new, t.pk)
            == key_at(existing.values, t.pk),
{
    lemma_assigned_key(
        sets,
        t.schema,
        upsert_ctx(t, existing.values, row, tick),
        t.env,
        0,
        existing.values,
        t.pk,
    );
}

// ---- UPDATE ---------------------------------------------------------------------------------------

/// The keys of rows that were let through are new and differ from each other.
proof fn lemma_keys_fresh(
    rows: Seq<RowV>,
    pk: Seq<usize>,
    contended: Seq<Seq<char>>,
    taken: Seq<Seq<char>>,
    name: Seq<char>,
    names: Seq<char>,
    i: int,
)
    requires
        0 <= i,
        keys_fresh(rows, pk, contended, taken, name, names, i) is Ok,
    ensures
        forall|a: int|
            i <= a < rows.len() ==> !taken.contains(key_at(#[trigger] rows[a], pk)),
        forall|a: int, b: int|
            #![trigger rows[a], rows[b]]
            i <= a < b < rows.len() ==> key_at(rows[a], pk) != key_at(rows[b], pk),
    decreases rows.len() - i,
{
    if i < rows.len() {
        let key = key_at(rows[i], pk);
        let next = taken.push(key);
        lemma_keys_fresh(rows, pk, contended, next, name, names, i + 1);
        assert forall|a: int| i <= a < rows.len() implies !taken.contains(
            key_at(#[trigger] rows[a], pk),
        ) by {
            if a > i {
                let k = key_at(rows[a], pk);
                if taken.contains(k) {
                    let m = choose|m: int| 0 <= m < taken.len() && taken[m] == k;
                    assert(next[m] == k);
                    assert(next.contains(k));
                }
            }
        }
        assert forall|a: int, b: int|
            #![trigger rows[a], rows[b]]
            i <= a < b < rows.len() implies key_at(rows[a], pk) != key_at(rows[b], pk) by {
            if a == i {
                assert(next[taken.len() as int] == key);
                assert(next.contains(key));
                assert(!next.contains(key_at(rows[b], pk)));
            }
        }
    }
}

/// The key of every live row that is not left out is taken.
proof fn lemma_taken(
    rows: Seq<VersionV>,
    pk: Seq<usize>,
    exclude: Seq<u64>,
    lsn: u64,
    me: u64,
    i: int,
    acc: Seq<Seq<char>>,
    k: Seq<char>,
)
    requires
        0 <= i,
        acc.contains(k) || exists|j: int|
            i <= j < rows.len() && !exclude.contains((#[trigger] rows[j]).vid) && writer_sees(
                rows[j],
                lsn,
                me,
            ) && key_at(rows[j].values, pk) == k,
    ensures
        taken_from(rows, pk, exclude, lsn, me, false, i, acc).contains(k),
    decreases rows.len() - i,
{
    if i < rows.len() {
        let v = rows[i];
        let next = if exclude.contains(v.vid) || !writer_sees(v, lsn, me) {
            acc
        } else {
            acc.push(key_at(v.values, pk))
        };
        if acc.contains(k) {
            let m = choose|m: int| 0 <= m < acc.len() && acc[m] == k;
            assert(next[m] == k);
            assert(next.contains(k));
        } else {
            let j = choose|j: int|
                i <= j < rows.len() && !exclude.contains((#[trigger] rows[j]).vid) && writer_sees(
                    rows[j],
                    lsn,
                    me,
                ) && key_at(rows[j].values, pk) == k;
            if j == i {
                assert(next[acc.len() as int] == k);
                assert(next.contains(k));
            } else {
                assert(!exclude.contains(rows[j].vid));
            }
        }
        lemma_taken(rows, pk, exclude, lsn, me, i + 1, next, k);
    }
}

/// How far a draft has come: the first `i` changes made, each replaced version
/// stamped, the others as they were, and the new ones in order behind them.
pub open spec fn half_changed(
    old: Seq<VersionV>,
    d: DraftV,
    c: Seq<(u64, RowV)>,
    owner: u64,
    i: int,
) -> bool {
    let now = d.table.rows;
    &&& vids_ok(d.table)
    &&& now.len() == old.len() + i
    &&& forall|j: int|
        0 <= j < old.len() ==> (#[trigger] now[j]).vid == old[j].vid && (if change_vids(
            c.take(i),
        ).contains(old[j].vid) {
            now[j] == stamped(old[j], owner)
        } else {
            now[j] == old[j]
        })
    &&& forall|m: int|
        0 <= m < i ==> (#[trigger] now[old.len() + m]).values == c[m].1 && now[old.len()
            + m].create_lsn == PENDING && now[old.len() + m].delete_lsn == 0 && now[old.len()
            + m].owner == owner
}

pub proof fn lemma_half_changed(
    old: Seq<VersionV>,
    d: DraftV,
    name: Seq<char>,
    c: Seq<(u64, RowV)>,
    owner: u64,
    i: int,
)
    requires
        0 <= i <= c.len(),
        half_changed(old, d, c, owner, i),
        forall|k: int|
            0 <= k < c.len() ==> exists|j: int|
                0 <= j < old.len() && (#[trigger] old[j]).vid == (#[trigger] c[k]).0,
        changes_put_from(d, name, c, owner, i) is Ok,
    ensures
        half_changed(
            old,
            changes_put_from(d, name, c, owner, i)->Ok_0,
            c,
            owner,
            c.len() as int,
        ),
    decreases c.len() - i,
{
    if i < c.len() {
        let vid = c[i].0;
        let rows = d.table.rows;
        let e = superseded(d, name, vid, owner);
        lemma_vids_stamped(d, name, vid, owner);
        lemma_version_pos(rows, vid, 0);
        let j0 = choose|j: int| 0 <= j < old.len() && (#[trigger] old[j]).vid == c[i].0;
        assert(rows[j0].vid == vid);
        let p = version_pos(rows, vid, 0)->0;
        assert(rows[p].vid == rows[j0].vid);
        assert(p == j0);
        let f = appended(e, name, c[i].1, owner)->Ok_0;
        lemma_vids_appended(e, name, c[i].1, owner);
        let now = f.table.rows;
        let before = change_vids(c.take(i));
        let after = change_vids(c.take(i + 1));
        assert(after =~= before.push(vid));
        assert forall|j: int| 0 <= j < old.len() implies (#[trigger] now[j]).vid == old[j].vid && (
        if after.contains(old[j].vid) {
            now[j] == stamped(old[j], owner)
        } else {
            now[j] == old[j]
        }) by {
            assert(rows[j].vid == old[j].vid);
            if before.contains(old[j].vid) {
                let m = choose|m: int| 0 <= m < before.len() && before[m] == old[j].vid;
                assert(after[m] == old[j].vid);
            }
            if old[j].vid == vid {
                assert(rows[j].vid == rows[p].vid);
                assert(j == p);
                assert(after[i] == vid);
                assert(after.contains(vid));
            } else if after.contains(old[j].vid) {
                let m = choose|m: int| 0 <= m < after.len() && after[m] == old[j].vid;
                assert(m < i);
                assert(before[m] == old[j].vid);
                assert(before.contains(old[j].vid));
            }
        }
        assert forall|m: int| 0 <= m < i + 1 implies (#[trigger] now[old.len() + m]).values
            == c[m].1 && now[old.len() + m].create_lsn == PENDING && now[old.len() + m].delete_lsn
            == 0 && now[old.len() + m].owner == owner by {
            if m < i {
                assert(rows[old.len() + m].values == c[m].1);
            }
        }
        lemma_half_changed(old, f, name, c, owner, i + 1);
    }
}

/// An `UPDATE` keeps the primary key: where no two live rows had the same key, no
/// two have it afterwards.
pub proof fn law_update_keeps_keys(
    s: StoreV,
    name: Seq<char>,
    sets: Seq<(Seq<char>, ExprV)>,
    from: Option<FromV>,
    filter: Option<ExprV>,
    returning: Option<Seq<ItemV>>,
    wc: WriteV,
    i: int,
)
    requires
        table_pos(s, name) == Some(i),
        0 <= i < s.tables.len(),
        vids_ok(s.tables[i]),
        key_columns(s.tables[i].schema.columns).len() > 0,
        keys_distinct(
            s.tables[i].rows,
            key_columns(s.tables[i].schema.columns),
            s.committed_lsn,
            wc.owner,
        ),
        updated(s, name, sets, from, filter, returning, wc) is Ok,
    ensures
        keys_distinct(
            updated(s, name, sets, from, filter, returning, wc)->Ok_0.0.tables[i].rows,
            key_columns(s.tables[i].schema.columns),
            s.committed_lsn,
            wc.owner,
        ),
{
    let t = s.tables[i];
    let old = t.rows;
    let lsn = s.committed_lsn;
    let me = wc.owner;
    let pk = key_columns(t.schema.columns);
    let c = changes_of(s, t, name, sets, from, filter, wc)->Ok_0;
    let rules = crate::constraints::rules_of(t.schema, PolicyCommand::Update, wc.env)->Ok_0;
    let src = sources_of(s, t.schema, name, from, wc)->Ok_0;
    lemma_changes(
        old,
        t.schema,
        name,
        sets,
        src,
        filter,
        rules,
        wc,
        0,
        Seq::empty(),
        lsn,
    );
    assert forall|k: int| 0 <= k < c.len() implies exists|j: int|
        0 <= j < old.len() && (#[trigger] old[j]).vid == (#[trigger] c[k]).0 by {
        assert(stampable(old, old, c[k].0, lsn));
        let j = choose|j: int|
            0 <= j < old.len() && (#[trigger] old[j]).vid == c[k].0 && (j >= old.len()
                || crate::writelaws::alive(old[j], lsn));
        assert(old[j].vid == c[k].0);
    }
    let d0 = fresh_draft(t);
    assert(half_changed(old, d0, c, me, 0)) by {
        assert(change_vids(c.take(0)) =~= Seq::<u64>::empty());
    }
    lemma_half_changed(old, d0, name, c, me, 0);
    let d = changes_put_from(d0, name, c, me, 0)->Ok_0;
    assert(with_table(s, i, d.table).tables[i] == d.table);
    assert(c.take(c.len() as int) =~= c);
    let vids = change_vids(c);
    let rows = change_rows(c);
    let taken = taken_from(old, pk, vids, lsn, me, false, 0, Seq::empty());
    let contended = crate::constraints::contended_from(
        old,
        pk,
        vids,
        lsn,
        me,
        0,
        Seq::empty(),
    );
    lemma_keys_fresh(
        rows,
        pk,
        contended,
        taken,
        name,
        crate::constraints::names_joined(t.schema, pk),
        0,
    );
    let now = d.table.rows;
    assert forall|a: int, b: int|
        #![trigger now[a], now[b]]
        0 <= a < now.len() && 0 <= b < now.len() && writer_sees(now[a], lsn, me) && writer_sees(
            now[b],
            lsn,
            me,
        ) && key_at(now[a].values, pk) == key_at(now[b].values, pk) implies a == b by {
        if a < old.len() || b >= old.len() {
            lemma_pair(old, now, d, c, pk, lsn, me, a, b, taken);
        } else {
            lemma_pair(old, now, d, c, pk, lsn, me, b, a, taken);
        }
    }
}

/// Two live rows after the changes, the first an old one, do not share a key; nor
/// do two new ones.
proof fn lemma_pair(
    old: Seq<VersionV>,
    now: Seq<VersionV>,
    d: DraftV,
    c: Seq<(u64, RowV)>,
    pk: Seq<usize>,
    lsn: u64,
    me: u64,
    a: int,
    b: int,
    taken: Seq<Seq<char>>,
)
    requires
        now == d.table.rows,
        half_changed(old, d, c, me, c.len() as int),
        c.take(c.len() as int) == c,
        keys_distinct(old, pk, lsn, me),
        taken == taken_from(old, pk, change_vids(c), lsn, me, false, 0, Seq::empty()),
        forall|k: int|
            0 <= k < change_rows(c).len() ==> !taken.contains(
                key_at(#[trigger] change_rows(c)[k], pk),
            ),
        forall|k: int, m: int|
            #![trigger change_rows(c)[k], change_rows(c)[m]]
            0 <= k < m < change_rows(c).len() ==> key_at(change_rows(c)[k], pk) != key_at(
                change_rows(c)[m],
                pk,
            ),
        0 <= a < now.len(),
        0 <= b < now.len(),
        writer_sees(now[a], lsn, me),
        writer_sees(now[b], lsn, me),
        key_at(now[a].values, pk) == key_at(now[b].values, pk),
        a < old.len() || (old.len() <= a && old.len() <= b),
    ensures
        a == b,
{
    let n = old.len() as int;
    if a < n {
        assert(now[a] == old[a]);
        assert(!change_vids(c).contains(old[a].vid));
        let k = key_at(old[a].values, pk);
        if b < n {
            assert(now[b] == old[b]);
        } else {
            lemma_taken(old, pk, change_vids(c), lsn, me, 0, Seq::empty(), k);
            let m = b - n;
            assert(now[n + m].values == c[m].1);
            assert(change_rows(c)[m] == c[m].1);
            assert(!taken.contains(key_at(change_rows(c)[m], pk)));
        }
    } else {
        let x = a - n;
        let y = b - n;
        assert(now[n + x].values == c[x].1);
        assert(now[n + y].values == c[y].1);
        assert(change_rows(c)[x] == c[x].1);
        assert(change_rows(c)[y] == c[y].1);
        if x < y {
            assert(key_at(change_rows(c)[x], pk) != key_at(change_rows(c)[y], pk));
        } else if y < x {
            assert(key_at(change_rows(c)[y], pk) != key_at(change_rows(c)[x], pk));
        }
    }
}

} // verus!
