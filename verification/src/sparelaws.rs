//! What writes leave of others' pending versions.
use vstd::prelude::*;
use crate::apartlaws::lemma_deleted_rows;
use crate::catalog::PolicyCommand;
use crate::constraintlaws::{
    is_sound, law_updated_rows_are_valid, lemma_victims, may_go, sound_change, sound_victim,
};
use crate::constraints::{contested, key_at, rules_of};
use crate::inserts::{
    clash_rules, clashed, freed, held, holder_of, insert_draft, inserted, live_from, put_row,
    put_rows_from, staged_of, terms_of, ProgressV, TermsV,
};
use crate::policy::guard_of;
use crate::primarylaws::{half_changed, lemma_half_changed};
use crate::sql::{ExprV, FromV, InsertSourceV, ItemV, OnConflictV};
use crate::store::{
    table_pos, version_pos, with_table, writer_sees, PENDING, StoreV, TableV, VersionV,
};
use crate::updates::{
    change_vids, changes_of, changes_put_from, delete_draft, deleted, deletes_from, sources_of,
    updated,
};
use crate::value::RowV;
use crate::writelaws::{lemma_freed_noted, lemma_holder, lemma_version_pos, vids_ok};
use crate::writes::{fresh_draft, pending_version, slots_of, stamped, superseded, WriteV};

verus! {

/// Whether another writer than `me` is creating or deleting a version.
pub open spec fn anothers(v: VersionV, me: u64) -> bool {
    v.owner != me && (v.create_lsn == PENDING || v.delete_lsn == PENDING)
}

/// Every version that another writer is creating or deleting is as it was.
pub open spec fn spares_others(old: Seq<VersionV>, now: Seq<VersionV>, me: u64) -> bool {
    &&& old.len() <= now.len()
    &&& forall|k: int|
        0 <= k < old.len() && anothers(#[trigger] old[k], me) ==> now[k] == old[k]
}

// ---- INSERT ---------------------------------------------------------------------------------------

/// What is kept while rows are put in: others' versions, the ids, and that no noted
/// holder of a key is one that another is creating.
spec fn sparing(old: Seq<VersionV>, p: ProgressV, me: u64) -> bool {
    let rows = p.draft.table.rows;
    &&& spares_others(old, rows, me)
    &&& vids_ok(p.draft.table)
    &&& forall|k: int| 0 <= k < old.len() ==> (#[trigger] rows[k]).vid == old[k].vid
    &&& forall|a: int, k: int|
        #![trigger p.live[a], old[k]]
        0 <= a < p.live.len() && 0 <= k < old.len() && old[k].vid == p.live[a].1 ==> !(
        old[k].create_lsn == PENDING && old[k].owner != me)
    &&& forall|a: int| 0 <= a < p.live.len() ==> (#[trigger] p.live[a]).1 < p.draft.table.next_vid
}

proof fn lemma_appended_sparing(old: Seq<VersionV>, p: ProgressV, row: RowV, me: u64)
    requires
        sparing(old, p, me),
        p.draft.table.next_vid < u64::MAX,
    ensures
        ({
            let t = p.draft.table;
            let rows = t.rows.push(pending_version(t.next_vid, row, me));
            let next = TableV { rows, next_vid: (t.next_vid + 1) as u64, ..t };
            vids_ok(next) && spares_others(old, rows, me) && forall|k: int|
                0 <= k < old.len() ==> (#[trigger] rows[k]).vid == old[k].vid
        }),
{
    let t = p.draft.table;
    let rows = t.rows.push(pending_version(t.next_vid, row, me));
    assert forall|i: int, j: int|
        #![trigger rows[i], rows[j]]
        0 <= i < rows.len() && 0 <= j < rows.len() && rows[i].vid == rows[j].vid implies i == j by {
        if i < t.rows.len() {
            assert(t.rows[i].vid < t.next_vid);
        }
        if j < t.rows.len() {
            assert(t.rows[j].vid < t.next_vid);
        }
        if i < t.rows.len() && j < t.rows.len() {
            assert(t.rows[i].vid == t.rows[j].vid);
        }
    }
    assert forall|i: int| 0 <= i < rows.len() implies (#[trigger] rows[i]).vid < t.next_vid + 1 by {
        if i < t.rows.len() {
            assert(t.rows[i].vid < t.next_vid);
        }
    }
    assert forall|k: int| 0 <= k < old.len() implies (#[trigger] rows[k]).vid == old[k].vid by {
        assert(rows[k] == t.rows[k]);
    }
    assert forall|k: int| 0 <= k < old.len() && anothers(#[trigger] old[k], me) implies rows[k]
        == old[k] by {
        assert(rows[k] == t.rows[k]);
    }
}

proof fn lemma_held_sparing(old: Seq<VersionV>, t: TermsV, p: ProgressV, key: Seq<char>, row: RowV)
    requires
        sparing(old, p, t.owner),
        held(t, p, key, row) is Ok,
    ensures
        sparing(old, held(t, p, key, row)->Ok_0, t.owner),
{
    let q = held(t, p, key, row)->Ok_0;
    lemma_appended_sparing(old, p, row, t.owner);
    let vid = p.draft.table.next_vid;
    assert forall|a: int, k: int|
        #![trigger q.live[a], old[k]]
        0 <= a < q.live.len() && 0 <= k < old.len() && old[k].vid == q.live[a].1 implies !(
    old[k].create_lsn == PENDING && old[k].owner != t.owner) by {
        if a < p.live.len() {
            assert(q.live[a] == p.live[a]);
        } else {
            assert(p.draft.table.rows[k].vid == old[k].vid);
            assert(p.draft.table.rows[k].vid < vid);
        }
    }
    assert forall|a: int| 0 <= a < q.live.len() implies (#[trigger] q.live[a]).1
        < q.draft.table.next_vid by {
        if a < p.live.len() {
            assert(p.live[a].1 < vid);
        }
    }
}

/// A version that is replaced or changed is none that another has in hand.
proof fn lemma_clash_sparing(
    old: Seq<VersionV>,
    t: TermsV,
    p: ProgressV,
    vid: u64,
    row: RowV,
    tick: u64,
    key: Seq<char>,
)
    requires
        sparing(old, p, t.owner),
        holder_of(p.live, key, p.live.len() as int) == Some(vid),
        clashed(t, p.draft, vid, row, tick) matches Ok(Some(_)),
    ensures
        sparing(
            old,
            ProgressV { draft: superseded(p.draft, t.name, vid, t.owner), ..p },
            t.owner,
        ),
{
    let me = t.owner;
    let rows = p.draft.table.rows;
    let d = superseded(p.draft, t.name, vid, me);
    let now = d.table.rows;
    lemma_version_pos(rows, vid, 0);
    lemma_holder(p.live, key, p.live.len() as int);
    let a = choose|a: int| 0 <= a < p.live.len() && p.live[a] == (key, vid);
    if let Some(i) = version_pos(rows, vid, 0) {
        assert(now =~= rows.update(i, stamped(rows[i], me)));
        assert(!contested(rows[i], t.snapshot, me));
        assert forall|k: int| 0 <= k < now.len() implies (#[trigger] now[k]).vid == rows[k].vid by {}
        assert(vids_ok(d.table)) by {
            assert forall|x: int, y: int|
                #![trigger now[x], now[y]]
                0 <= x < now.len() && 0 <= y < now.len() && now[x].vid == now[y].vid implies x
                == y by {
                assert(rows[x].vid == rows[y].vid);
            }
            assert forall|x: int| 0 <= x < now.len() implies (#[trigger] now[x]).vid
                < d.table.next_vid by {
                assert(rows[x].vid < p.draft.table.next_vid);
            }
        }
        assert(spares_others(old, now, me)) by {
            assert forall|k: int| 0 <= k < old.len() && anothers(#[trigger] old[k], me) implies now[k]
                == old[k] by {
                assert(rows[k] == old[k]);
                if k == i {
                    assert(old[k].vid == p.live[a].1);
                }
            }
        }
        assert forall|k: int| 0 <= k < old.len() implies (#[trigger] now[k]).vid == old[k].vid by {
            assert(rows[k].vid == old[k].vid);
        }
    }
}

proof fn lemma_put_sparing(old: Seq<VersionV>, t: TermsV, p: ProgressV, row: RowV, tick: u64)
    requires
        sparing(old, p, t.owner),
        put_row(t, p, row, tick) is Ok,
    ensures
        sparing(old, put_row(t, p, row, tick)->Ok_0, t.owner),
{
    if t.pk.len() == 0 {
        lemma_appended_sparing(old, p, row, t.owner);
        let q = put_row(t, p, row, tick)->Ok_0;
        assert forall|a: int| 0 <= a < q.live.len() implies (#[trigger] q.live[a]).1
            < q.draft.table.next_vid by {
            assert(p.live[a].1 < p.draft.table.next_vid);
        }
    } else {
        let key = key_at(row, t.pk);
        match holder_of(p.live, key, p.live.len() as int) {
            None => {
                lemma_held_sparing(old, t, p, key, row);
            },
            Some(vid) => {
                if let Ok(Some(new)) = clashed(t, p.draft, vid, row, tick) {
                    lemma_clash_sparing(old, t, p, vid, row, tick, key);
                    let d = superseded(p.draft, t.name, vid, t.owner);
                    let m = ProgressV { draft: d, live: freed(p.live, key) };
                    assert forall|a: int, k: int|
                        #![trigger m.live[a], old[k]]
                        0 <= a < m.live.len() && 0 <= k < old.len() && old[k].vid
                            == m.live[a].1 implies !(old[k].create_lsn == PENDING && old[k].owner
                        != t.owner) by {
                        lemma_freed_noted(p.live, key, a);
                        let b = choose|b: int| 0 <= b < p.live.len() && p.live[b] == m.live[a];
                        assert(old[k].vid == p.live[b].1);
                    }
                    assert forall|a: int| 0 <= a < m.live.len() implies (#[trigger] m.live[a]).1
                        < d.table.next_vid by {
                        lemma_freed_noted(p.live, key, a);
                        let b = choose|b: int| 0 <= b < p.live.len() && p.live[b] == m.live[a];
                        assert(p.live[b].1 < p.draft.table.next_vid);
                    }
                    lemma_held_sparing(old, t, m, key_at(new, t.pk), new);
                }
            },
        }
    }
}

proof fn lemma_puts_sparing(old: Seq<VersionV>, t: TermsV, rows: Seq<RowV>, i: int, p: ProgressV)
    requires
        sparing(old, p, t.owner),
        put_rows_from(t, rows, i, p) is Ok,
    ensures
        sparing(old, put_rows_from(t, rows, i, p)->Ok_0, t.owner),
    decreases rows.len() - i,
{
    if 0 <= i < rows.len() {
        lemma_put_sparing(old, t, p, rows[i], i as u64);
        lemma_puts_sparing(old, t, rows, i + 1, put_row(t, p, rows[i], i as u64)->Ok_0);
    }
}

/// The noted holders of keys are versions that the writer sees.
pub open spec fn noted_seen(rows: Seq<VersionV>, live: Seq<(Seq<char>, u64)>, lsn: u64, me: u64) -> bool {
    forall|a: int|
        0 <= a < live.len() ==> exists|k: int|
            0 <= k < rows.len() && (#[trigger] rows[k]).vid == (#[trigger] live[a]).1
                && writer_sees(rows[k], lsn, me)
}

pub proof fn lemma_noted_seen(
    rows: Seq<VersionV>,
    pk: Seq<usize>,
    lsn: u64,
    me: u64,
    i: int,
    acc: Seq<(Seq<char>, u64)>,
)
    requires
        0 <= i,
        noted_seen(rows, acc, lsn, me),
    ensures
        noted_seen(rows, live_from(rows, pk, lsn, me, i, acc), lsn, me),
    decreases rows.len() - i,
{
    if i < rows.len() {
        if writer_sees(rows[i], lsn, me) {
            let next = acc.push((key_at(rows[i].values, pk), rows[i].vid));
            assert forall|a: int| 0 <= a < next.len() implies exists|k: int|
                0 <= k < rows.len() && (#[trigger] rows[k]).vid == (#[trigger] next[a]).1
                    && writer_sees(rows[k], lsn, me) by {
                if a < acc.len() {
                    let k = choose|k: int|
                        0 <= k < rows.len() && (#[trigger] rows[k]).vid == acc[a].1 && writer_sees(
                            rows[k],
                            lsn,
                            me,
                        );
                    assert(rows[k].vid == next[a].1);
                } else {
                    assert(rows[i].vid == next[a].1);
                }
            }
            lemma_noted_seen(rows, pk, lsn, me, i + 1, next);
        } else {
            lemma_noted_seen(rows, pk, lsn, me, i + 1, acc);
        }
    }
}

/// An `INSERT`, whatever it does on a clash, leaves every version alone that another
/// writer is creating or deleting.
pub proof fn law_insert_spares_others(
    s: StoreV,
    name: Seq<char>,
    columns: Option<Seq<Seq<char>>>,
    source: InsertSourceV,
    on_conflict: OnConflictV,
    returning: Option<Seq<ItemV>>,
    wc: WriteV,
    i: int,
)
    requires
        table_pos(s, name) == Some(i),
        0 <= i < s.tables.len(),
        vids_ok(s.tables[i]),
        s.committed_lsn < PENDING,
        inserted(s, name, columns, source, on_conflict, returning, wc) is Ok,
    ensures
        spares_others(
            s.tables[i].rows,
            inserted(s, name, columns, source, on_conflict, returning, wc)->Ok_0.0.tables[i].rows,
            wc.owner,
        ),
{
    let t0 = s.tables[i];
    let lsn = s.committed_lsn;
    let me = wc.owner;
    let slots = slots_of(s, t0.schema, columns, source, wc)->Ok_0;
    let (rows, auto) = staged_of(slots, t0.schema, name, t0.next_autoinc, wc.env)->Ok_0;
    let t = TableV { next_autoinc: auto, ..t0 };
    let rules = clash_rules(t0.schema, on_conflict, wc.env)->Ok_0;
    let terms = terms_of(s, t0, name, on_conflict, rules, wc);
    let p = ProgressV {
        draft: fresh_draft(t),
        live: live_from(t.rows, terms.pk, lsn, me, 0, Seq::empty()),
    };
    lemma_noted_seen(t.rows, terms.pk, lsn, me, 0, Seq::empty());
    assert(sparing(t0.rows, p, me)) by {
        assert forall|a: int, b: int|
            #![trigger t.rows[a], t.rows[b]]
            0 <= a < t.rows.len() && 0 <= b < t.rows.len() && t.rows[a].vid
                == t.rows[b].vid implies a == b by {
            assert(t0.rows[a].vid == t0.rows[b].vid);
        }
        assert forall|a: int| 0 <= a < t.rows.len() implies (#[trigger] t.rows[a]).vid
            < t.next_vid by {
            assert(t0.rows[a].vid < t0.next_vid);
        }
        assert forall|a: int, k: int|
            #![trigger p.live[a], t0.rows[k]]
            0 <= a < p.live.len() && 0 <= k < t0.rows.len() && t0.rows[k].vid
                == p.live[a].1 implies !(t0.rows[k].create_lsn == PENDING && t0.rows[k].owner
            != me) by {
            let x = choose|x: int|
                0 <= x < t.rows.len() && (#[trigger] t.rows[x]).vid == p.live[a].1 && writer_sees(
                    t.rows[x],
                    lsn,
                    me,
                );
            assert(t0.rows[x].vid == t0.rows[k].vid);
            assert(x == k);
        }
        assert forall|a: int| 0 <= a < p.live.len() implies (#[trigger] p.live[a]).1
            < p.draft.table.next_vid by {
            let x = choose|x: int|
                0 <= x < t.rows.len() && (#[trigger] t.rows[x]).vid == p.live[a].1 && writer_sees(
                    t.rows[x],
                    lsn,
                    me,
                );
            assert(t0.rows[x].vid < t0.next_vid);
        }
    }
    lemma_puts_sparing(t0.rows, terms, rows, 0, p);
    let d = insert_draft(s, t0, name, columns, source, on_conflict, wc)->Ok_0;
    assert(d == put_rows_from(terms, rows, 0, p)->Ok_0.draft);
    assert(with_table(s, i, d.table).tables[i] == d.table);
}

// ---- UPDATE and DELETE ----------------------------------------------------------------------------

/// An `UPDATE` leaves every version alone that another writer is creating or deleting.
pub proof fn law_update_spares_others(
    s: StoreV,
    name: Seq<char>,
    sets: Seq<(Seq<char>, ExprV)>,
    from: Option<FromV>,
    filter: Option<ExprV>,
    returning: Option<Seq<ItemV>>,
    wc: WriteV,
    i: int,
)
    requires
        table_pos(s, name) == Some(i),
        0 <= i < s.tables.len(),
        vids_ok(s.tables[i]),
        wc.snapshot < PENDING,
        updated(s, name, sets, from, filter, returning, wc) is Ok,
    ensures
        spares_others(
            s.tables[i].rows,
            updated(s, name, sets, from, filter, returning, wc)->Ok_0.0.tables[i].rows,
            wc.owner,
        ),
{
    let t = s.tables[i];
    let old = t.rows;
    let me = wc.owner;
    let c = changes_of(s, t, name, sets, from, filter, wc)->Ok_0;
    let rules = rules_of(t.schema, PolicyCommand::Update, wc.env)->Ok_0;
    law_updated_rows_are_valid(s, t, name, sets, from, filter, wc);
    assert forall|k: int| 0 <= k < c.len() implies exists|j: int|
        0 <= j < old.len() && (#[trigger] old[j]).vid == (#[trigger] c[k]).0 by {
        assert(is_sound(old, t.schema, name, rules, wc, c[k]));
        let x = choose|x: int| sound_change(old, t.schema, name, rules, wc, c[k], x);
        assert(old[x].vid == c[k].0);
    }
    let d0 = fresh_draft(t);
    assert(half_changed(old, d0, c, me, 0)) by {
        assert(change_vids(c.take(0)) =~= Seq::<u64>::empty());
    }
    lemma_half_changed(old, d0, name, c, me, 0);
    let d = changes_put_from(d0, name, c, me, 0)->Ok_0;
    assert(with_table(s, i, d.table).tables[i] == d.table);
    assert(c.take(c.len() as int) =~= c);
    let now = d.table.rows;
    assert forall|j: int| 0 <= j < old.len() && anothers(#[trigger] old[j], me) implies now[j]
        == old[j] by {
        assert(now[j].vid == old[j].vid);
        if change_vids(c).contains(old[j].vid) {
            let vids = change_vids(c);
            let k = choose|k: int| 0 <= k < vids.len() && vids[k] == old[j].vid;
            assert(is_sound(old, t.schema, name, rules, wc, c[k]));
            let x = choose|x: int| sound_change(old, t.schema, name, rules, wc, c[k], x);
            assert(old[x].vid == old[j].vid);
            assert(x == j);
        }
    }
}

/// A `DELETE` leaves every version alone that another writer is creating or deleting.
pub proof fn law_delete_spares_others(
    s: StoreV,
    name: Seq<char>,
    using: Option<FromV>,
    filter: Option<ExprV>,
    returning: Option<Seq<ItemV>>,
    wc: WriteV,
    i: int,
)
    requires
        table_pos(s, name) == Some(i),
        0 <= i < s.tables.len(),
        vids_ok(s.tables[i]),
        wc.snapshot < PENDING,
        deleted(s, name, using, filter, returning, wc) is Ok,
    ensures
        spares_others(
            s.tables[i].rows,
            deleted(s, name, using, filter, returning, wc)->Ok_0.0.tables[i].rows,
            wc.owner,
        ),
{
    let t = s.tables[i];
    let old = t.rows;
    let me = wc.owner;
    let guard = guard_of(t.schema, PolicyCommand::Delete, wc.env)->Ok_0;
    let src = sources_of(s, t.schema, name, using, wc)->Ok_0;
    let victims = deletes_from(old, t.schema, guard, src, filter, wc, 0, Seq::empty())->Ok_0;
    lemma_victims(old, t.schema, guard, src, filter, wc, 0, Seq::empty());
    lemma_deleted_rows(old, fresh_draft(t), name, victims, me, 0);
    let d = delete_draft(s, t, name, using, filter, wc)->Ok_0;
    let now = d.table.rows;
    assert(with_table(s, i, d.table).tables[i] == d.table);
    assert forall|j: int| 0 <= j < old.len() && anothers(#[trigger] old[j], me) implies now[j]
        == old[j] by {
        if now[j] != old[j] {
            let vids = change_vids(victims);
            let k = choose|k: int| 0 <= k < vids.len() && vids[k] == old[j].vid;
            assert(may_go(old, t.schema, guard, wc, victims[k]));
            let x = choose|x: int| sound_victim(old, t.schema, guard, wc, victims[k], x);
            assert(old[x].vid == old[j].vid);
            assert(x == j);
        }
    }
}

} // verus!
