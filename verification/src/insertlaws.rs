//! Which rows an `INSERT` adds, and what becomes of those whose key is held.
use vstd::prelude::*;
use crate::asks::StopV;
use crate::catalog::{column_pos, ColumnV, SchemaV};
use crate::celllaws::{cell_made, law_new_rows_are_made_cell_by_cell};
use crate::constraints::{key_at, RulesV};
use crate::env::EnvV;
use crate::inserts::{
    all_put, assigned_from, clash_rules, finished_cell, holder_of, insert_draft, inserted,
    live_from, put_row, put_rows_from, slot_at, staged_from, staged_of, terms_of, upsert_ctx,
    ProgressV, TermsV,
};
use crate::querylaws::true_in;
use crate::sql::{ExprV, InsertSourceV, ItemV, OnConflictV};
use crate::store::{table_pos, version_pos, with_table, StoreV, TableV, VersionV};
use crate::value::{RowV, ValueV};
use crate::writes::{
    all_given_from, all_placed_from, blank_slot, fresh_draft, given, pending_version, placed_from,
    slots_of, stamped, targets_from, targets_of, SlotV, WriteV,
};

verus! {

// ---- what is staged -------------------------------------------------------------------------------

proof fn lemma_targets(names: Seq<Seq<char>>, schema: SchemaV, i: int, acc: Seq<usize>)
    requires
        0 <= i <= names.len(),
        acc.len() == i,
        forall|k: int|
            0 <= k < i ==> column_pos(schema, #[trigger] names[k]) == Some(acc[k]),
        targets_from(names, schema, i, acc) is Ok,
    ensures
        ({
            let t = targets_from(names, schema, i, acc)->Ok_0;
            &&& t.len() == names.len()
            &&& forall|k: int|
                0 <= k < names.len() ==> column_pos(schema, #[trigger] names[k]) == Some(t[k])
        }),
    decreases names.len() - i,
{
    if i < names.len() {
        let p = column_pos(schema, names[i])->0;
        let more = acc.push(p);
        assert forall|k: int| 0 <= k < i + 1 implies column_pos(schema, #[trigger] names[k]) == Some(
            more[k],
        ) by {
            if k < i {
                assert(more[k] == acc[k]);
            }
        }
        lemma_targets(names, schema, i + 1, more);
    }
}

/// The columns that an `INSERT` names are where its values go, one for one; without a
/// list of columns the values go to the columns in their order.
pub proof fn law_named_columns(names: Seq<Seq<char>>, schema: SchemaV)
    ensures
        targets_of(Some(names), schema) matches Ok(t) ==> t.len() == names.len() && forall|k: int|
            0 <= k < names.len() ==> column_pos(schema, #[trigger] names[k]) == Some(t[k]),
        schema.columns.len() <= usize::MAX ==> (targets_of(None, schema) matches Ok(t) && t.len()
            == schema.columns.len() && forall|k: int| 0 <= k < t.len() ==> #[trigger] t[k] == k),
{
    if targets_of(Some(names), schema) is Ok {
        lemma_targets(names, schema, 0, Seq::empty());
    }
}

proof fn lemma_all_given(
    rows: Seq<Seq<ExprV>>,
    named: bool,
    targets: Seq<usize>,
    n: nat,
    env: EnvV,
    i: int,
    acc: Seq<SlotV>,
)
    requires
        0 <= i <= rows.len(),
        acc.len() == i,
        forall|k: int|
            0 <= k < i ==> given(rows[k], named, targets, n, env) == Ok::<SlotV, StopV>(
                #[trigger] acc[k],
            ),
        all_given_from(rows, named, targets, n, env, i, acc) is Ok,
    ensures
        ({
            let out = all_given_from(rows, named, targets, n, env, i, acc)->Ok_0;
            &&& out.len() == rows.len()
            &&& forall|k: int|
                0 <= k < rows.len() ==> given(rows[k], named, targets, n, env) == Ok::<
                    SlotV,
                    StopV,
                >(#[trigger] out[k])
        }),
    decreases rows.len() - i,
{
    if i < rows.len() {
        let more = acc.push(given(rows[i], named, targets, n, env)->Ok_0);
        assert forall|k: int| 0 <= k < i + 1 implies given(rows[k], named, targets, n, env) == Ok::<
            SlotV,
            StopV,
        >(#[trigger] more[k]) by {
            if k < i {
                assert(more[k] == acc[k]);
            }
        }
        lemma_all_given(rows, named, targets, n, env, i + 1, more);
    }
}

/// Each row of `VALUES` gives one row, in their order.
pub proof fn law_values_give_rows(
    s: StoreV,
    schema: SchemaV,
    names: Option<Seq<Seq<char>>>,
    rows: Seq<Seq<ExprV>>,
    wc: WriteV,
)
    requires
        slots_of(s, schema, names, InsertSourceV::Values(rows), wc) is Ok,
    ensures
        ({
            let out = slots_of(s, schema, names, InsertSourceV::Values(rows), wc)->Ok_0;
            let targets = targets_of(names, schema)->Ok_0;
            &&& targets_of(names, schema) is Ok
            &&& out.len() == rows.len()
            &&& forall|k: int|
                0 <= k < rows.len() ==> given(
                    rows[k],
                    names is Some,
                    targets,
                    schema.columns.len(),
                    wc.env,
                ) == Ok::<SlotV, StopV>(#[trigger] out[k])
        }),
{
    lemma_all_given(
        rows,
        names is Some,
        targets_of(names, schema)->Ok_0,
        schema.columns.len(),
        wc.env,
        0,
        Seq::empty(),
    );
}

proof fn lemma_all_placed(rows: Seq<RowV>, targets: Seq<usize>, n: nat, i: int, acc: Seq<SlotV>)
    requires
        0 <= i <= rows.len(),
        acc.len() == i,
        forall|k: int|
            0 <= k < i ==> #[trigger] acc[k] == placed_from(rows[k], targets, 0, blank_slot(n)),
        all_placed_from(rows, targets, n, i, acc) is Ok,
    ensures
        ({
            let out = all_placed_from(rows, targets, n, i, acc)->Ok_0;
            &&& out.len() == rows.len()
            &&& forall|k: int|
                0 <= k < rows.len() ==> #[trigger] out[k] == placed_from(
                    rows[k],
                    targets,
                    0,
                    blank_slot(n),
                )
        }),
    decreases rows.len() - i,
{
    if i < rows.len() {
        let more = acc.push(placed_from(rows[i], targets, 0, blank_slot(n)));
        assert forall|k: int| 0 <= k < i + 1 implies #[trigger] more[k] == placed_from(
            rows[k],
            targets,
            0,
            blank_slot(n),
        ) by {
            if k < i {
                assert(more[k] == acc[k]);
            }
        }
        lemma_all_placed(rows, targets, n, i + 1, more);
    }
}

/// Each row of a query gives one row, in their order.
pub proof fn law_selected_rows_give_rows(rows: Seq<RowV>, targets: Seq<usize>, n: nat)
    requires
        all_placed_from(rows, targets, n, 0, Seq::empty()) is Ok,
    ensures
        ({
            let out = all_placed_from(rows, targets, n, 0, Seq::empty())->Ok_0;
            &&& out.len() == rows.len()
            &&& forall|k: int|
                0 <= k < rows.len() ==> #[trigger] out[k] == placed_from(
                    rows[k],
                    targets,
                    0,
                    blank_slot(n),
                )
        }),
{
    lemma_all_placed(rows, targets, n, 0, Seq::empty());
}

/// A column that counts gives the number that is next where no known value is given; the
/// number after it is above every one that the column was given.
pub proof fn law_counting(c: ColumnV, slot: Option<ValueV>, auto: i64, tick: u64, env: EnvV)
    requires
        c.autoincrement,
        auto < i64::MAX,
        finished_cell(c, slot, auto, tick, env) is Ok,
    ensures
        ({
            let (v, next) = finished_cell(c, slot, auto, tick, env)->Ok_0;
            &&& (slot is None || slot->0 is Null) ==> v == ValueV::Int(auto) && next == auto + 1
            &&& next >= auto
            &&& v is Int && v->Int_0 < i64::MAX ==> next > v->Int_0
        }),
{
}

/// Whether a row has a cell for every column, each as its column makes it.
pub open spec fn row_made(cols: Seq<ColumnV>, slot: SlotV, env: EnvV, row: RowV) -> bool {
    &&& row.len() == cols.len()
    &&& forall|p: int|
        0 <= p < cols.len() ==> cell_made(cols[p], slot_at(slot, p), env, #[trigger] row[p])
}

proof fn lemma_staged(
    slots: Seq<SlotV>,
    schema: SchemaV,
    table: Seq<char>,
    rules: RulesV,
    auto: i64,
    env: EnvV,
    i: int,
    acc: Seq<RowV>,
)
    requires
        0 <= i <= slots.len(),
        acc.len() == i,
        forall|k: int|
            0 <= k < i ==> row_made(schema.columns, slots[k], env, #[trigger] acc[k]),
        staged_from(slots, schema, table, rules, auto, env, i, acc) is Ok,
    ensures
        ({
            let out = staged_from(slots, schema, table, rules, auto, env, i, acc)->Ok_0.0;
            &&& out.len() == slots.len()
            &&& forall|k: int|
                0 <= k < slots.len() ==> row_made(schema.columns, slots[k], env, #[trigger] out[k])
        }),
    decreases slots.len() - i,
{
    if i < slots.len() {
        let cols = schema.columns;
        let made = crate::inserts::cells_from(cols, slots[i], i as u64, auto, env, 0, Seq::empty());
        let (row, next) = made->Ok_0;
        assert(row_made(cols, slots[i], env, row)) by {
            if cols.len() == 0 {
                assert(row =~= Seq::<ValueV>::empty());
            } else {
                law_new_rows_are_made_cell_by_cell(cols, slots[i], i as u64, auto, env, 0);
            }
            assert forall|p: int| 0 <= p < cols.len() implies cell_made(
                cols[p],
                slot_at(slots[i], p),
                env,
                #[trigger] row[p],
            ) by {
                law_new_rows_are_made_cell_by_cell(cols, slots[i], i as u64, auto, env, p);
            }
        }
        let more = acc.push(row);
        assert forall|k: int| 0 <= k < i + 1 implies row_made(
            cols,
            slots[k],
            env,
            #[trigger] more[k],
        ) by {
            if k < i {
                assert(more[k] == acc[k]);
            }
        }
        lemma_staged(slots, schema, table, rules, next, env, i + 1, more);
    }
}

// ---- what is put in -------------------------------------------------------------------------------

proof fn lemma_put_rows(t: TermsV, rows: Seq<RowV>, i: int, p: ProgressV)
    requires
        0 <= i <= rows.len(),
        t.on_conflict is Error,
        put_rows_from(t, rows, i, p) is Ok,
    ensures
        ({
            let old = p.draft.table.rows;
            let q = put_rows_from(t, rows, i, p)->Ok_0;
            let now = q.draft.table.rows;
            &&& now.len() == old.len() + rows.len() - i
            &&& q.draft.rows.len() == p.draft.rows.len() + rows.len() - i
            &&& forall|k: int| 0 <= k < old.len() ==> #[trigger] now[k] == old[k]
            &&& forall|k: int|
                old.len() <= k < now.len() ==> is_pending(
                    #[trigger] now[k],
                    rows[k - old.len() + i],
                    t.owner,
                )
        }),
    decreases rows.len() - i,
{
    if i < rows.len() {
        let q = put_row(t, p, rows[i], i as u64)->Ok_0;
        let old = p.draft.table.rows;
        let next = q.draft.table.rows;
        assert(next == old.push(pending_version(p.draft.table.next_vid, rows[i], t.owner)));
        lemma_put_rows(t, rows, i + 1, q);
        let now = put_rows_from(t, rows, i, p)->Ok_0.draft.table.rows;
        assert forall|k: int| 0 <= k < old.len() implies #[trigger] now[k] == old[k] by {
            assert(now[k] == next[k]);
        }
        assert forall|k: int| old.len() <= k < now.len() implies is_pending(
            #[trigger] now[k],
            rows[k - old.len() + i],
            t.owner,
        ) by {
            if k == old.len() {
                assert(now[k] == next[k]);
            } else {
                assert(is_pending(now[k], rows[k - next.len() + i + 1], t.owner));
            }
        }
    }
}

/// Whether a version is a row that a writer has added and not committed.
pub open spec fn is_pending(v: VersionV, row: RowV, owner: u64) -> bool {
    v == pending_version(v.vid, row, owner)
}

/// An `INSERT` without a conflict clause adds one row for each that it is given, in their
/// order and behind those that are there, which stay as they are; it reports how many.
/// Each cell is what its column makes of what it is given.
pub proof fn law_insert_row_by_row(
    s: StoreV,
    name: Seq<char>,
    columns: Option<Seq<Seq<char>>>,
    source: InsertSourceV,
    returning: Option<Seq<ItemV>>,
    wc: WriteV,
    i: int,
)
    requires
        table_pos(s, name) == Some(i),
        0 <= i < s.tables.len(),
        inserted(s, name, columns, source, OnConflictV::Error, returning, wc) is Ok,
    ensures
        ({
            let schema = s.tables[i].schema;
            let old = s.tables[i].rows;
            let after = inserted(s, name, columns, source, OnConflictV::Error, returning, wc)->Ok_0;
            let now = after.0.tables[i].rows;
            let slots = slots_of(s, schema, columns, source, wc)->Ok_0;
            &&& slots_of(s, schema, columns, source, wc) is Ok
            &&& now.len() == old.len() + slots.len()
            &&& after.1.changes == slots.len() as i64
            &&& forall|k: int| 0 <= k < old.len() ==> #[trigger] now[k] == old[k]
            &&& forall|k: int|
                old.len() <= k < now.len() ==> row_made(
                    schema.columns,
                    slots[k - old.len()],
                    wc.env,
                    (#[trigger] now[k]).values,
                ) && is_pending(now[k], now[k].values, wc.owner)
        }),
{
    let t = s.tables[i];
    let old = t.rows;
    let slots = slots_of(s, t.schema, columns, source, wc)->Ok_0;
    let (rows, auto) = staged_of(slots, t.schema, name, t.next_autoinc, wc.env)->Ok_0;
    let rules = crate::constraints::rules_of(
        t.schema,
        crate::catalog::PolicyCommand::Insert,
        wc.env,
    )->Ok_0;
    lemma_staged(slots, t.schema, name, rules, t.next_autoinc, wc.env, 0, Seq::empty());
    let clash = clash_rules(t.schema, OnConflictV::Error, wc.env)->Ok_0;
    let terms = terms_of(s, t, name, OnConflictV::Error, clash, wc);
    let t2 = TableV { next_autoinc: auto, ..t };
    let p = ProgressV {
        draft: fresh_draft(t2),
        live: live_from(t2.rows, terms.pk, s.committed_lsn, wc.owner, 0, Seq::empty()),
    };
    lemma_put_rows(terms, rows, 0, p);
    let d = insert_draft(s, t, name, columns, source, OnConflictV::Error, wc)->Ok_0;
    assert(all_put(s, t2, terms, rows, wc) == Ok::<crate::writes::DraftV, StopV>(d));
    assert(with_table(s, i, d.table).tables[i] == d.table);
    let now = d.table.rows;
    assert forall|k: int| old.len() <= k < now.len() implies row_made(
        t.schema.columns,
        slots[k - old.len()],
        wc.env,
        (#[trigger] now[k]).values,
    ) && is_pending(now[k], now[k].values, wc.owner) by {
        assert(is_pending(now[k], rows[k - old.len() + 0], wc.owner));
        assert(row_made(t.schema.columns, slots[k - old.len()], wc.env, rows[k - old.len()]));
    }
}

// ---- conflicts of keys ----------------------------------------------------------------------------

/// A row with a key that no row holds is added.
pub proof fn law_free_keys_are_added(t: TermsV, p: ProgressV, row: RowV, tick: u64)
    requires
        t.pk.len() > 0 ==> holder_of(p.live, key_at(row, t.pk), p.live.len() as int) is None,
        put_row(t, p, row, tick) is Ok,
    ensures
        put_row(t, p, row, tick)->Ok_0.draft.table.rows == p.draft.table.rows.push(
            pending_version(p.draft.table.next_vid, row, t.owner),
        ),
{
}

/// What becomes of a row whose key a version holds. `DO NOTHING` leaves everything as it
/// is. `REPLACE` puts the row in the place of the version. `DO UPDATE` puts there what its
/// assignments make of the version, which they see beside the row that was to go in, unless
/// its condition is not true. Without a clause the row is refused.
pub proof fn law_held_keys(t: TermsV, p: ProgressV, row: RowV, tick: u64, i: int)
    requires
        t.pk.len() > 0,
        holder_of(p.live, key_at(row, t.pk), p.live.len() as int) is Some,
        version_pos(
            p.draft.table.rows,
            holder_of(p.live, key_at(row, t.pk), p.live.len() as int)->0,
            0,
        ) == Some(i),
        0 <= i < p.draft.table.rows.len(),
    ensures
        ({
            let rows = p.draft.table.rows;
            let r = put_row(t, p, row, tick);
            let now = r->Ok_0.draft.table.rows;
            match t.on_conflict {
                OnConflictV::Error => r is Err,
                OnConflictV::Nothing => r is Ok ==> r->Ok_0 == p,
                OnConflictV::Replace => r is Ok ==> took_place(t, p, i, row, now),
                OnConflictV::Update { sets, filter } => r is Ok ==> {
                    let c = upsert_ctx(t, rows[i].values, row, tick);
                    if true_in(filter, c, t.env) {
                        assigned_from(sets, t.schema, c, t.env, 0, rows[i].values) matches Ok(new)
                            && took_place(t, p, i, new, now)
                    } else {
                        r->Ok_0 == p
                    }
                },
            }
        }),
{
}

/// Whether a row was added and version `i` marked as deleted, and nothing else changed.
pub open spec fn took_place(
    t: TermsV,
    p: ProgressV,
    i: int,
    row: RowV,
    now: Seq<VersionV>,
) -> bool {
    let rows = p.draft.table.rows;
    now == rows.update(i, stamped(rows[i], t.owner)).push(
        pending_version(p.draft.table.next_vid, row, t.owner),
    )
}

} // verus!
