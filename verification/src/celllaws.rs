//! What writes put into the cells of rows.
use vstd::prelude::*;
use crate::asks::StopV;
use crate::catalog::{column_pos, ColumnV, PolicyCommand, SchemaV};
use crate::constraints::{checks_hold, dimensions_fit, nulls_allowed, rules_of, unbound, RulesV};
use crate::env::{within, EnvV, IN_CHECK, IN_POLICY};
use crate::eval::{cell, ev, root_ctx, row_ctx, CtxV};
use crate::inserts::{
    assigned_from, cell_tick, cells_from, constant_of, finished_cell, slot_at, with_cell,
};
use crate::policy::{guard_of, met_from, passes, GuardV};
use crate::primarylaws::{half_changed, lemma_half_changed};
use crate::sql::{ExprV, ItemV};
use crate::store::{table_pos, with_table, writer_sees, StoreV, VersionV};
use crate::updates::{
    change_vids, changed_row, changes_from, changes_of, changes_put_from, delete_draft, deleted,
    deletes_from, deletes_put_from, sources_of, updated,
};
use crate::value::{coerced, truth, ColumnType, RowV, ValueV};
use crate::writelaws::{lemma_version_pos, vids_ok};
use crate::writes::{
    blank_slot, fresh_draft, given, given_from, placed_from, slot_put, stamped, superseded, DraftV,
    SlotV, WriteV,
};

verus! {

// ---- assignments ----------------------------------------------------------------------------------

/// Whether an assignment is to the column at `p`.
pub open spec fn assigns(schema: SchemaV, set: (Seq<char>, ExprV), p: int) -> bool {
    column_pos(schema, set.0) matches Some(k) && k == p
}

/// Whether a cell holds what an expression is worth, as its column takes it.
pub open spec fn holds_value(
    e: ExprV,
    c: CtxV,
    env: EnvV,
    ty: ColumnType,
    v: ValueV,
) -> bool {
    ev(e, c, env) matches Ok(x) && coerced(env.reals, ty, x) == Ok::<ValueV, StopV>(v)
}

proof fn lemma_assigned(
    sets: Seq<(Seq<char>, ExprV)>,
    schema: SchemaV,
    c: CtxV,
    env: EnvV,
    i: int,
    row: RowV,
    p: int,
)
    requires
        0 <= i <= sets.len(),
        0 <= p < row.len(),
        assigned_from(sets, schema, c, env, i, row) is Ok,
    ensures
        ({
            let new = assigned_from(sets, schema, c, env, i, row)->Ok_0;
            &&& new.len() == row.len()
            &&& (forall|k: int| i <= k < sets.len() ==> !assigns(schema, #[trigger] sets[k], p))
                ==> new[p] == row[p]
            &&& forall|k: int|
                i <= k < sets.len() && assigns(schema, #[trigger] sets[k], p) && last_for(
                    sets,
                    schema,
                    p,
                    k,
                ) ==> holds_value(sets[k].1, c, env, schema.columns[p].ty, new[p])
        }),
    decreases sets.len() - i,
{
    if i < sets.len() {
        let q = column_pos(schema, sets[i].0)->0;
        let v = ev(sets[i].1, c, env)->Ok_0;
        let w = coerced(env.reals, schema.columns[q as int].ty, v)->Ok_0;
        let next = with_cell(row, q, w);
        let new = assigned_from(sets, schema, c, env, i, row)->Ok_0;
        lemma_assigned(sets, schema, c, env, i + 1, next, p);
        if forall|k: int| i <= k < sets.len() ==> !assigns(schema, #[trigger] sets[k], p) {
            assert(!assigns(schema, sets[i], p));
        }
        assert forall|k: int|
            i <= k < sets.len() && assigns(schema, #[trigger] sets[k], p) && last_for(
                sets,
                schema,
                p,
                k,
            ) implies holds_value(sets[k].1, c, env, schema.columns[p].ty, new[p]) by {
            if k == i {
                assert(new[p] == next[p]);
            }
        }
    }
}

/// Whether no later assignment is to the same column.
pub open spec fn last_for(
    sets: Seq<(Seq<char>, ExprV)>,
    schema: SchemaV,
    p: int,
    k: int,
) -> bool {
    forall|m: int| k < m < sets.len() ==> !assigns(schema, #[trigger] sets[m], p)
}

/// Assignments give each column that they name the value of its expression, coerced to
/// the type of the column, be it `NULL`; every other column keeps its value. All
/// expressions are taken in the same scope, that of the row as it was.
pub proof fn law_assignments(
    sets: Seq<(Seq<char>, ExprV)>,
    schema: SchemaV,
    c: CtxV,
    env: EnvV,
    row: RowV,
)
    requires
        assigned_from(sets, schema, c, env, 0, row) is Ok,
    ensures
        ({
            let new = assigned_from(sets, schema, c, env, 0, row)->Ok_0;
            &&& new.len() == row.len()
            &&& forall|p: int|
                0 <= p < row.len() && (forall|k: int|
                    0 <= k < sets.len() ==> !assigns(schema, #[trigger] sets[k], p))
                    ==> #[trigger] new[p] == row[p]
            &&& forall|k: int, p: int|
                0 <= k < sets.len() && 0 <= p < row.len() && #[trigger] assigns(schema, sets[k], p)
                    && last_for(sets, schema, p, k) ==> holds_value(
                    sets[k].1,
                    c,
                    env,
                    schema.columns[p].ty,
                    new[p],
                )
        }),
{
    let new = assigned_from(sets, schema, c, env, 0, row)->Ok_0;
    if row.len() > 0 {
        lemma_assigned(sets, schema, c, env, 0, row, 0);
    } else {
        lemma_assigned_width(sets, schema, c, env, 0, row);
    }
    assert forall|p: int|
        0 <= p < row.len() && (forall|k: int|
            0 <= k < sets.len() ==> !assigns(schema, #[trigger] sets[k], p)) implies #[trigger] new[p]
        == row[p] by {
        lemma_assigned(sets, schema, c, env, 0, row, p);
    }
    assert forall|k: int, p: int|
        0 <= k < sets.len() && 0 <= p < row.len() && #[trigger] assigns(schema, sets[k], p)
            && last_for(sets, schema, p, k) implies holds_value(
        sets[k].1,
        c,
        env,
        schema.columns[p].ty,
        new[p],
    ) by {
        lemma_assigned(sets, schema, c, env, 0, row, p);
    }
}

proof fn lemma_assigned_width(
    sets: Seq<(Seq<char>, ExprV)>,
    schema: SchemaV,
    c: CtxV,
    env: EnvV,
    i: int,
    row: RowV,
)
    requires
        0 <= i <= sets.len(),
        assigned_from(sets, schema, c, env, i, row) is Ok,
    ensures
        assigned_from(sets, schema, c, env, i, row)->Ok_0.len() == row.len(),
    decreases sets.len() - i,
{
    if i < sets.len() {
        let q = column_pos(schema, sets[i].0)->0;
        let v = ev(sets[i].1, c, env)->Ok_0;
        let w = coerced(env.reals, schema.columns[q as int].ty, v)->Ok_0;
        lemma_assigned_width(sets, schema, c, env, i + 1, with_cell(row, q, w));
    }
}

/// `NULL` fits every column, and what has the type of the column stays as it is.
pub proof fn law_coercion_keeps(t: crate::asks::RealsV, ty: ColumnType, i: i64, b: u64, s: Seq<char>)
    ensures
        coerced(t, ty, ValueV::Null) == Ok::<ValueV, StopV>(ValueV::Null),
        coerced(t, ColumnType::Integer, ValueV::Int(i)) == Ok::<ValueV, StopV>(ValueV::Int(i)),
        coerced(t, ColumnType::Real, ValueV::Real(b)) == Ok::<ValueV, StopV>(ValueV::Real(b)),
        coerced(t, ColumnType::Text, ValueV::Text(s)) == Ok::<ValueV, StopV>(ValueV::Text(s)),
{
    reveal(coerced);
}

// ---- UPDATE ---------------------------------------------------------------------------------------

/// Whether a condition is true of a row of a table; without one it is.
pub open spec fn true_of(filter: Option<ExprV>, schema: SchemaV, row: RowV, tick: u64, env: EnvV) -> bool {
    filter matches Some(e) ==> (ev(e, row_ctx(row, schema, tick), env) matches Ok(v) && truth(v)
        == Some(true))
}

/// Whether a statement with a condition is about a version: its writer sees it, the
/// policies let the principal at it, and the condition is true of it.
pub open spec fn is_about(
    v: VersionV,
    k: int,
    filter: Option<ExprV>,
    schema: SchemaV,
    gate: Option<Seq<ExprV>>,
    wc: WriteV,
) -> bool {
    &&& writer_sees(v, wc.snapshot, wc.owner)
    &&& passes(gate, schema, v.values, k as u64, wc.env) == Ok::<bool, StopV>(true)
    &&& true_of(filter, schema, v.values, k as u64, wc.env)
}

/// Whether a change replaces version `k` by what the assignments make of it.
pub open spec fn changes_version(
    rows: Seq<VersionV>,
    schema: SchemaV,
    sets: Seq<(Seq<char>, ExprV)>,
    wc: WriteV,
    k: int,
    c: (u64, RowV),
) -> bool {
    &&& c.0 == rows[k].vid
    &&& assigned_from(
        sets,
        schema,
        row_ctx(rows[k].values, schema, k as u64),
        wc.env,
        0,
        rows[k].values,
    ) == Ok::<RowV, StopV>(c.1)
}

proof fn lemma_changes(
    rows: Seq<VersionV>,
    schema: SchemaV,
    name: Seq<char>,
    sets: Seq<(Seq<char>, ExprV)>,
    filter: Option<ExprV>,
    rules: RulesV,
    wc: WriteV,
    i: int,
    acc: Seq<(u64, RowV)>,
    from: Seq<int>,
) -> (all: Seq<int>)
    requires
        0 <= i <= rows.len(),
        changes_from(rows, schema, name, sets, None, filter, rules, wc, i, acc) is Ok,
        from.len() == acc.len(),
        forall|m: int|
            0 <= m < from.len() ==> 0 <= #[trigger] from[m] < i && is_about(
                rows[from[m]],
                from[m],
                filter,
                schema,
                rules.guard.using,
                wc,
            ) && changes_version(rows, schema, sets, wc, from[m], acc[m]),
        forall|a: int, b: int| 0 <= a < b < from.len() ==> #[trigger] from[a] < #[trigger] from[b],
        forall|k: int|
            0 <= k < i && is_about(#[trigger] rows[k], k, filter, schema, rules.guard.using, wc)
                ==> from.contains(k),
    ensures
        ({
            let c = changes_from(rows, schema, name, sets, None, filter, rules, wc, i, acc)->Ok_0;
            &&& all.len() == c.len()
            &&& forall|m: int|
                0 <= m < all.len() ==> 0 <= #[trigger] all[m] < rows.len() && is_about(
                    rows[all[m]],
                    all[m],
                    filter,
                    schema,
                    rules.guard.using,
                    wc,
                ) && changes_version(rows, schema, sets, wc, all[m], c[m])
            &&& forall|a: int, b: int|
                0 <= a < b < all.len() ==> #[trigger] all[a] < #[trigger] all[b]
            &&& forall|k: int|
                0 <= k < rows.len() && is_about(
                    #[trigger] rows[k],
                    k,
                    filter,
                    schema,
                    rules.guard.using,
                    wc,
                ) ==> all.contains(k)
        }),
    decreases rows.len() - i,
{
    if i < rows.len() {
        let r = changed_row(rows[i], i as u64, schema, name, sets, None, filter, rules, wc);
        match r {
            Ok(Some(row)) => {
                let c = (rows[i].vid, row);
                let (more, at) = (acc.push(c), from.push(i));
                assert(at[from.len() as int] == i);
                assert forall|m: int| 0 <= m < at.len() implies 0 <= #[trigger] at[m] < i + 1
                    && is_about(rows[at[m]], at[m], filter, schema, rules.guard.using, wc)
                    && changes_version(rows, schema, sets, wc, at[m], more[m]) by {
                    if m < from.len() {
                        assert(at[m] == from[m] && more[m] == acc[m]);
                    }
                }
                assert forall|a: int, b: int| 0 <= a < b < at.len() implies #[trigger] at[a]
                    < #[trigger] at[b] by {
                    assert(at[a] == from[a]);
                    if b < from.len() {
                        assert(at[b] == from[b]);
                    }
                }
                assert forall|k: int|
                    0 <= k < i + 1 && is_about(
                        #[trigger] rows[k],
                        k,
                        filter,
                        schema,
                        rules.guard.using,
                        wc,
                    ) implies at.contains(k) by {
                    if k < i {
                        let m = choose|m: int| 0 <= m < from.len() && from[m] == k;
                        assert(at[m] == k);
                    }
                }
                lemma_changes(rows, schema, name, sets, filter, rules, wc, i + 1, more, at)
            },
            _ => {
                assert(!is_about(rows[i], i, filter, schema, rules.guard.using, wc));
                lemma_changes(rows, schema, name, sets, filter, rules, wc, i + 1, acc, from)
            },
        }
    } else {
        from
    }
}

/// An `UPDATE` of a table alone replaces just the versions that it is about, each by one
/// with what the assignments make of it, in the order of the rows, and reports how many
/// there are. All others stay as they are.
pub proof fn law_update_row_by_row(
    s: StoreV,
    name: Seq<char>,
    sets: Seq<(Seq<char>, ExprV)>,
    filter: Option<ExprV>,
    returning: Option<Seq<ItemV>>,
    wc: WriteV,
    i: int,
    rules: RulesV,
) -> (about: Seq<int>)
    requires
        table_pos(s, name) == Some(i),
        0 <= i < s.tables.len(),
        vids_ok(s.tables[i]),
        rules_of(s.tables[i].schema, PolicyCommand::Update, wc.env) == Ok::<RulesV, StopV>(rules),
        updated(s, name, sets, None, filter, returning, wc) is Ok,
    ensures
        ({
            let old = s.tables[i].rows;
            let schema = s.tables[i].schema;
            let after = updated(s, name, sets, None, filter, returning, wc)->Ok_0;
            let now = after.0.tables[i].rows;
            &&& now.len() == old.len() + about.len()
            &&& after.1.changes == about.len() as i64
            &&& forall|a: int, b: int|
                0 <= a < b < about.len() ==> #[trigger] about[a] < #[trigger] about[b]
            &&& forall|k: int|
                0 <= k < old.len() ==> (about.contains(k) <==> is_about(
                    #[trigger] old[k],
                    k,
                    filter,
                    schema,
                    rules.guard.using,
                    wc,
                ))
            &&& forall|k: int|
                0 <= k < old.len() ==> #[trigger] now[k] == (if about.contains(k) {
                    stamped(old[k], wc.owner)
                } else {
                    old[k]
                })
            &&& forall|m: int|
                0 <= m < about.len() ==> 0 <= about[m] < old.len() && assigned_from(
                    sets,
                    schema,
                    row_ctx(old[about[m]].values, schema, about[m] as u64),
                    wc.env,
                    0,
                    old[about[m]].values,
                ) == Ok::<RowV, StopV>((#[trigger] now[old.len() + m]).values)
        }),
{
    let t = s.tables[i];
    let old = t.rows;
    let c = changes_of(s, t, name, sets, None, filter, wc)->Ok_0;
    let about = lemma_update_changes(s, name, sets, filter, returning, wc, i, rules);
    let d = changes_put_from(fresh_draft(t), name, c, wc.owner, 0)->Ok_0;
    lemma_changes_put(old, fresh_draft(t), t.schema, name, sets, wc, c, about);
    about
}

proof fn lemma_update_changes(
    s: StoreV,
    name: Seq<char>,
    sets: Seq<(Seq<char>, ExprV)>,
    filter: Option<ExprV>,
    returning: Option<Seq<ItemV>>,
    wc: WriteV,
    i: int,
    rules: RulesV,
) -> (about: Seq<int>)
    requires
        table_pos(s, name) == Some(i),
        0 <= i < s.tables.len(),
        rules_of(s.tables[i].schema, PolicyCommand::Update, wc.env) == Ok::<RulesV, StopV>(rules),
        updated(s, name, sets, None, filter, returning, wc) is Ok,
    ensures
        ({
            let t = s.tables[i];
            let old = t.rows;
            let after = updated(s, name, sets, None, filter, returning, wc)->Ok_0;
            let c = changes_of(s, t, name, sets, None, filter, wc)->Ok_0;
            let put = changes_put_from(fresh_draft(t), name, c, wc.owner, 0);
            &&& changes_of(s, t, name, sets, None, filter, wc) is Ok
            &&& put is Ok
            &&& after.0.tables[i].rows == put->Ok_0.table.rows
            &&& after.1.changes == c.len() as i64
            &&& changed_at(old, t.schema, sets, wc, c, about)
            &&& forall|k: int|
                0 <= k < old.len() ==> (about.contains(k) <==> is_about(
                    #[trigger] old[k],
                    k,
                    filter,
                    t.schema,
                    rules.guard.using,
                    wc,
                ))
        }),
{
    let t = s.tables[i];
    let old = t.rows;
    reveal(sources_of);
    let c = changes_of(s, t, name, sets, None, filter, wc)->Ok_0;
    let about = lemma_changes(
        old,
        t.schema,
        name,
        sets,
        filter,
        rules,
        wc,
        0,
        Seq::empty(),
        Seq::empty(),
    );
    lemma_put_count(fresh_draft(t), name, c, wc.owner, 0);
    let d = changes_put_from(fresh_draft(t), name, c, wc.owner, 0)->Ok_0;
    assert(with_table(s, i, d.table).tables[i] == d.table);
    assert forall|k: int| 0 <= k < old.len() implies (about.contains(k) <==> is_about(
        #[trigger] old[k],
        k,
        filter,
        t.schema,
        rules.guard.using,
        wc,
    )) by {
        if about.contains(k) {
            let m = choose|m: int| 0 <= m < about.len() && about[m] == k;
            assert(0 <= about[m] < old.len());
        }
    }
    about
}

/// Whether changes are those of the versions at given places, which go up.
spec fn changed_at(
    rows: Seq<VersionV>,
    schema: SchemaV,
    sets: Seq<(Seq<char>, ExprV)>,
    wc: WriteV,
    c: Seq<(u64, RowV)>,
    about: Seq<int>,
) -> bool {
    &&& c.len() == about.len()
    &&& forall|a: int, b: int| 0 <= a < b < about.len() ==> #[trigger] about[a] < #[trigger] about[b]
    &&& forall|m: int|
        0 <= m < about.len() ==> 0 <= #[trigger] about[m] < rows.len() && changes_version(
            rows,
            schema,
            sets,
            wc,
            about[m],
            c[m],
        )
}

proof fn lemma_changes_put(
    old: Seq<VersionV>,
    d0: DraftV,
    schema: SchemaV,
    name: Seq<char>,
    sets: Seq<(Seq<char>, ExprV)>,
    wc: WriteV,
    c: Seq<(u64, RowV)>,
    about: Seq<int>,
)
    requires
        d0.table.rows == old,
        vids_ok(d0.table),
        changed_at(old, schema, sets, wc, c, about),
        changes_put_from(d0, name, c, wc.owner, 0) is Ok,
    ensures
        ({
            let now = changes_put_from(d0, name, c, wc.owner, 0)->Ok_0.table.rows;
            &&& now.len() == old.len() + about.len()
            &&& forall|k: int|
                0 <= k < old.len() ==> #[trigger] now[k] == (if about.contains(k) {
                    stamped(old[k], wc.owner)
                } else {
                    old[k]
                })
            &&& forall|m: int|
                0 <= m < about.len() ==> 0 <= about[m] < old.len() && assigned_from(
                    sets,
                    schema,
                    row_ctx(old[about[m]].values, schema, about[m] as u64),
                    wc.env,
                    0,
                    old[about[m]].values,
                ) == Ok::<RowV, StopV>((#[trigger] now[old.len() + m]).values)
        }),
{
    let me = wc.owner;
    assert forall|k: int| 0 <= k < c.len() implies exists|j: int|
        0 <= j < old.len() && (#[trigger] old[j]).vid == (#[trigger] c[k]).0 by {
        assert(0 <= about[k] < old.len());
        assert(old[about[k]].vid == c[k].0);
    }
    assert(half_changed(old, d0, c, me, 0)) by {
        assert(change_vids(c.take(0)) =~= Seq::<u64>::empty());
    }
    lemma_half_changed(old, d0, name, c, me, 0);
    assert(c.take(c.len() as int) =~= c);
    let now = changes_put_from(d0, name, c, me, 0)->Ok_0.table.rows;
    let vids = change_vids(c);
    assert forall|k: int| 0 <= k < old.len() implies #[trigger] now[k] == (if about.contains(k) {
        stamped(old[k], wc.owner)
    } else {
        old[k]
    }) by {
        if about.contains(k) {
            let m = choose|m: int| 0 <= m < about.len() && about[m] == k;
            assert(changes_version(old, schema, sets, wc, about[m], c[m]));
            assert(vids[m] == old[k].vid);
        }
        if vids.contains(old[k].vid) {
            let m = choose|m: int| 0 <= m < vids.len() && vids[m] == old[k].vid;
            assert(0 <= about[m] < old.len());
            assert(old[about[m]].vid == old[k].vid);
            assert(about[m] == k);
        }
    }
    assert forall|m: int| 0 <= m < about.len() implies 0 <= about[m] < old.len() && assigned_from(
        sets,
        schema,
        row_ctx(old[about[m]].values, schema, about[m] as u64),
        wc.env,
        0,
        old[about[m]].values,
    ) == Ok::<RowV, StopV>((#[trigger] now[old.len() + m]).values) by {
        assert(changes_version(old, schema, sets, wc, about[m], c[m]));
    }
}

proof fn lemma_put_count(d: DraftV, name: Seq<char>, c: Seq<(u64, RowV)>, me: u64, i: int)
    requires
        0 <= i <= c.len(),
        changes_put_from(d, name, c, me, i) is Ok,
    ensures
        changes_put_from(d, name, c, me, i)->Ok_0.rows.len() == d.rows.len() + c.len() - i,
    decreases c.len() - i,
{
    if i < c.len() {
        let e = crate::writes::appended(superseded(d, name, c[i].0, me), name, c[i].1, me)->Ok_0;
        lemma_put_count(e, name, c, me, i + 1);
    }
}

// ---- DELETE ---------------------------------------------------------------------------------------

proof fn lemma_deletes(
    rows: Seq<VersionV>,
    schema: SchemaV,
    guard: GuardV,
    filter: Option<ExprV>,
    wc: WriteV,
    i: int,
    acc: Seq<(u64, RowV)>,
    k: int,
)
    requires
        0 <= i <= rows.len(),
        0 <= k < rows.len(),
        deletes_from(rows, schema, guard, None, filter, wc, i, acc) is Ok,
        vids_apart(rows),
    ensures
        ({
            let c = deletes_from(rows, schema, guard, None, filter, wc, i, acc)->Ok_0;
            change_vids(c).contains(rows[k].vid) <==> change_vids(acc).contains(rows[k].vid) || (i
                <= k && is_about(rows[k], k, filter, schema, guard.using, wc))
        }),
    decreases rows.len() - i,
{
    if i < rows.len() {
        let next = acc.push((rows[i].vid, rows[i].values));
        let (x, y) = (change_vids(acc), change_vids(next));
        assert(y =~= x.push(rows[i].vid));
        assert(y.contains(rows[k].vid) <==> x.contains(rows[k].vid) || i == k) by {
            if x.contains(rows[k].vid) {
                let m = choose|m: int| 0 <= m < x.len() && x[m] == rows[k].vid;
                assert(y[m] == rows[k].vid);
            }
            assert(y[x.len() as int] == rows[i].vid);
            if y.contains(rows[k].vid) && !x.contains(rows[k].vid) {
                let m = choose|m: int| 0 <= m < y.len() && y[m] == rows[k].vid;
                if m < x.len() {
                    assert(x[m] == rows[k].vid);
                }
                assert(rows[i].vid == rows[k].vid);
            }
        }
        if is_about(rows[i], i, filter, schema, guard.using, wc) {
            lemma_deletes(rows, schema, guard, filter, wc, i + 1, next, k);
        } else {
            lemma_deletes(rows, schema, guard, filter, wc, i + 1, acc, k);
        }
    }
}

spec fn vids_apart(rows: Seq<VersionV>) -> bool {
    forall|a: int, b: int|
        #![trigger rows[a], rows[b]]
        0 <= a < rows.len() && 0 <= b < rows.len() && rows[a].vid == rows[b].vid ==> a == b
}

proof fn lemma_deletes_put(
    d: DraftV,
    name: Seq<char>,
    c: Seq<(u64, RowV)>,
    me: u64,
    i: int,
    k: int,
)
    requires
        0 <= i <= c.len(),
        vids_apart(d.table.rows),
        0 <= k < d.table.rows.len(),
    ensures
        ({
            let now = deletes_put_from(d, name, c, me, i).table.rows;
            &&& now.len() == d.table.rows.len()
            &&& now[k] == (if change_vids(c.skip(i)).contains(d.table.rows[k].vid) {
                stamped(d.table.rows[k], me)
            } else {
                d.table.rows[k]
            })
        }),
    decreases c.len() - i,
{
    let rows = d.table.rows;
    if i < c.len() {
        let e = superseded(d, name, c[i].0, me);
        let next = e.table.rows;
        lemma_version_pos(rows, c[i].0, 0);
        assert(vids_apart(next)) by {
            assert forall|a: int, b: int|
                #![trigger next[a], next[b]]
                0 <= a < next.len() && 0 <= b < next.len() && next[a].vid == next[b].vid implies a
                == b by {
                assert(rows[a].vid == rows[b].vid);
            }
        }
        lemma_deletes_put(e, name, c, me, i + 1, k);
        let (x, y) = (change_vids(c.skip(i)), change_vids(c.skip(i + 1)));
        assert(x =~= seq![c[i].0] + y);
        assert(x.contains(rows[k].vid) <==> c[i].0 == rows[k].vid || y.contains(rows[k].vid)) by {
            assert(x[0] == c[i].0);
            if y.contains(rows[k].vid) {
                let m = choose|m: int| 0 <= m < y.len() && y[m] == rows[k].vid;
                assert(x[m + 1] == rows[k].vid);
            }
            if x.contains(rows[k].vid) {
                let m = choose|m: int| 0 <= m < x.len() && x[m] == rows[k].vid;
                if m > 0 {
                    assert(y[m - 1] == rows[k].vid);
                }
            }
        }
        if c[i].0 == rows[k].vid {
            let p = version_pos_of(rows, c[i].0);
            assert(rows[p].vid == rows[k].vid);
            assert(next[k] == stamped(rows[k], me));
        } else {
            assert(next[k] == rows[k]);
        }
    } else {
        assert(change_vids(c.skip(i)) =~= Seq::<u64>::empty());
    }
}

spec fn version_pos_of(rows: Seq<VersionV>, vid: u64) -> int {
    crate::store::version_pos(rows, vid, 0)->0
}

/// A `DELETE` from a table alone marks just the versions that it is about.
pub proof fn law_delete_row_by_row(
    s: StoreV,
    name: Seq<char>,
    filter: Option<ExprV>,
    returning: Option<Seq<ItemV>>,
    wc: WriteV,
    i: int,
    guard: GuardV,
    k: int,
)
    requires
        table_pos(s, name) == Some(i),
        0 <= i < s.tables.len(),
        vids_ok(s.tables[i]),
        guard_of(s.tables[i].schema, PolicyCommand::Delete, wc.env) == Ok::<GuardV, StopV>(guard),
        deleted(s, name, None, filter, returning, wc) is Ok,
        0 <= k < s.tables[i].rows.len(),
    ensures
        ({
            let old = s.tables[i].rows;
            let now = deleted(s, name, None, filter, returning, wc)->Ok_0.0.tables[i].rows;
            &&& now.len() == old.len()
            &&& now[k] == (if is_about(old[k], k, filter, s.tables[i].schema, guard.using, wc) {
                stamped(old[k], wc.owner)
            } else {
                old[k]
            })
        }),
{
    let t = s.tables[i];
    reveal(sources_of);
    assert(vids_apart(t.rows));
    let c = deletes_from(t.rows, t.schema, guard, None, filter, wc, 0, Seq::empty())->Ok_0;
    lemma_deletes(t.rows, t.schema, guard, filter, wc, 0, Seq::empty(), k);
    assert(change_vids(Seq::<(u64, RowV)>::empty()) =~= Seq::<u64>::empty());
    lemma_deletes_put(fresh_draft(t), name, c, wc.owner, 0, k);
    assert(c.skip(0) =~= c);
    let d = delete_draft(s, t, name, None, filter, wc)->Ok_0;
    assert(with_table(s, i, d.table).tables[i] == d.table);
}

// ---- INSERT ---------------------------------------------------------------------------------------

proof fn lemma_given(
    exprs: Seq<ExprV>,
    targets: Seq<usize>,
    env: EnvV,
    k: int,
    slot: SlotV,
    p: int,
)
    requires
        0 <= k <= exprs.len(),
        targets.len() == exprs.len(),
        0 <= p < slot.len(),
        forall|a: int, b: int|
            0 <= a < b < targets.len() ==> #[trigger] targets[a] != #[trigger] targets[b],
        given_from(exprs, targets, env, k, slot) is Ok,
    ensures
        ({
            let out = given_from(exprs, targets, env, k, slot)->Ok_0;
            &&& out.len() == slot.len()
            &&& (forall|m: int| k <= m < targets.len() ==> #[trigger] targets[m] != p) ==> out[p]
                == slot[p]
            &&& forall|m: int|
                k <= m < targets.len() && #[trigger] targets[m] == p ==> (if exprs[m] is Default {
                    out[p] is None
                } else {
                    out[p] is Some && ev(exprs[m], root_ctx(), env) == Ok::<ValueV, StopV>(
                        out[p]->0,
                    )
                })
        }),
    decreases exprs.len() - k,
{
    if k < exprs.len() {
        let next = if exprs[k] is Default {
            slot_put(slot, targets[k], None)
        } else {
            slot_put(slot, targets[k], Some(ev(exprs[k], root_ctx(), env)->Ok_0))
        };
        lemma_given(exprs, targets, env, k + 1, next, p);
        let out = given_from(exprs, targets, env, k, slot)->Ok_0;
        assert forall|m: int| k <= m < targets.len() && #[trigger] targets[m] == p implies (
        if exprs[m] is Default {
            out[p] is None
        } else {
            out[p] is Some && ev(exprs[m], root_ctx(), env) == Ok::<ValueV, StopV>(out[p]->0)
        }) by {
            if m == k {
                assert forall|n: int| k + 1 <= n < targets.len() implies #[trigger] targets[n]
                    != p by {
                    assert(targets[k] != targets[n]);
                }
                assert(out[p] == next[p]);
            }
        }
    }
}

/// Each value of a `VALUES` row goes to the column that stands at its place in the list
/// of columns; the columns that are not in the list are given nothing.
pub proof fn law_values_go_to_their_columns(
    exprs: Seq<ExprV>,
    named: bool,
    targets: Seq<usize>,
    n: nat,
    env: EnvV,
    p: int,
)
    requires
        exprs.len() > 0,
        0 <= p < n,
        forall|a: int, b: int|
            0 <= a < b < targets.len() ==> #[trigger] targets[a] != #[trigger] targets[b],
        given(exprs, named, targets, n, env) is Ok,
    ensures
        ({
            let out = given(exprs, named, targets, n, env)->Ok_0;
            &&& exprs.len() == targets.len()
            &&& out.len() == n
            &&& (forall|m: int| 0 <= m < targets.len() ==> #[trigger] targets[m] != p)
                ==> out[p] is None
            &&& forall|m: int|
                0 <= m < targets.len() && #[trigger] targets[m] == p ==> (if exprs[m] is Default {
                    out[p] is None
                } else {
                    out[p] is Some && ev(exprs[m], root_ctx(), env) == Ok::<ValueV, StopV>(
                        out[p]->0,
                    )
                })
        }),
{
    lemma_given(exprs, targets, env, 0, blank_slot(n), p);
}

/// The cells of a row that a query gives go to the columns in their order.
pub proof fn law_selected_cells_go_to_their_columns(
    row: RowV,
    targets: Seq<usize>,
    n: nat,
    m: int,
)
    requires
        row.len() == targets.len(),
        0 <= m < targets.len(),
        targets[m] < n,
        forall|a: int, b: int|
            0 <= a < b < targets.len() ==> #[trigger] targets[a] != #[trigger] targets[b],
    ensures
        placed_from(row, targets, 0, blank_slot(n)).len() == n,
        placed_from(row, targets, 0, blank_slot(n))[targets[m] as int] == Some(row[m]),
{
    lemma_placed(row, targets, 0, blank_slot(n), m);
}

proof fn lemma_placed(row: RowV, targets: Seq<usize>, k: int, slot: SlotV, m: int)
    requires
        row.len() == targets.len(),
        0 <= k <= row.len(),
        0 <= m < targets.len(),
        targets[m] < slot.len(),
        forall|a: int, b: int|
            0 <= a < b < targets.len() ==> #[trigger] targets[a] != #[trigger] targets[b],
        m < k ==> slot[targets[m] as int] == Some(row[m]),
    ensures
        placed_from(row, targets, k, slot).len() == slot.len(),
        placed_from(row, targets, k, slot)[targets[m] as int] == Some(row[m]),
    decreases row.len() - k,
{
    if k < row.len() {
        if m < k {
            assert(targets[m] != targets[k]);
        }
        if k < m {
            assert(targets[k] != targets[m]);
        }
        lemma_placed(row, targets, k + 1, slot_put(slot, targets[k], Some(row[k])), m);
    }
}

proof fn lemma_cells(
    cols: Seq<ColumnV>,
    slot: SlotV,
    row: u64,
    auto: i64,
    env: EnvV,
    i: int,
    acc: RowV,
    p: int,
)
    requires
        0 <= i <= cols.len(),
        acc.len() == i,
        0 <= p < cols.len(),
        p < i ==> cell_made(cols[p], slot_at(slot, p), env, acc[p]),
        cells_from(cols, slot, row, auto, env, i, acc) is Ok,
    ensures
        ({
            let out = cells_from(cols, slot, row, auto, env, i, acc)->Ok_0.0;
            &&& out.len() == cols.len()
            &&& cell_made(cols[p], slot_at(slot, p), env, out[p])
        }),
    decreases cols.len() - i,
{
    if i < cols.len() {
        let tick = cell_tick(row, cols.len() as u64, i as u64);
        let (v, next) = finished_cell(cols[i], slot_at(slot, i), auto, tick, env)->Ok_0;
        let more = acc.push(v);
        if p < i {
            assert(more[p] == acc[p]);
        }
        lemma_cells(cols, slot, row, next, env, i + 1, more, p);
    }
}

/// What a cell of a new row is: the value that is given, coerced; a number where the
/// column counts and no known value is given; else what its `DEFAULT` is worth; else
/// `NULL`.
pub open spec fn cell_made(c: ColumnV, given: Option<ValueV>, env: EnvV, v: ValueV) -> bool {
    match given {
        Some(x) => if c.autoincrement && x is Null {
            v is Int
        } else {
            coerced(env.reals, c.ty, x) == Ok::<ValueV, StopV>(v)
        },
        None => if c.autoincrement {
            v is Int
        } else {
            match c.default_sql {
                None => v is Null,
                Some(d) => exists|tick: u64|
                    (#[trigger] constant_of(d, tick, env)) is Ok && coerced(
                        env.reals,
                        c.ty,
                        constant_of(d, tick, env)->Ok_0,
                    ) == Ok::<ValueV, StopV>(v),
            }
        },
    }
}

/// A new row has a cell for every column, each as its column makes it of what is given.
pub proof fn law_new_rows_are_made_cell_by_cell(
    cols: Seq<ColumnV>,
    slot: SlotV,
    row: u64,
    auto: i64,
    env: EnvV,
    p: int,
)
    requires
        0 <= p < cols.len(),
        cells_from(cols, slot, row, auto, env, 0, Seq::empty()) is Ok,
    ensures
        ({
            let out = cells_from(cols, slot, row, auto, env, 0, Seq::empty())->Ok_0.0;
            &&& out.len() == cols.len()
            &&& cell_made(cols[p], slot_at(slot, p), env, out[p])
        }),
{
    lemma_cells(cols, slot, row, auto, env, 0, Seq::empty(), p);
}

// ---- constraints ----------------------------------------------------------------------------------

/// A row is let through by `NOT NULL` just when no column that has it is `NULL`.
pub proof fn law_not_null(cols: Seq<ColumnV>, row: RowV, table: Seq<char>)
    ensures
        nulls_allowed(cols, row, table, 0) is Ok <==> forall|i: int|
            0 <= i < cols.len() && (#[trigger] cols[i]).not_null ==> i < row.len() && !(row[i] is Null),
{
    lemma_not_null(cols, row, table, 0);
}

proof fn lemma_not_null(cols: Seq<ColumnV>, row: RowV, table: Seq<char>, k: int)
    requires
        0 <= k <= cols.len(),
    ensures
        nulls_allowed(cols, row, table, k) is Ok <==> forall|i: int|
            k <= i < cols.len() && (#[trigger] cols[i]).not_null ==> i < row.len() && !(row[i] is Null),
    decreases cols.len() - k,
{
    if k < cols.len() {
        lemma_not_null(cols, row, table, k + 1);
    }
}

/// A row fits its vector columns just when each of them holds `NULL` or a vector of the
/// column's dimension.
pub proof fn law_dimensions(cols: Seq<ColumnV>, row: RowV, table: Seq<char>)
    requires
        row.len() == cols.len(),
    ensures
        dimensions_fit(cols, row, table, 0) is Ok <==> forall|i: int|
            0 <= i < cols.len() ==> ((#[trigger] cols[i]).ty matches ColumnType::Vector(d) ==> (
            row[i] is Null || (row[i] is Vector && row[i]->Vector_0.len() == d))),
{
    lemma_dimensions(cols, row, table, 0);
}

proof fn lemma_dimensions(cols: Seq<ColumnV>, row: RowV, table: Seq<char>, k: int)
    requires
        0 <= k <= cols.len(),
        row.len() == cols.len(),
    ensures
        dimensions_fit(cols, row, table, k) is Ok <==> forall|i: int|
            k <= i < cols.len() ==> ((#[trigger] cols[i]).ty matches ColumnType::Vector(d) ==> (
            row[i] is Null || (row[i] is Vector && row[i]->Vector_0.len() == d))),
    decreases cols.len() - k,
{
    if k < cols.len() {
        lemma_dimensions(cols, row, table, k + 1);
        assert(cell(row, k) == row[k]);
    }
}

/// A row meets its `CHECK`s just when none of them is false of it; one that is unknown
/// does no harm.
pub proof fn law_checks(
    checks: Seq<ExprV>,
    schema: SchemaV,
    row: RowV,
    tick: u64,
    env: EnvV,
    vals: RowV,
)
    requires
        vals.len() == checks.len(),
        forall|k: int|
            0 <= k < checks.len() ==> ev(
                #[trigger] checks[k],
                row_ctx(row, schema, tick),
                unbound(within(env, IN_CHECK, k as u64)),
            ) == Ok::<ValueV, StopV>(vals[k]),
    ensures
        checks_hold(checks, schema, row, tick, env, 0) is Ok <==> forall|k: int|
            0 <= k < checks.len() ==> truth(#[trigger] vals[k]) != Some(false),
{
    lemma_checks(checks, schema, row, tick, env, vals, 0);
}

proof fn lemma_checks(
    checks: Seq<ExprV>,
    schema: SchemaV,
    row: RowV,
    tick: u64,
    env: EnvV,
    vals: RowV,
    i: int,
)
    requires
        0 <= i <= checks.len(),
        vals.len() == checks.len(),
        forall|k: int|
            0 <= k < checks.len() ==> ev(
                #[trigger] checks[k],
                row_ctx(row, schema, tick),
                unbound(within(env, IN_CHECK, k as u64)),
            ) == Ok::<ValueV, StopV>(vals[k]),
    ensures
        checks_hold(checks, schema, row, tick, env, i) is Ok <==> forall|k: int|
            i <= k < checks.len() ==> truth(#[trigger] vals[k]) != Some(false),
    decreases checks.len() - i,
{
    if i < checks.len() {
        lemma_checks(checks, schema, row, tick, env, vals, i + 1);
        assert(ev(
            checks[i],
            row_ctx(row, schema, tick),
            unbound(within(env, IN_CHECK, i as u64)),
        ) == Ok::<ValueV, StopV>(vals[i]));
    }
}

/// A row passes the policies just when one of their conditions is true of it.
pub proof fn law_policies_pass(
    conds: Seq<ExprV>,
    schema: SchemaV,
    row: RowV,
    tick: u64,
    env: EnvV,
    vals: RowV,
)
    requires
        vals.len() == conds.len(),
        forall|k: int|
            0 <= k < conds.len() ==> ev(
                #[trigger] conds[k],
                row_ctx(row, schema, tick),
                unbound(within(env, IN_POLICY, k as u64)),
            ) == Ok::<ValueV, StopV>(vals[k]),
    ensures
        passes(Some(conds), schema, row, tick, env) == Ok::<bool, StopV>(
            exists|k: int| 0 <= k < vals.len() && truth(#[trigger] vals[k]) == Some(true),
        ),
{
    lemma_met(conds, schema, row, tick, env, vals, 0);
}

proof fn lemma_met(
    conds: Seq<ExprV>,
    schema: SchemaV,
    row: RowV,
    tick: u64,
    env: EnvV,
    vals: RowV,
    i: int,
)
    requires
        0 <= i <= conds.len(),
        vals.len() == conds.len(),
        forall|k: int|
            0 <= k < conds.len() ==> ev(
                #[trigger] conds[k],
                row_ctx(row, schema, tick),
                unbound(within(env, IN_POLICY, k as u64)),
            ) == Ok::<ValueV, StopV>(vals[k]),
    ensures
        met_from(conds, row_ctx(row, schema, tick), env, i) == Ok::<bool, StopV>(
            exists|k: int| i <= k < vals.len() && truth(#[trigger] vals[k]) == Some(true),
        ),
    decreases conds.len() - i,
{
    if i < conds.len() {
        lemma_met(conds, schema, row, tick, env, vals, i + 1);
        assert(ev(
            conds[i],
            row_ctx(row, schema, tick),
            unbound(within(env, IN_POLICY, i as u64)),
        ) == Ok::<ValueV, StopV>(vals[i]));
        if truth(vals[i]) != Some(true) && (exists|k: int|
            i <= k < vals.len() && truth(#[trigger] vals[k]) == Some(true)) {
            let k = choose|k: int| i <= k < vals.len() && truth(#[trigger] vals[k]) == Some(true);
            assert(i + 1 <= k);
        }
    }
}

} // verus!
