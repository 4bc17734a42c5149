//! What writes keep of the constraints of a table, and of what others are writing.
use vstd::prelude::*;
use crate::asks::StopV;
use crate::catalog::{key_columns, unique_keys, ColumnV, PolicyCommand, SchemaV};
use crate::constraints::{
    checks_hold, contended_from, contested, dimensions_fit, has_null, key_at, names_joined,
    nulls_allowed, others_insert, read_checks, row_valid, rows_fresh, rules_of, sets_kept,
    taken_from, unique_fail, RulesV,
};
use crate::env::EnvV;
use crate::inserts::{
    cell_tick, cells_from, clash_rules, clashed, finished_cell, holder_of, insert_draft, inserted,
    live_from, put_row, put_rows_from, slot_at, staged_from, staged_of, terms_of, ProgressV, TermsV,
};
use crate::policy::{guard_of, passes, GuardV};
use crate::primarylaws::{half_changed, lemma_half_changed};
use crate::relation::RelationV;
use crate::sql::{ExprV, FromV, InsertSourceV, ItemV, OnConflictV};
use crate::store::{table_pos, with_table, writer_sees, StoreV, TableV, VersionV};
use crate::updates::{
    change_rows, change_vids, changed_row, changes_from, changes_of, changes_put_from, deleted,
    deletes_from, keys_fresh, sources_of, touched, updated,
};
use crate::value::{RowV, ValueV};
use crate::writelaws::{alive, lemma_changes, lemma_version_pos, stampable, vids_ok};
use crate::writes::{fresh_draft, pending_version, slots_of, superseded, DraftV, SlotV, WriteV};

verus! {

// ---- UNIQUE ---------------------------------------------------------------------------------------

/// No two rows that the writer `me` sees as live agree in the columns; rows with a
/// `NULL` among them are not compared.
pub open spec fn known_keys_distinct(
    rows: Seq<VersionV>,
    cols: Seq<usize>,
    lsn: u64,
    me: u64,
) -> bool {
    forall|i: int, j: int|
        #![trigger rows[i], rows[j]]
        0 <= i < rows.len() && 0 <= j < rows.len() && writer_sees(rows[i], lsn, me) && writer_sees(
            rows[j],
            lsn,
            me,
        ) && !has_null(rows[i].values, cols) && !has_null(rows[j].values, cols) && key_at(
            rows[i].values,
            cols,
        ) == key_at(rows[j].values, cols) ==> i == j
}

/// The rows of a table once a statement has put `fresh` behind them and taken out
/// the versions in `gone`.
pub open spec fn settled(
    old: Seq<VersionV>,
    now: Seq<VersionV>,
    fresh: Seq<RowV>,
    gone: Seq<u64>,
    lsn: u64,
    me: u64,
) -> bool {
    &&& now.len() == old.len() + fresh.len()
    &&& forall|j: int|
        0 <= j < old.len() && writer_sees(#[trigger] now[j], lsn, me) ==> now[j] == old[j]
            && !gone.contains(old[j].vid)
    &&& forall|m: int| 0 <= m < fresh.len() ==> (#[trigger] now[old.len() + m]).values == fresh[m]
}

/// The keys of rows that were let through are new and differ from each other.
proof fn lemma_rows_fresh(
    rows: Seq<RowV>,
    cols: Seq<usize>,
    taken: Seq<Seq<char>>,
    breach: StopV,
    i: int,
)
    requires
        0 <= i,
        rows_fresh(rows, cols, taken, breach, i) is Ok,
    ensures
        forall|a: int|
            i <= a < rows.len() && !has_null(#[trigger] rows[a], cols) ==> !taken.contains(
                key_at(rows[a], cols),
            ),
        forall|a: int, b: int|
            #![trigger rows[a], rows[b]]
            i <= a < b < rows.len() && !has_null(rows[a], cols) && !has_null(rows[b], cols)
                ==> key_at(rows[a], cols) != key_at(rows[b], cols),
    decreases rows.len() - i,
{
    if i < rows.len() {
        if has_null(rows[i], cols) {
            lemma_rows_fresh(rows, cols, taken, breach, i + 1);
        } else {
            let key = key_at(rows[i], cols);
            let next = taken.push(key);
            lemma_rows_fresh(rows, cols, next, breach, i + 1);
            assert forall|a: int| i <= a < rows.len() && !has_null(#[trigger] rows[a], cols) implies
                !taken.contains(key_at(rows[a], cols)) by {
                if a > i {
                    let k = key_at(rows[a], cols);
                    if taken.contains(k) {
                        let m = choose|m: int| 0 <= m < taken.len() && taken[m] == k;
                        assert(next[m] == k);
                        assert(next.contains(k));
                    }
                }
            }
            assert forall|a: int, b: int|
                #![trigger rows[a], rows[b]]
                i <= a < b < rows.len() && !has_null(rows[a], cols) && !has_null(
                    rows[b],
                    cols,
                ) implies key_at(rows[a], cols) != key_at(rows[b], cols) by {
                if a == i {
                    assert(next[taken.len() as int] == key);
                    assert(next.contains(key));
                    assert(!next.contains(key_at(rows[b], cols)));
                }
            }
        }
    }
}

/// The known key of every live row that is not left out is taken.
proof fn lemma_known_taken(
    rows: Seq<VersionV>,
    cols: Seq<usize>,
    exclude: Seq<u64>,
    lsn: u64,
    me: u64,
    i: int,
    acc: Seq<Seq<char>>,
    k: Seq<char>,
    j: int,
)
    requires
        0 <= i,
        acc.contains(k) || (i <= j < rows.len() && !exclude.contains(rows[j].vid) && writer_sees(
            rows[j],
            lsn,
            me,
        ) && !has_null(rows[j].values, cols) && key_at(rows[j].values, cols) == k),
    ensures
        taken_from(rows, cols, exclude, lsn, me, true, i, acc).contains(k),
    decreases rows.len() - i,
{
    if i < rows.len() {
        let v = rows[i];
        let next = if exclude.contains(v.vid) || !writer_sees(v, lsn, me) || has_null(
            v.values,
            cols,
        ) {
            acc
        } else {
            acc.push(key_at(v.values, cols))
        };
        if acc.contains(k) {
            let m = choose|m: int| 0 <= m < acc.len() && acc[m] == k;
            assert(next[m] == k);
            assert(next.contains(k));
        } else if j == i {
            assert(next[acc.len() as int] == k);
            assert(next.contains(k));
        }
        lemma_known_taken(rows, cols, exclude, lsn, me, i + 1, next, k, j);
    }
}

/// Each unique set other than the primary key was gone through.
proof fn lemma_set_kept(
    sets: Seq<Seq<usize>>,
    i: int,
    old: Seq<VersionV>,
    schema: SchemaV,
    table: Seq<char>,
    rows: Seq<RowV>,
    exclude: Seq<u64>,
    lsn: u64,
    me: u64,
    k: int,
)
    requires
        0 <= i <= k < sets.len(),
        sets[k] != key_columns(schema.columns),
        sets_kept(sets, i, old, schema, table, rows, exclude, lsn, me) is Ok,
    ensures
        rows_fresh(
            rows,
            sets[k],
            taken_from(old, sets[k], exclude, lsn, me, true, 0, Seq::empty()),
            unique_fail(table, names_joined(schema, sets[k])),
            0,
        ) is Ok,
    decreases k - i,
{
    if i < k {
        lemma_set_kept(sets, i + 1, old, schema, table, rows, exclude, lsn, me, k);
    }
}

proof fn lemma_settled_distinct(
    old: Seq<VersionV>,
    now: Seq<VersionV>,
    fresh: Seq<RowV>,
    gone: Seq<u64>,
    cols: Seq<usize>,
    breach: StopV,
    lsn: u64,
    me: u64,
)
    requires
        settled(old, now, fresh, gone, lsn, me),
        known_keys_distinct(old, cols, lsn, me),
        rows_fresh(
            fresh,
            cols,
            taken_from(old, cols, gone, lsn, me, true, 0, Seq::empty()),
            breach,
            0,
        ) is Ok,
    ensures
        known_keys_distinct(now, cols, lsn, me),
{
    let taken = taken_from(old, cols, gone, lsn, me, true, 0, Seq::empty());
    let n = old.len() as int;
    lemma_rows_fresh(fresh, cols, taken, breach, 0);
    assert forall|a: int, b: int|
        #![trigger now[a], now[b]]
        0 <= a < now.len() && 0 <= b < now.len() && writer_sees(now[a], lsn, me) && writer_sees(
            now[b],
            lsn,
            me,
        ) && !has_null(now[a].values, cols) && !has_null(now[b].values, cols) && key_at(
            now[a].values,
            cols,
        ) == key_at(now[b].values, cols) implies a == b by {
        let k = key_at(now[a].values, cols);
        if a < n && b < n {
            assert(now[a] == old[a]);
            assert(now[b] == old[b]);
        } else if a < n {
            assert(now[a] == old[a]);
            lemma_known_taken(old, cols, gone, lsn, me, 0, Seq::empty(), k, a);
            assert(now[n + (b - n)].values == fresh[b - n]);
        } else if b < n {
            assert(now[b] == old[b]);
            lemma_known_taken(old, cols, gone, lsn, me, 0, Seq::empty(), k, b);
            assert(now[n + (a - n)].values == fresh[a - n]);
        } else {
            let x = a - n;
            let y = b - n;
            assert(now[n + x].values == fresh[x]);
            assert(now[n + y].values == fresh[y]);
            if x < y {
                assert(key_at(fresh[x], cols) != key_at(fresh[y], cols));
            } else if y < x {
                assert(key_at(fresh[y], cols) != key_at(fresh[x], cols));
            }
        }
    }
}

/// Where a clash is an error, every row goes in behind those that are there.
proof fn lemma_rows_added(
    t: TermsV,
    rows: Seq<RowV>,
    i: int,
    p: ProgressV,
    old: Seq<VersionV>,
    lsn: u64,
)
    requires
        0 <= i <= rows.len(),
        t.on_conflict is Error,
        settled(old, p.draft.table.rows, rows.take(i), Seq::empty(), lsn, t.owner),
        put_rows_from(t, rows, i, p) is Ok,
    ensures
        settled(
            old,
            put_rows_from(t, rows, i, p)->Ok_0.draft.table.rows,
            rows,
            Seq::empty(),
            lsn,
            t.owner,
        ),
    decreases rows.len() - i,
{
    if i < rows.len() {
        let q = put_row(t, p, rows[i], i as u64)->Ok_0;
        let had = p.draft.table.rows;
        let now = q.draft.table.rows;
        assert(now =~= had.push(pending_version(p.draft.table.next_vid, rows[i], t.owner)));
        assert(rows.take(i + 1) =~= rows.take(i).push(rows[i]));
        assert forall|j: int|
            0 <= j < old.len() && writer_sees(#[trigger] now[j], lsn, t.owner) implies now[j]
            == old[j] by {
            assert(now[j] == had[j]);
        }
        assert forall|m: int| 0 <= m < i + 1 implies (#[trigger] now[old.len() + m]).values
            == rows.take(i + 1)[m] by {
            if m < i {
                assert(now[old.len() + m] == had[old.len() + m]);
                assert(had[old.len() + m].values == rows.take(i)[m]);
            }
        }
        lemma_rows_added(t, rows, i + 1, q, old, lsn);
    } else {
        assert(rows.take(i) =~= rows);
    }
}

/// A plain `INSERT` keeps every unique set of columns beside the primary key: where
/// no two live rows agreed in it, no two do afterwards.
pub proof fn law_insert_keeps_uniques(
    s: StoreV,
    name: Seq<char>,
    columns: Option<Seq<Seq<char>>>,
    source: InsertSourceV,
    returning: Option<Seq<ItemV>>,
    wc: WriteV,
    i: int,
    k: int,
)
    requires
        table_pos(s, name) == Some(i),
        0 <= i < s.tables.len(),
        0 <= k < unique_keys(s.tables[i].schema).len(),
        unique_keys(s.tables[i].schema)[k] != key_columns(s.tables[i].schema.columns),
        known_keys_distinct(
            s.tables[i].rows,
            unique_keys(s.tables[i].schema)[k],
            s.committed_lsn,
            wc.owner,
        ),
        inserted(s, name, columns, source, OnConflictV::Error, returning, wc) is Ok,
    ensures
        known_keys_distinct(
            inserted(
                s,
                name,
                columns,
                source,
                OnConflictV::Error,
                returning,
                wc,
            )->Ok_0.0.tables[i].rows,
            unique_keys(s.tables[i].schema)[k],
            s.committed_lsn,
            wc.owner,
        ),
{
    let t0 = s.tables[i];
    let lsn = s.committed_lsn;
    let slots = slots_of(s, t0.schema, columns, source, wc)->Ok_0;
    let (rows, auto) = staged_of(slots, t0.schema, name, t0.next_autoinc, wc.env)->Ok_0;
    let t = TableV { next_autoinc: auto, ..t0 };
    let terms = terms_of(
        s,
        t0,
        name,
        OnConflictV::Error,
        clash_rules(t0.schema, OnConflictV::Error, wc.env)->Ok_0,
        wc,
    );
    let p = ProgressV {
        draft: fresh_draft(t),
        live: live_from(t.rows, terms.pk, lsn, wc.owner, 0, Seq::empty()),
    };
    assert(settled(t0.rows, p.draft.table.rows, rows.take(0), Seq::empty(), lsn, wc.owner));
    lemma_rows_added(terms, rows, 0, p, t0.rows, lsn);
    let d = insert_draft(s, t0, name, columns, source, OnConflictV::Error, wc)->Ok_0;
    assert(d == put_rows_from(terms, rows, 0, p)->Ok_0.draft);
    assert(with_table(s, i, d.table).tables[i] == d.table);
    let sets = unique_keys(t0.schema);
    lemma_set_kept(sets, 0, t0.rows, t0.schema, name, rows, Seq::empty(), lsn, wc.owner, k);
    lemma_settled_distinct(
        t0.rows,
        d.table.rows,
        rows,
        Seq::empty(),
        sets[k],
        unique_fail(name, names_joined(t0.schema, sets[k])),
        lsn,
        wc.owner,
    );
}

/// An `UPDATE` keeps every unique set of columns beside the primary key.
pub proof fn law_update_keeps_uniques(
    s: StoreV,
    name: Seq<char>,
    sets: Seq<(Seq<char>, ExprV)>,
    from: Option<FromV>,
    filter: Option<ExprV>,
    returning: Option<Seq<ItemV>>,
    wc: WriteV,
    i: int,
    k: int,
)
    requires
        table_pos(s, name) == Some(i),
        0 <= i < s.tables.len(),
        vids_ok(s.tables[i]),
        0 <= k < unique_keys(s.tables[i].schema).len(),
        unique_keys(s.tables[i].schema)[k] != key_columns(s.tables[i].schema.columns),
        known_keys_distinct(
            s.tables[i].rows,
            unique_keys(s.tables[i].schema)[k],
            s.committed_lsn,
            wc.owner,
        ),
        updated(s, name, sets, from, filter, returning, wc) is Ok,
    ensures
        known_keys_distinct(
            updated(s, name, sets, from, filter, returning, wc)->Ok_0.0.tables[i].rows,
            unique_keys(s.tables[i].schema)[k],
            s.committed_lsn,
            wc.owner,
        ),
{
    let t = s.tables[i];
    let old = t.rows;
    let lsn = s.committed_lsn;
    let me = wc.owner;
    let c = changes_of(s, t, name, sets, from, filter, wc)->Ok_0;
    let rules = rules_of(t.schema, PolicyCommand::Update, wc.env)->Ok_0;
    let src = sources_of(s, t.schema, name, from, wc)->Ok_0;
    lemma_changes(old, t.schema, name, sets, src, filter, rules, wc, 0, Seq::empty(), lsn);
    assert forall|k: int| 0 <= k < c.len() implies exists|j: int|
        0 <= j < old.len() && (#[trigger] old[j]).vid == (#[trigger] c[k]).0 by {
        assert(stampable(old, old, c[k].0, lsn));
        let j = choose|j: int|
            0 <= j < old.len() && (#[trigger] old[j]).vid == c[k].0 && (j >= old.len() || alive(
                old[j],
                lsn,
            ));
        assert(old[j].vid == c[k].0);
    }
    let d0 = fresh_draft(t);
    assert(half_changed(old, d0, c, me, 0)) by {
        assert(change_vids(c.take(0)) =~= Seq::<u64>::empty());
    }
    lemma_half_changed(old, d0, name, c, me, 0);
    let d = changes_put_from(d0, name, c, me, 0)->Ok_0;
    assert(with_table(s, i, d.table).tables[i] == d.table);
    assert(c.take(c.len() as int) =~= c);
    let now = d.table.rows;
    assert(settled(old, now, change_rows(c), change_vids(c), lsn, me)) by {
        assert forall|m: int| 0 <= m < change_rows(c).len() implies (#[trigger] now[old.len()
            + m]).values == change_rows(c)[m] by {
            assert(now[old.len() + m].values == c[m].1);
        }
    }
    let keys = unique_keys(t.schema);
    lemma_set_kept(keys, 0, old, t.schema, name, change_rows(c), change_vids(c), lsn, me, k);
    lemma_settled_distinct(
        old,
        now,
        change_rows(c),
        change_vids(c),
        keys[k],
        unique_fail(name, names_joined(t.schema, keys[k])),
        lsn,
        me,
    );
}

// ---- the rows that are written --------------------------------------------------------------------

proof fn lemma_staged_valid(
    slots: Seq<SlotV>,
    schema: SchemaV,
    table: Seq<char>,
    rules: RulesV,
    auto: i64,
    env: EnvV,
    i: int,
    acc: Seq<RowV>,
)
    requires
        0 <= i,
        acc.len() == i || i >= slots.len(),
        staged_from(slots, schema, table, rules, auto, env, i, acc) is Ok,
        forall|k: int|
            0 <= k < acc.len() ==> row_valid(
                schema,
                table,
                rules,
                #[trigger] acc[k],
                k as u64,
                env,
            ) is Ok,
    ensures
        ({
            let rows = staged_from(slots, schema, table, rules, auto, env, i, acc)->Ok_0.0;
            &&& acc.len() == i && i <= slots.len() ==> rows.len() == slots.len()
            &&& forall|k: int|
                0 <= k < rows.len() ==> row_valid(
                    schema,
                    table,
                    rules,
                    #[trigger] rows[k],
                    k as u64,
                    env,
                ) is Ok
        }),
    decreases slots.len() - i,
{
    if i < slots.len() {
        let (row, next) = cells_from(
            schema.columns,
            slots[i],
            i as u64,
            auto,
            env,
            0,
            Seq::empty(),
        )->Ok_0;
        lemma_staged_valid(slots, schema, table, rules, next, env, i + 1, acc.push(row));
    }
}

/// Every row that an `INSERT` stages satisfies `NOT NULL`, the vector dimensions and
/// the `CHECK` constraints of its table, and the policies let it be written.
pub proof fn law_inserted_rows_are_valid(
    slots: Seq<SlotV>,
    schema: SchemaV,
    table: Seq<char>,
    auto: i64,
    env: EnvV,
)
    requires
        staged_of(slots, schema, table, auto, env) is Ok,
    ensures
        ({
            let rows = staged_of(slots, schema, table, auto, env)->Ok_0.0;
            let rules = rules_of(schema, PolicyCommand::Insert, env)->Ok_0;
            &&& rules_of(schema, PolicyCommand::Insert, env) is Ok
            &&& rows.len() == slots.len()
            &&& forall|k: int|
                0 <= k < rows.len() ==> {
                    &&& nulls_allowed(schema.columns, #[trigger] rows[k], table, 0) is Ok
                    &&& dimensions_fit(schema.columns, rows[k], table, 0) is Ok
                    &&& checks_hold(rules.checks, schema, rows[k], k as u64, env, 0) is Ok
                    &&& passes(rules.guard.check, schema, rows[k], k as u64, env) == Ok::<
                        bool,
                        StopV,
                    >(true)
                }
        }),
{
    let rules = rules_of(schema, PolicyCommand::Insert, env)->Ok_0;
    lemma_staged_valid(slots, schema, table, rules, auto, env, 0, Seq::empty());
    let rows = staged_of(slots, schema, table, auto, env)->Ok_0.0;
    assert forall|k: int| 0 <= k < rows.len() implies {
        &&& nulls_allowed(schema.columns, #[trigger] rows[k], table, 0) is Ok
        &&& dimensions_fit(schema.columns, rows[k], table, 0) is Ok
        &&& checks_hold(rules.checks, schema, rows[k], k as u64, env, 0) is Ok
        &&& passes(rules.guard.check, schema, rows[k], k as u64, env) == Ok::<bool, StopV>(true)
    } by {
        assert(row_valid(schema, table, rules, rows[k], k as u64, env) is Ok);
    }
}

/// A row satisfies `NOT NULL`, the vector dimensions and the `CHECK` constraints of
/// its table.
pub open spec fn meets(
    schema: SchemaV,
    table: Seq<char>,
    checks: Seq<ExprV>,
    row: RowV,
    env: EnvV,
) -> bool {
    &&& nulls_allowed(schema.columns, row, table, 0) is Ok
    &&& dimensions_fit(schema.columns, row, table, 0) is Ok
    &&& exists|tick: u64| checks_hold(checks, schema, row, tick, env, 0) is Ok
}

/// The versions from `n` on hold rows that meet the constraints of their table.
pub open spec fn new_rows_meet(
    rows: Seq<VersionV>,
    n: int,
    schema: SchemaV,
    table: Seq<char>,
    checks: Seq<ExprV>,
    env: EnvV,
) -> bool {
    &&& 0 <= n <= rows.len()
    &&& forall|k: int|
        n <= k < rows.len() ==> meets(schema, table, checks, (#[trigger] rows[k]).values, env)
}

proof fn lemma_pushed_meets(
    rows: Seq<VersionV>,
    v: VersionV,
    n: int,
    schema: SchemaV,
    table: Seq<char>,
    checks: Seq<ExprV>,
    env: EnvV,
)
    requires
        new_rows_meet(rows, n, schema, table, checks, env),
        meets(schema, table, checks, v.values, env),
    ensures
        new_rows_meet(rows.push(v), n, schema, table, checks, env),
{
    let next = rows.push(v);
    assert forall|k: int| n <= k < next.len() implies meets(
        schema,
        table,
        checks,
        (#[trigger] next[k]).values,
        env,
    ) by {
        if k < rows.len() {
            assert(meets(schema, table, checks, rows[k].values, env));
        }
    }
}

proof fn lemma_superseded_meet(t: TermsV, d: DraftV, vid: u64, n: int)
    requires
        new_rows_meet(d.table.rows, n, t.schema, t.name, t.rules.checks, t.env),
    ensures
        new_rows_meet(
            superseded(d, t.name, vid, t.owner).table.rows,
            n,
            t.schema,
            t.name,
            t.rules.checks,
            t.env,
        ),
{
    let before = d.table.rows;
    let after = superseded(d, t.name, vid, t.owner).table.rows;
    lemma_version_pos(before, vid, 0);
    assert forall|k: int| n <= k < after.len() implies meets(
        t.schema,
        t.name,
        t.rules.checks,
        (#[trigger] after[k]).values,
        t.env,
    ) by {
        assert(meets(t.schema, t.name, t.rules.checks, before[k].values, t.env));
    }
}

/// What a clash puts in meets the constraints as the given row does.
proof fn lemma_clash_meets(t: TermsV, d: DraftV, old: u64, row: RowV, tick: u64)
    requires
        meets(t.schema, t.name, t.rules.checks, row, t.env),
    ensures
        clashed(t, d, old, row, tick) matches Ok(Some(new)) ==> meets(
            t.schema,
            t.name,
            t.rules.checks,
            new,
            t.env,
        ),
{
    if let Ok(Some(new)) = clashed(t, d, old, row, tick) {
        if t.on_conflict is Update {
            assert(row_valid(t.schema, t.name, t.rules, new, tick, t.env) is Ok);
            assert(checks_hold(t.rules.checks, t.schema, new, tick, t.env, 0) is Ok);
        }
    }
}

proof fn lemma_put_row_meets(t: TermsV, p: ProgressV, row: RowV, tick: u64, n: int)
    requires
        meets(t.schema, t.name, t.rules.checks, row, t.env),
        new_rows_meet(p.draft.table.rows, n, t.schema, t.name, t.rules.checks, t.env),
        put_row(t, p, row, tick) is Ok,
    ensures
        new_rows_meet(
            put_row(t, p, row, tick)->Ok_0.draft.table.rows,
            n,
            t.schema,
            t.name,
            t.rules.checks,
            t.env,
        ),
{
    let (c, e) = (t.rules.checks, t.env);
    let rows = p.draft.table.rows;
    let own = pending_version(p.draft.table.next_vid, row, t.owner);
    lemma_pushed_meets(rows, own, n, t.schema, t.name, c, e);
    if t.pk.len() > 0 {
        let key = key_at(row, t.pk);
        if let Some(old) = holder_of(p.live, key, p.live.len() as int) {
            lemma_clash_meets(t, p.draft, old, row, tick);
            lemma_superseded_meet(t, p.draft, old, n);
            if let Ok(Some(new)) = clashed(t, p.draft, old, row, tick) {
                let d = superseded(p.draft, t.name, old, t.owner);
                let v = pending_version(d.table.next_vid, new, t.owner);
                lemma_pushed_meets(d.table.rows, v, n, t.schema, t.name, c, e);
            }
        }
    }
}

proof fn lemma_put_rows_meet(t: TermsV, rows: Seq<RowV>, i: int, p: ProgressV, n: int)
    requires
        0 <= i,
        forall|k: int|
            0 <= k < rows.len() ==> meets(
                t.schema,
                t.name,
                t.rules.checks,
                #[trigger] rows[k],
                t.env,
            ),
        new_rows_meet(p.draft.table.rows, n, t.schema, t.name, t.rules.checks, t.env),
        put_rows_from(t, rows, i, p) is Ok,
    ensures
        new_rows_meet(
            put_rows_from(t, rows, i, p)->Ok_0.draft.table.rows,
            n,
            t.schema,
            t.name,
            t.rules.checks,
            t.env,
        ),
    decreases rows.len() - i,
{
    if i < rows.len() {
        lemma_put_row_meets(t, p, rows[i], i as u64, n);
        lemma_put_rows_meet(t, rows, i + 1, put_row(t, p, rows[i], i as u64)->Ok_0, n);
    }
}

/// Every version that an `INSERT` adds, the changed row of `ON CONFLICT DO UPDATE`
/// like any other, satisfies `NOT NULL`, the vector dimensions and the `CHECK`
/// constraints of its table.
pub proof fn law_added_rows_are_valid(
    s: StoreV,
    name: Seq<char>,
    columns: Option<Seq<Seq<char>>>,
    source: InsertSourceV,
    on_conflict: OnConflictV,
    returning: Option<Seq<ItemV>>,
    wc: WriteV,
    i: int,
)
    requires
        table_pos(s, name) == Some(i),
        0 <= i < s.tables.len(),
        inserted(s, name, columns, source, on_conflict, returning, wc) is Ok,
    ensures
        read_checks(s.tables[i].schema.checks, wc.env.reals) is Ok,
        new_rows_meet(
            inserted(s, name, columns, source, on_conflict, returning, wc)->Ok_0.0.tables[i].rows,
            s.tables[i].rows.len() as int,
            s.tables[i].schema,
            name,
            read_checks(s.tables[i].schema.checks, wc.env.reals)->Ok_0,
            wc.env,
        ),
{
    let t0 = s.tables[i];
    let slots = slots_of(s, t0.schema, columns, source, wc)->Ok_0;
    let (rows, auto) = staged_of(slots, t0.schema, name, t0.next_autoinc, wc.env)->Ok_0;
    let t = TableV { next_autoinc: auto, ..t0 };
    let rules = clash_rules(t0.schema, on_conflict, wc.env)->Ok_0;
    let terms = terms_of(s, t0, name, on_conflict, rules, wc);
    let p = ProgressV {
        draft: fresh_draft(t),
        live: live_from(t.rows, terms.pk, s.committed_lsn, wc.owner, 0, Seq::empty()),
    };
    law_inserted_rows_are_valid(slots, t0.schema, name, t0.next_autoinc, wc.env);
    assert forall|k: int| 0 <= k < rows.len() implies meets(
        t0.schema,
        name,
        rules.checks,
        #[trigger] rows[k],
        wc.env,
    ) by {
        assert(nulls_allowed(t0.schema.columns, rows[k], name, 0) is Ok);
        assert(checks_hold(rules.checks, t0.schema, rows[k], k as u64, wc.env, 0) is Ok);
    }
    lemma_put_rows_meet(terms, rows, 0, p, t0.rows.len() as int);
    let d = insert_draft(s, t0, name, columns, source, on_conflict, wc)->Ok_0;
    assert(d == put_rows_from(terms, rows, 0, p)->Ok_0.draft);
    assert(with_table(s, i, d.table).tables[i] == d.table);
}

// ---- the counter ----------------------------------------------------------------------------------

/// In the numbered columns from `i` on, no cell holds the last number there is.
pub open spec fn numbers_left(cols: Seq<ColumnV>, row: RowV, i: int) -> bool {
    forall|j: int|
        i <= j < cols.len() && j < row.len() && (#[trigger] cols[j]).autoincrement ==> row[j]
            != ValueV::Int(i64::MAX)
}

/// No number is given for a cell: there is no value, or `NULL`.
pub open spec fn unnumbered(slot: Option<ValueV>) -> bool {
    slot is None || slot == Some(ValueV::Null)
}

/// The counter `next` is past every number in the numbered columns from `i` on, and
/// the numbers drawn there start at `auto`.
pub open spec fn counted(
    cols: Seq<ColumnV>,
    slot: SlotV,
    row: RowV,
    auto: i64,
    next: i64,
    i: int,
) -> bool {
    forall|j: int|
        i <= j < cols.len() && j < row.len() && (#[trigger] cols[j]).autoincrement ==> {
            &&& row[j] matches ValueV::Int(n) ==> n < next
            &&& unnumbered(slot_at(slot, j)) ==> (row[j] matches ValueV::Int(n) && auto <= n)
        }
}

proof fn lemma_cells_counted(
    cols: Seq<ColumnV>,
    slot: SlotV,
    row: u64,
    auto: i64,
    env: EnvV,
    i: int,
    acc: RowV,
)
    requires
        0 <= i,
        acc.len() == i,
        i <= cols.len(),
        cells_from(cols, slot, row, auto, env, i, acc) is Ok,
        numbers_left(cols, cells_from(cols, slot, row, auto, env, i, acc)->Ok_0.0, i),
    ensures
        ({
            let (r, next) = cells_from(cols, slot, row, auto, env, i, acc)->Ok_0;
            &&& r.len() == cols.len()
            &&& r.take(i) == acc
            &&& auto <= next
            &&& counted(cols, slot, r, auto, next, i)
        }),
    decreases cols.len() - i,
{
    let (r, next) = cells_from(cols, slot, row, auto, env, i, acc)->Ok_0;
    if i < cols.len() {
        let tick = cell_tick(row, cols.len() as u64, i as u64);
        let (v, mid) = finished_cell(cols[i], slot_at(slot, i), auto, tick, env)->Ok_0;
        assert(numbers_left(cols, r, i + 1));
        lemma_cells_counted(cols, slot, row, mid, env, i + 1, acc.push(v));
        assert(r.take(i + 1)[i] == v);
        assert(r[i] == v);
        assert(r.take(i) =~= acc) by {
            assert(r.take(i) =~= r.take(i + 1).take(i));
            assert(acc.push(v).take(i) =~= acc);
        }
        assert(cols[i].autoincrement ==> v != ValueV::Int(i64::MAX));
        assert(auto <= mid);
        assert(counted(cols, slot, r, auto, next, i)) by {
            assert forall|j: int|
                i <= j < cols.len() && j < r.len() && (#[trigger] cols[j]).autoincrement implies {
                &&& r[j] matches ValueV::Int(n) ==> n < next
                &&& unnumbered(slot_at(slot, j)) ==> (r[j] matches ValueV::Int(n) && auto <= n)
            } by {
                if j > i {
                    assert(counted(cols, slot, r, mid, next, i + 1));
                }
            }
        }
    } else {
        assert(r.take(i) =~= acc);
    }
}

proof fn lemma_staged_counted(
    slots: Seq<SlotV>,
    schema: SchemaV,
    table: Seq<char>,
    rules: RulesV,
    auto: i64,
    env: EnvV,
    i: int,
    acc: Seq<RowV>,
    start: i64,
)
    requires
        0 <= i <= slots.len(),
        acc.len() == i,
        start <= auto,
        staged_from(slots, schema, table, rules, auto, env, i, acc) is Ok,
        forall|k: int|
            0 <= k < staged_from(
                slots,
                schema,
                table,
                rules,
                auto,
                env,
                i,
                acc,
            )->Ok_0.0.len() ==> numbers_left(
                schema.columns,
                #[trigger] staged_from(
                    slots,
                    schema,
                    table,
                    rules,
                    auto,
                    env,
                    i,
                    acc,
                )->Ok_0.0[k],
                0,
            ),
        forall|k: int|
            0 <= k < i ==> counted(schema.columns, slots[k], #[trigger] acc[k], start, auto, 0),
    ensures
        ({
            let (rows, next) = staged_from(slots, schema, table, rules, auto, env, i, acc)->Ok_0;
            &&& start <= next
            &&& rows.len() == slots.len()
            &&& rows.take(i) == acc
            &&& forall|k: int|
                0 <= k < rows.len() ==> counted(
                    schema.columns,
                    slots[k],
                    #[trigger] rows[k],
                    start,
                    next,
                    0,
                )
        }),
    decreases slots.len() - i,
{
    let cols = schema.columns;
    let (rows, next) = staged_from(slots, schema, table, rules, auto, env, i, acc)->Ok_0;
    if i < slots.len() {
        let (row, mid) = cells_from(
            cols,
            slots[i],
            i as u64,
            auto,
            env,
            0,
            Seq::empty(),
        )->Ok_0;
        let more = acc.push(row);
        assert(staged_from(slots, schema, table, rules, mid, env, i + 1, more) == Ok::<
            (Seq<RowV>, i64),
            StopV,
        >((rows, next)));
        lemma_staged_prefix(slots, schema, table, rules, mid, env, i + 1, more);
        assert(rows.take(i + 1)[i] == row);
        assert(numbers_left(cols, rows[i], 0));
        lemma_cells_counted(cols, slots[i], i as u64, auto, env, 0, Seq::empty());
        assert forall|k: int| 0 <= k < i + 1 implies counted(
            cols,
            slots[k],
            #[trigger] more[k],
            start,
            mid,
            0,
        ) by {
            if k < i {
                assert(counted(cols, slots[k], acc[k], start, auto, 0));
            }
        }
        lemma_staged_counted(slots, schema, table, rules, mid, env, i + 1, more, start);
        assert(rows.take(i) =~= acc) by {
            assert(rows.take(i) =~= rows.take(i + 1).take(i));
            assert(more.take(i) =~= acc);
        }
    } else {
        assert(rows.take(i) =~= acc);
    }
}

proof fn lemma_staged_prefix(
    slots: Seq<SlotV>,
    schema: SchemaV,
    table: Seq<char>,
    rules: RulesV,
    auto: i64,
    env: EnvV,
    i: int,
    acc: Seq<RowV>,
)
    requires
        0 <= i <= slots.len(),
        acc.len() == i,
        staged_from(slots, schema, table, rules, auto, env, i, acc) is Ok,
    ensures
        ({
            let rows = staged_from(slots, schema, table, rules, auto, env, i, acc)->Ok_0.0;
            rows.len() == slots.len() && rows.take(i) == acc
        }),
    decreases slots.len() - i,
{
    let rows = staged_from(slots, schema, table, rules, auto, env, i, acc)->Ok_0.0;
    if i < slots.len() {
        let (row, mid) = cells_from(
            schema.columns,
            slots[i],
            i as u64,
            auto,
            env,
            0,
            Seq::empty(),
        )->Ok_0;
        let more = acc.push(row);
        lemma_staged_prefix(slots, schema, table, rules, mid, env, i + 1, more);
        assert(rows.take(i) =~= rows.take(i + 1).take(i));
        assert(more.take(i) =~= acc);
    } else {
        assert(rows.take(i) =~= acc);
    }
}

/// The counter of a table only rises: an `INSERT` leaves it past every number that
/// it wrote into a numbered column, and draws none below where it stood. The last
/// number there is, behind which the counter starts over, must not come up.
pub proof fn law_counter_rises(
    slots: Seq<SlotV>,
    schema: SchemaV,
    table: Seq<char>,
    auto: i64,
    env: EnvV,
)
    requires
        staged_of(slots, schema, table, auto, env) is Ok,
        forall|k: int|
            0 <= k < staged_of(slots, schema, table, auto, env)->Ok_0.0.len() ==> numbers_left(
                schema.columns,
                #[trigger] staged_of(slots, schema, table, auto, env)->Ok_0.0[k],
                0,
            ),
    ensures
        ({
            let (rows, next) = staged_of(slots, schema, table, auto, env)->Ok_0;
            &&& auto <= next
            &&& rows.len() == slots.len()
            &&& forall|k: int|
                0 <= k < rows.len() ==> counted(
                    schema.columns,
                    slots[k],
                    #[trigger] rows[k],
                    auto,
                    next,
                    0,
                )
        }),
{
    let rules = rules_of(schema, PolicyCommand::Insert, env)->Ok_0;
    lemma_staged_counted(slots, schema, table, rules, auto, env, 0, Seq::empty(), auto);
}

// ---- changed rows ---------------------------------------------------------------------------------

/// A change of an `UPDATE`: it comes from a row that the writer sees, that the
/// policies let it change and that nobody else has touched; the new row satisfies
/// the constraints of its table, and the policies let it be written.
pub open spec fn sound_change(
    rows: Seq<VersionV>,
    schema: SchemaV,
    table: Seq<char>,
    rules: RulesV,
    wc: WriteV,
    c: (u64, RowV),
    j: int,
) -> bool {
    &&& 0 <= j < rows.len()
    &&& rows[j].vid == c.0
    &&& writer_sees(rows[j], wc.snapshot, wc.owner)
    &&& !contested(rows[j], wc.snapshot, wc.owner)
    &&& passes(rules.guard.using, schema, rows[j].values, j as u64, wc.env) == Ok::<bool, StopV>(
        true,
    )
    &&& nulls_allowed(schema.columns, c.1, table, 0) is Ok
    &&& dimensions_fit(schema.columns, c.1, table, 0) is Ok
    &&& checks_hold(rules.checks, schema, c.1, j as u64, wc.env, 0) is Ok
    &&& passes(rules.guard.check, schema, c.1, j as u64, wc.env) == Ok::<bool, StopV>(true)
}

pub open spec fn is_sound(
    rows: Seq<VersionV>,
    schema: SchemaV,
    table: Seq<char>,
    rules: RulesV,
    wc: WriteV,
    c: (u64, RowV),
) -> bool {
    exists|j: int| sound_change(rows, schema, table, rules, wc, c, j)
}

/// Every one of the changes is sound.
pub open spec fn all_sound(
    rows: Seq<VersionV>,
    schema: SchemaV,
    table: Seq<char>,
    rules: RulesV,
    wc: WriteV,
    changes: Seq<(u64, RowV)>,
) -> bool {
    forall|k: int|
        0 <= k < changes.len() ==> is_sound(rows, schema, table, rules, wc, #[trigger] changes[k])
}

proof fn lemma_sound_push(
    rows: Seq<VersionV>,
    schema: SchemaV,
    table: Seq<char>,
    rules: RulesV,
    wc: WriteV,
    acc: Seq<(u64, RowV)>,
    c: (u64, RowV),
    i: int,
)
    requires
        all_sound(rows, schema, table, rules, wc, acc),
        sound_change(rows, schema, table, rules, wc, c, i),
    ensures
        all_sound(rows, schema, table, rules, wc, acc.push(c)),
{
    assert(is_sound(rows, schema, table, rules, wc, c));
    assert forall|k: int| 0 <= k < acc.push(c).len() implies is_sound(
        rows,
        schema,
        table,
        rules,
        wc,
        #[trigger] acc.push(c)[k],
    ) by {
        if k < acc.len() {
            assert(acc.push(c)[k] == acc[k]);
        }
    }
}

proof fn lemma_changes_sound(
    rows: Seq<VersionV>,
    schema: SchemaV,
    name: Seq<char>,
    sets: Seq<(Seq<char>, ExprV)>,
    src: Option<RelationV>,
    filter: Option<ExprV>,
    rules: RulesV,
    wc: WriteV,
    i: int,
    acc: Seq<(u64, RowV)>,
)
    requires
        0 <= i,
        changes_from(rows, schema, name, sets, src, filter, rules, wc, i, acc) is Ok,
        all_sound(rows, schema, name, rules, wc, acc),
    ensures
        all_sound(
            rows,
            schema,
            name,
            rules,
            wc,
            changes_from(rows, schema, name, sets, src, filter, rules, wc, i, acc)->Ok_0,
        ),
    decreases rows.len() - i,
{
    if i < rows.len() {
        let next = match changed_row(
            rows[i],
            i as u64,
            schema,
            name,
            sets,
            src,
            filter,
            rules,
            wc,
        ) {
            Ok(Some(row)) => acc.push((rows[i].vid, row)),
            _ => acc,
        };
        if next.len() > acc.len() {
            lemma_sound_push(rows, schema, name, rules, wc, acc, next.last(), i);
        }
        lemma_changes_sound(rows, schema, name, sets, src, filter, rules, wc, i + 1, next);
    }
}

/// Every change of an `UPDATE` is sound.
pub proof fn law_updated_rows_are_valid(
    s: StoreV,
    t: TableV,
    name: Seq<char>,
    sets: Seq<(Seq<char>, ExprV)>,
    from: Option<FromV>,
    filter: Option<ExprV>,
    wc: WriteV,
)
    requires
        changes_of(s, t, name, sets, from, filter, wc) is Ok,
    ensures
        rules_of(t.schema, PolicyCommand::Update, wc.env) is Ok,
        all_sound(
            t.rows,
            t.schema,
            name,
            rules_of(t.schema, PolicyCommand::Update, wc.env)->Ok_0,
            wc,
            changes_of(s, t, name, sets, from, filter, wc)->Ok_0,
        ),
{
    let rules = rules_of(t.schema, PolicyCommand::Update, wc.env)->Ok_0;
    let src = sources_of(s, t.schema, name, from, wc)->Ok_0;
    lemma_changes_sound(
        t.rows,
        t.schema,
        name,
        sets,
        src,
        filter,
        rules,
        wc,
        0,
        Seq::empty(),
    );
}

/// A row that a `DELETE` takes out: one that the writer sees, that the policies let
/// it delete and that nobody else has touched.
pub open spec fn sound_victim(
    rows: Seq<VersionV>,
    schema: SchemaV,
    guard: GuardV,
    wc: WriteV,
    c: (u64, RowV),
    j: int,
) -> bool {
    &&& 0 <= j < rows.len()
    &&& c == (rows[j].vid, rows[j].values)
    &&& writer_sees(rows[j], wc.snapshot, wc.owner)
    &&& !contested(rows[j], wc.snapshot, wc.owner)
    &&& passes(guard.using, schema, rows[j].values, j as u64, wc.env) == Ok::<bool, StopV>(true)
}

pub open spec fn may_go(
    rows: Seq<VersionV>,
    schema: SchemaV,
    guard: GuardV,
    wc: WriteV,
    c: (u64, RowV),
) -> bool {
    exists|j: int| sound_victim(rows, schema, guard, wc, c, j)
}

pub open spec fn all_victims(
    rows: Seq<VersionV>,
    schema: SchemaV,
    guard: GuardV,
    wc: WriteV,
    victims: Seq<(u64, RowV)>,
) -> bool {
    forall|k: int|
        0 <= k < victims.len() ==> may_go(rows, schema, guard, wc, #[trigger] victims[k])
}

pub proof fn lemma_victims(
    rows: Seq<VersionV>,
    schema: SchemaV,
    guard: GuardV,
    src: Option<RelationV>,
    filter: Option<ExprV>,
    wc: WriteV,
    i: int,
    acc: Seq<(u64, RowV)>,
)
    requires
        0 <= i,
        deletes_from(rows, schema, guard, src, filter, wc, i, acc) is Ok,
        all_victims(rows, schema, guard, wc, acc),
    ensures
        all_victims(
            rows,
            schema,
            guard,
            wc,
            deletes_from(rows, schema, guard, src, filter, wc, i, acc)->Ok_0,
        ),
    decreases rows.len() - i,
{
    if i < rows.len() {
        if writer_sees(rows[i], wc.snapshot, wc.owner) && touched(
            guard,
            filter,
            schema,
            src,
            rows[i].values,
            i as u64,
            wc.env,
        )->Ok_0 is Some {
            let c = (rows[i].vid, rows[i].values);
            let next = acc.push(c);
            assert(sound_victim(rows, schema, guard, wc, c, i));
            assert(may_go(rows, schema, guard, wc, c));
            assert forall|k: int| 0 <= k < next.len() implies may_go(
                rows,
                schema,
                guard,
                wc,
                #[trigger] next[k],
            ) by {
                if k < acc.len() {
                    assert(next[k] == acc[k]);
                }
            }
            lemma_victims(rows, schema, guard, src, filter, wc, i + 1, next);
        } else {
            lemma_victims(rows, schema, guard, src, filter, wc, i + 1, acc);
        }
    }
}

/// Every row that a `DELETE` takes out may be taken out.
pub proof fn law_deleted_rows_may_go(
    rows: Seq<VersionV>,
    schema: SchemaV,
    guard: GuardV,
    src: Option<RelationV>,
    filter: Option<ExprV>,
    wc: WriteV,
)
    requires
        deletes_from(rows, schema, guard, src, filter, wc, 0, Seq::empty()) is Ok,
    ensures
        all_victims(
            rows,
            schema,
            guard,
            wc,
            deletes_from(rows, schema, guard, src, filter, wc, 0, Seq::empty())->Ok_0,
        ),
{
    lemma_victims(rows, schema, guard, src, filter, wc, 0, Seq::empty());
}

// ---- other writers --------------------------------------------------------------------------------

proof fn lemma_changes_stop(
    rows: Seq<VersionV>,
    schema: SchemaV,
    name: Seq<char>,
    sets: Seq<(Seq<char>, ExprV)>,
    src: Option<RelationV>,
    filter: Option<ExprV>,
    rules: RulesV,
    wc: WriteV,
    i: int,
    acc: Seq<(u64, RowV)>,
    k: int,
)
    requires
        0 <= i <= k < rows.len(),
        changed_row(rows[k], k as u64, schema, name, sets, src, filter, rules, wc) is Err,
    ensures
        changes_from(rows, schema, name, sets, src, filter, rules, wc, i, acc) is Err,
    decreases k - i,
{
    if i < k {
        match changed_row(rows[i], i as u64, schema, name, sets, src, filter, rules, wc) {
            Err(_) => {},
            Ok(None) => {
                lemma_changes_stop(
                    rows,
                    schema,
                    name,
                    sets,
                    src,
                    filter,
                    rules,
                    wc,
                    i + 1,
                    acc,
                    k,
                );
            },
            Ok(Some(row)) => {
                lemma_changes_stop(
                    rows,
                    schema,
                    name,
                    sets,
                    src,
                    filter,
                    rules,
                    wc,
                    i + 1,
                    acc.push((rows[i].vid, row)),
                    k,
                );
            },
        }
    }
}

/// No update is lost: an `UPDATE` that means a row which another transaction has
/// changed since this one began, or is changing, fails.
pub proof fn law_no_update_is_lost(
    s: StoreV,
    name: Seq<char>,
    sets: Seq<(Seq<char>, ExprV)>,
    from: Option<FromV>,
    filter: Option<ExprV>,
    returning: Option<Seq<ItemV>>,
    wc: WriteV,
    i: int,
    k: int,
    rules: RulesV,
    src: Option<RelationV>,
)
    requires
        table_pos(s, name) == Some(i),
        0 <= i < s.tables.len(),
        rules_of(s.tables[i].schema, PolicyCommand::Update, wc.env) == Ok::<RulesV, StopV>(rules),
        sources_of(s, s.tables[i].schema, name, from, wc) == Ok::<Option<RelationV>, StopV>(src),
        0 <= k < s.tables[i].rows.len(),
        writer_sees(s.tables[i].rows[k], wc.snapshot, wc.owner),
        touched(
            rules.guard,
            filter,
            s.tables[i].schema,
            src,
            s.tables[i].rows[k].values,
            k as u64,
            wc.env,
        ) matches Ok(Some(_)),
        contested(s.tables[i].rows[k], wc.snapshot, wc.owner),
    ensures
        updated(s, name, sets, from, filter, returning, wc) is Err,
{
    let t = s.tables[i];
    lemma_changes_stop(
        t.rows,
        t.schema,
        name,
        sets,
        src,
        filter,
        rules,
        wc,
        0,
        Seq::empty(),
        k,
    );
}

proof fn lemma_deletes_stop(
    rows: Seq<VersionV>,
    schema: SchemaV,
    guard: GuardV,
    src: Option<RelationV>,
    filter: Option<ExprV>,
    wc: WriteV,
    i: int,
    acc: Seq<(u64, RowV)>,
    k: int,
)
    requires
        0 <= i <= k < rows.len(),
        writer_sees(rows[k], wc.snapshot, wc.owner),
        touched(guard, filter, schema, src, rows[k].values, k as u64, wc.env) matches Ok(Some(_)),
        contested(rows[k], wc.snapshot, wc.owner),
    ensures
        deletes_from(rows, schema, guard, src, filter, wc, i, acc) is Err,
    decreases k - i,
{
    if i < k {
        let next = if writer_sees(rows[i], wc.snapshot, wc.owner) && touched(
            guard,
            filter,
            schema,
            src,
            rows[i].values,
            i as u64,
            wc.env,
        )->Ok_0 is Some {
            acc.push((rows[i].vid, rows[i].values))
        } else {
            acc
        };
        lemma_deletes_stop(rows, schema, guard, src, filter, wc, i + 1, next, k);
        lemma_deletes_stop(rows, schema, guard, src, filter, wc, i + 1, acc, k);
    }
}

/// A `DELETE` that means a row which another transaction has changed since this one
/// began, or is changing, fails.
pub proof fn law_no_delete_is_lost(
    s: StoreV,
    name: Seq<char>,
    using: Option<FromV>,
    filter: Option<ExprV>,
    returning: Option<Seq<ItemV>>,
    wc: WriteV,
    i: int,
    k: int,
    guard: GuardV,
    src: Option<RelationV>,
)
    requires
        table_pos(s, name) == Some(i),
        0 <= i < s.tables.len(),
        guard_of(s.tables[i].schema, PolicyCommand::Delete, wc.env) == Ok::<GuardV, StopV>(guard),
        sources_of(s, s.tables[i].schema, name, using, wc) == Ok::<Option<RelationV>, StopV>(src),
        0 <= k < s.tables[i].rows.len(),
        writer_sees(s.tables[i].rows[k], wc.snapshot, wc.owner),
        touched(
            guard,
            filter,
            s.tables[i].schema,
            src,
            s.tables[i].rows[k].values,
            k as u64,
            wc.env,
        ) matches Ok(Some(_)),
        contested(s.tables[i].rows[k], wc.snapshot, wc.owner),
    ensures
        deleted(s, name, using, filter, returning, wc) is Err,
{
    let t = s.tables[i];
    lemma_deletes_stop(t.rows, t.schema, guard, src, filter, wc, 0, Seq::empty(), k);
}

/// The key of every row that another is inserting is contended.
pub proof fn lemma_contended(
    rows: Seq<VersionV>,
    cols: Seq<usize>,
    exclude: Seq<u64>,
    lsn: u64,
    me: u64,
    i: int,
    acc: Seq<Seq<char>>,
    k: Seq<char>,
    j: int,
)
    requires
        0 <= i,
        acc.contains(k) || (i <= j < rows.len() && !exclude.contains(rows[j].vid) && others_insert(
            rows[j],
            lsn,
            me,
        ) && key_at(rows[j].values, cols) == k),
    ensures
        contended_from(rows, cols, exclude, lsn, me, i, acc).contains(k),
    decreases rows.len() - i,
{
    if i < rows.len() {
        let v = rows[i];
        let next = if !exclude.contains(v.vid) && others_insert(v, lsn, me) {
            acc.push(key_at(v.values, cols))
        } else {
            acc
        };
        if acc.contains(k) {
            let m = choose|m: int| 0 <= m < acc.len() && acc[m] == k;
            assert(next[m] == k);
            assert(next.contains(k));
        } else if j == i {
            assert(next[acc.len() as int] == k);
            assert(next.contains(k));
        }
        lemma_contended(rows, cols, exclude, lsn, me, i + 1, next, k, j);
    }
}

proof fn lemma_put_uncontended(t: TermsV, rows: Seq<RowV>, i: int, p: ProgressV, m: int)
    requires
        0 <= i <= m < rows.len(),
        t.pk.len() > 0,
        put_rows_from(t, rows, i, p) is Ok,
    ensures
        !t.contended.contains(key_at(rows[m], t.pk)),
    decreases m - i,
{
    if i < m {
        lemma_put_uncontended(t, rows, i + 1, put_row(t, p, rows[i], i as u64)->Ok_0, m);
    }
}

/// Two transactions never insert the same key side by side: where an `INSERT`
/// succeeds, none of its rows has the primary key of a row that another writer is
/// inserting.
pub proof fn law_inserted_keys_are_nobody_elses(
    s: StoreV,
    name: Seq<char>,
    columns: Option<Seq<Seq<char>>>,
    source: InsertSourceV,
    on_conflict: OnConflictV,
    returning: Option<Seq<ItemV>>,
    wc: WriteV,
    i: int,
    j: int,
    m: int,
)
    requires
        table_pos(s, name) == Some(i),
        0 <= i < s.tables.len(),
        key_columns(s.tables[i].schema.columns).len() > 0,
        inserted(s, name, columns, source, on_conflict, returning, wc) is Ok,
        0 <= j < s.tables[i].rows.len(),
        others_insert(s.tables[i].rows[j], s.committed_lsn, wc.owner),
        0 <= m < staged_of(
            slots_of(s, s.tables[i].schema, columns, source, wc)->Ok_0,
            s.tables[i].schema,
            name,
            s.tables[i].next_autoinc,
            wc.env,
        )->Ok_0.0.len(),
    ensures
        key_at(s.tables[i].rows[j].values, key_columns(s.tables[i].schema.columns)) != key_at(
            staged_of(
                slots_of(s, s.tables[i].schema, columns, source, wc)->Ok_0,
                s.tables[i].schema,
                name,
                s.tables[i].next_autoinc,
                wc.env,
            )->Ok_0.0[m],
            key_columns(s.tables[i].schema.columns),
        ),
{
    let t = s.tables[i];
    let pk = key_columns(t.schema.columns);
    let slots = slots_of(s, t.schema, columns, source, wc)->Ok_0;
    let (rows, auto) = staged_of(slots, t.schema, name, t.next_autoinc, wc.env)->Ok_0;
    let terms = terms_of(
        s,
        t,
        name,
        on_conflict,
        clash_rules(t.schema, on_conflict, wc.env)->Ok_0,
        wc,
    );
    let p = ProgressV {
        draft: fresh_draft(TableV { next_autoinc: auto, ..t }),
        live: live_from(t.rows, pk, s.committed_lsn, wc.owner, 0, Seq::empty()),
    };
    assert(insert_draft(s, t, name, columns, source, on_conflict, wc) is Ok);
    lemma_put_uncontended(terms, rows, 0, p, m);
    lemma_contended(
        t.rows,
        pk,
        Seq::empty(),
        s.committed_lsn,
        wc.owner,
        0,
        Seq::empty(),
        key_at(t.rows[j].values, pk),
        j,
    );
}

proof fn lemma_keys_uncontended(
    rows: Seq<RowV>,
    pk: Seq<usize>,
    contended: Seq<Seq<char>>,
    taken: Seq<Seq<char>>,
    name: Seq<char>,
    names: Seq<char>,
    i: int,
    m: int,
)
    requires
        0 <= i <= m < rows.len(),
        keys_fresh(rows, pk, contended, taken, name, names, i) is Ok,
    ensures
        !contended.contains(key_at(rows[m], pk)),
    decreases m - i,
{
    if i < m {
        lemma_keys_uncontended(
            rows,
            pk,
            contended,
            taken.push(key_at(rows[i], pk)),
            name,
            names,
            i + 1,
            m,
        );
    }
}

/// Where an `UPDATE` succeeds, none of its new rows has the primary key of a row
/// that another writer is inserting.
pub proof fn law_updated_keys_are_nobody_elses(
    s: StoreV,
    name: Seq<char>,
    sets: Seq<(Seq<char>, ExprV)>,
    from: Option<FromV>,
    filter: Option<ExprV>,
    returning: Option<Seq<ItemV>>,
    wc: WriteV,
    i: int,
    j: int,
    m: int,
)
    requires
        table_pos(s, name) == Some(i),
        0 <= i < s.tables.len(),
        vids_ok(s.tables[i]),
        key_columns(s.tables[i].schema.columns).len() > 0,
        updated(s, name, sets, from, filter, returning, wc) is Ok,
        0 <= j < s.tables[i].rows.len(),
        others_insert(s.tables[i].rows[j], s.committed_lsn, wc.owner),
        0 <= m < changes_of(s, s.tables[i], name, sets, from, filter, wc)->Ok_0.len(),
    ensures
        key_at(s.tables[i].rows[j].values, key_columns(s.tables[i].schema.columns)) != key_at(
            changes_of(s, s.tables[i], name, sets, from, filter, wc)->Ok_0[m].1,
            key_columns(s.tables[i].schema.columns),
        ),
{
    let t = s.tables[i];
    let pk = key_columns(t.schema.columns);
    let c = changes_of(s, t, name, sets, from, filter, wc)->Ok_0;
    let vids = change_vids(c);
    let lsn = s.committed_lsn;
    let rules = rules_of(t.schema, PolicyCommand::Update, wc.env)->Ok_0;
    law_updated_rows_are_valid(s, t, name, sets, from, filter, wc);
    assert(!vids.contains(t.rows[j].vid)) by {
        if vids.contains(t.rows[j].vid) {
            let k = choose|k: int| 0 <= k < vids.len() && vids[k] == t.rows[j].vid;
            assert(is_sound(t.rows, t.schema, name, rules, wc, c[k]));
            let x = choose|x: int| sound_change(t.rows, t.schema, name, rules, wc, c[k], x);
            assert(t.rows[x].vid == t.rows[j].vid);
        }
    }
    lemma_contended(
        t.rows,
        pk,
        vids,
        lsn,
        wc.owner,
        0,
        Seq::empty(),
        key_at(t.rows[j].values, pk),
        j,
    );
    lemma_keys_uncontended(
        change_rows(c),
        pk,
        contended_from(t.rows, pk, vids, lsn, wc.owner, 0, Seq::empty()),
        taken_from(t.rows, pk, vids, lsn, wc.owner, false, 0, Seq::empty()),
        name,
        names_joined(t.schema, pk),
        0,
        m,
    );
    assert(change_rows(c)[m] == c[m].1);
}

} // verus!
