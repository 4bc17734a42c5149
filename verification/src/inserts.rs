//! Staging the rows of an `INSERT` and putting them into a table.
use vstd::prelude::*;
use crate::asks::{Stop, StopV};
use crate::catalog::{
    column_pos, columns_view, key_columns, unique_keys, Column, ColumnV, PolicyCommand, SchemaV,
    TableSchema,
};
use crate::constraints::{
    changed_fail, check_no_conflict, check_row, check_secondary_uniques, composite_key,
    conflict_fail, conflict_stop, constraint_stop, contended_from, contended_keys, contested,
    has_key_in, key_at, keys_view, names_joined, pk_names, read_rules, row_valid, rules_of,
    sets_kept, unbound, unique_fail, Rules, RulesV,
};
use crate::env::{place_in, sql_fail, sql_stop, within, Env, EnvV, IN_DEFAULT, Out};
use crate::eval::{ev, eval, holds, predicate, root_ctx, row_result, CtxV, EvalCtx};
use crate::grammar::stored_expr;
use crate::pexpr::parse_expr;
use crate::policy::{let_through, require};
use crate::sql::{
    opt_expr_view, opt_items_view, opt_strings_view, sets_view, Expr, ExprV, InsertSource,
    InsertSourceV, ItemV, OnConflict, OnConflictV, SelItem,
};
use crate::store::{
    table_pos, version_pos, versions_view, writer_sees, RowVersion, Store, StoreV, Table, TableV,
    VersionV,
};
use crate::text::{concat2, concat3, concat4, owned, same_chars};
use crate::value::{clone_row, coerced, row_view, rows_view, value_result, RowV, Value, ValueV};
use crate::writes::{
    appended, build_insert_slots, finish, fresh_draft, no_column, opt_value, put_draft, slot_view,
    slots_of, slots_view, superseded, wrote, Draft, DraftV, Mutation, MutationV, SlotV, WriteCtx,
    WriteV,
};

verus! {

// ---- cells ----------------------------------------------------------------------------------------

/// The number behind `n`; behind the last one the counter starts over.
pub open spec fn next_count(n: i64) -> i64 {
    if n == i64::MAX {
        i64::MIN
    } else {
        (n + 1) as i64
    }
}

fn count_on(n: i64) -> (r: i64)
    ensures
        r == next_count(n),
{
    if n == i64::MAX {
        i64::MIN
    } else {
        n + 1
    }
}

/// What the text of a `DEFAULT` evaluates to.
pub open spec fn constant_of(text: Seq<char>, tick: u64, env: EnvV) -> Out {
    match stored_expr(text, env.reals) {
        Err(e) => Err(e),
        Ok(x) => ev(x, CtxV { tick, ..root_ctx() }, unbound(within(env, IN_DEFAULT, 0))),
    }
}

pub fn eval_const_sql(sql: &str, tick: u64, env: &Env) -> (r: Result<Value, Stop>)
    ensures
        value_result(r) == constant_of(sql@, tick, env@),
{
    let x = parse_expr(sql, env.reals)?;
    let none: Vec<Value> = Vec::new();
    let place = place_in(env, IN_DEFAULT, 0);
    let bare = Env {
        reals: env.reals,
        now: env.now,
        params: none.as_slice(),
        session: env.session,
        place: place.as_slice(),
    };
    assert(bare@.params =~= Seq::<ValueV>::empty());
    let ctx = EvalCtx { row: None, schema: None, group: None, excluded: None, cols: None, tick };
    eval(&x, &ctx, &bare)
}

/// A cell of a new row, and the counter behind it. A numbered column takes the
/// counter's value where none, or `NULL`, is given. Else it is the value that is
/// given, coerced; else the default; else `NULL`.
pub open spec fn finished_cell(c: ColumnV, slot: Option<ValueV>, auto: i64, tick: u64, env: EnvV) -> Result<
    (ValueV, i64),
    StopV,
> {
    match slot {
        Some(v) => if c.autoincrement && v is Null {
            Ok((ValueV::Int(auto), next_count(auto)))
        } else {
            match coerced(env.reals, c.ty, v) {
                Err(e) => Err(e),
                Ok(w) => Ok(
                    (
                        w,
                        match w {
                            ValueV::Int(n) => if c.autoincrement && next_count(n) > auto {
                                next_count(n)
                            } else {
                                auto
                            },
                            _ => auto,
                        },
                    ),
                ),
            }
        },
        None => if c.autoincrement {
            Ok((ValueV::Int(auto), next_count(auto)))
        } else {
            match c.default_sql {
                None => Ok((ValueV::Null, auto)),
                Some(d) => match constant_of(d, tick, env) {
                    Err(e) => Err(e),
                    Ok(v) => match coerced(env.reals, c.ty, v) {
                        Err(e) => Err(e),
                        Ok(w) => Ok((w, auto)),
                    },
                },
            }
        },
    }
}

pub open spec fn cell_result(r: Result<(Value, i64), Stop>) -> Result<(ValueV, i64), StopV> {
    match r {
        Ok((v, n)) => Ok((v@, n)),
        Err(s) => Err(s@),
    }
}

fn finalize_cell(c: &Column, slot: &Option<Value>, auto: i64, tick: u64, env: &Env) -> (r: Result<
    (Value, i64),
    Stop,
>)
    ensures
        cell_result(r) == finished_cell(c@, opt_value(*slot), auto, tick, env@),
{
    match slot {
        Some(v) => {
            if c.autoincrement && v.is_null() {
                return Ok((Value::Int(auto), count_on(auto)));
            }
            let w = c.ty.coerce(env.reals, v.clone())?;
            let mut next: i64 = auto;
            if let Value::Int(n) = &w {
                let m: i64 = count_on(*n);
                if c.autoincrement && m > auto {
                    next = m;
                }
            }
            Ok((w, next))
        },
        None => if c.autoincrement {
            Ok((Value::Int(auto), count_on(auto)))
        } else {
            match &c.default_sql {
                None => Ok((Value::Null, auto)),
                Some(d) => {
                    let v = eval_const_sql(d, tick, env)?;
                    let w = c.ty.coerce(env.reals, v)?;
                    Ok((w, auto))
                },
            }
        },
    }
}

pub open spec fn slot_at(s: SlotV, i: int) -> Option<ValueV> {
    if 0 <= i < s.len() {
        s[i]
    } else {
        None
    }
}

/// The ordinal of a cell among those of a statement.
pub open spec fn cell_tick(row: u64, width: u64, i: u64) -> u64 {
    row.wrapping_mul(width).wrapping_add(i)
}

pub open spec fn cells_from(
    cols: Seq<ColumnV>,
    slot: SlotV,
    row: u64,
    auto: i64,
    env: EnvV,
    i: int,
    acc: RowV,
) -> Result<(RowV, i64), StopV>
    decreases cols.len() - i,
{
    if i < 0 || i >= cols.len() {
        Ok((acc, auto))
    } else {
        match finished_cell(
            cols[i],
            slot_at(slot, i),
            auto,
            cell_tick(row, cols.len() as u64, i as u64),
            env,
        ) {
            Err(e) => Err(e),
            Ok((v, next)) => cells_from(cols, slot, row, next, env, i + 1, acc.push(v)),
        }
    }
}

pub open spec fn filled_row(r: Result<(Vec<Value>, i64), Stop>) -> Result<(RowV, i64), StopV> {
    match r {
        Ok((v, n)) => Ok((row_view(v@), n)),
        Err(s) => Err(s@),
    }
}

fn finalize_row(
    schema: &TableSchema,
    slot: &Vec<Option<Value>>,
    row: u64,
    auto: i64,
    env: &Env,
) -> (r: Result<(Vec<Value>, i64), Stop>)
    ensures
        filled_row(r) == cells_from(
            schema@.columns,
            slot_view(slot@),
            row,
            auto,
            env@,
            0,
            Seq::empty(),
        ),
{
    let ghost cols = schema@.columns;
    let ghost sv = slot_view(slot@);
    let mut out: Vec<Value> = Vec::new();
    assert(row_view(out@) =~= Seq::<ValueV>::empty());
    let mut next: i64 = auto;
    let n: usize = schema.columns.len();
    let mut i: usize = 0;
    while i < n
        invariant
            i <= n,
            n == schema.columns.len(),
            n == cols.len(),
            cols == columns_view(schema.columns@),
            cols == schema@.columns,
            sv == slot_view(slot@),
            cells_from(cols, sv, row, next, env@, i as int, row_view(out@)) == cells_from(
                cols,
                sv,
                row,
                auto,
                env@,
                0,
                Seq::empty(),
            ),
        decreases n - i,
    {
        assert(cols[i as int] == schema.columns@[i as int]@);
        let none: Option<Value> = None;
        let given: &Option<Value> = if i < slot.len() {
            assert(sv[i as int] == opt_value(slot@[i as int]));
            &slot[i]
        } else {
            &none
        };
        let tick: u64 = row.wrapping_mul(n as u64).wrapping_add(i as u64);
        let (v, m) = finalize_cell(&schema.columns[i], given, next, tick, env)?;
        let ghost before = row_view(out@);
        let ghost vv = v@;
        out.push(v);
        assert(row_view(out@) =~= before.push(vv));
        next = m;
        i += 1;
    }
    Ok((out, next))
}

/// The rows of an `INSERT`, filled in and held to what single rows must satisfy,
/// and the counter behind them.
pub open spec fn staged_from(
    slots: Seq<SlotV>,
    schema: SchemaV,
    table: Seq<char>,
    rules: RulesV,
    auto: i64,
    env: EnvV,
    i: int,
    acc: Seq<RowV>,
) -> Result<(Seq<RowV>, i64), StopV>
    decreases slots.len() - i,
{
    if i < 0 || i >= slots.len() {
        Ok((acc, auto))
    } else {
        match cells_from(schema.columns, slots[i], i as u64, auto, env, 0, Seq::empty()) {
            Err(e) => Err(e),
            Ok((row, next)) => match row_valid(schema, table, rules, row, i as u64, env) {
                Err(e) => Err(e),
                Ok(_) => staged_from(
                    slots,
                    schema,
                    table,
                    rules,
                    next,
                    env,
                    i + 1,
                    acc.push(row),
                ),
            },
        }
    }
}

pub open spec fn staged_of(
    slots: Seq<SlotV>,
    schema: SchemaV,
    table: Seq<char>,
    auto: i64,
    env: EnvV,
) -> Result<(Seq<RowV>, i64), StopV> {
    match rules_of(schema, PolicyCommand::Insert, env) {
        Err(e) => Err(e),
        Ok(rules) => staged_from(slots, schema, table, rules, auto, env, 0, Seq::empty()),
    }
}

pub open spec fn staged_result(r: Result<(Vec<Vec<Value>>, i64), Stop>) -> Result<
    (Seq<RowV>, i64),
    StopV,
> {
    match r {
        Ok((v, n)) => Ok((rows_view(v@), n)),
        Err(s) => Err(s@),
    }
}

/// Fill in the rows and check each of them.
pub fn finalize_insert_rows(
    schema: &TableSchema,
    table: &str,
    slots: &Vec<Vec<Option<Value>>>,
    auto: i64,
    env: &Env,
) -> (r: Result<(Vec<Vec<Value>>, i64), Stop>)
    ensures
        staged_result(r) == staged_of(slots_view(slots@), schema@, table@, auto, env@),
{
    let rules = read_rules(schema, PolicyCommand::Insert, env)?;
    let ghost cv = rules@;
    let ghost sv = slots_view(slots@);
    let mut out: Vec<Vec<Value>> = Vec::new();
    assert(rows_view(out@) =~= Seq::<RowV>::empty());
    let mut next: i64 = auto;
    let mut i: usize = 0;
    while i < slots.len()
        invariant
            i <= slots.len(),
            sv == slots_view(slots@),
            cv == rules@,
            staged_from(sv, schema@, table@, cv, next, env@, i as int, rows_view(out@))
                == staged_of(sv, schema@, table@, auto, env@),
        decreases slots.len() - i,
    {
        assert(sv[i as int] == slot_view(slots@[i as int]@));
        let (row, m) = finalize_row(schema, &slots[i], i as u64, next, env)?;
        check_row(schema, table, &rules, &row, i as u64, env)?;
        let ghost before = rows_view(out@);
        let ghost rv = row_view(row@);
        out.push(row);
        assert(rows_view(out@) =~= before.push(rv));
        next = m;
        i += 1;
    }
    Ok((out, next))
}

// ---- conflicts of keys ----------------------------------------------------------------------------

/// A primary key and the version that has it.
pub struct LiveKey {
    pub key: Vec<char>,
    pub vid: u64,
}

pub open spec fn live_view(v: Seq<LiveKey>) -> Seq<(Seq<char>, u64)> {
    Seq::new(v.len(), |i: int| (v[i].key@, v[i].vid))
}

/// The keys of the rows that the writer `me` sees as live.
pub open spec fn live_from(
    rows: Seq<VersionV>,
    pk: Seq<usize>,
    lsn: u64,
    me: u64,
    i: int,
    acc: Seq<(Seq<char>, u64)>,
) -> Seq<(Seq<char>, u64)>
    decreases rows.len() - i,
{
    if i < 0 || i >= rows.len() {
        acc
    } else {
        live_from(
            rows,
            pk,
            lsn,
            me,
            i + 1,
            if writer_sees(rows[i], lsn, me) {
                acc.push((key_at(rows[i].values, pk), rows[i].vid))
            } else {
                acc
            },
        )
    }
}

/// The last of the first `n` versions with a key.
pub open spec fn holder_of(live: Seq<(Seq<char>, u64)>, key: Seq<char>, n: int) -> Option<u64>
    decreases n,
{
    if n <= 0 || n > live.len() {
        None
    } else if live[n - 1].0 == key {
        Some(live[n - 1].1)
    } else {
        holder_of(live, key, n - 1)
    }
}

/// The keys that are held once one is free again.
pub open spec fn freed(live: Seq<(Seq<char>, u64)>, key: Seq<char>) -> Seq<(Seq<char>, u64)>
    decreases live.len(),
{
    if live.len() == 0 {
        Seq::empty()
    } else {
        let rest = freed(live.drop_last(), key);
        if live.last().0 == key {
            rest
        } else {
            rest.push(live.last())
        }
    }
}

fn live_keys(rows: &Vec<RowVersion>, pk: &Vec<usize>, lsn: u64, me: u64) -> (r: Vec<LiveKey>)
    ensures
        live_view(r@) == live_from(versions_view(rows@), pk@, lsn, me, 0, Seq::empty()),
{
    let ghost rv = versions_view(rows@);
    let mut out: Vec<LiveKey> = Vec::new();
    assert(live_view(out@) =~= Seq::<(Seq<char>, u64)>::empty());
    let mut i: usize = 0;
    while i < rows.len()
        invariant
            i <= rows.len(),
            rv == versions_view(rows@),
            live_from(rv, pk@, lsn, me, i as int, live_view(out@)) == live_from(
                rv,
                pk@,
                lsn,
                me,
                0,
                Seq::empty(),
            ),
        decreases rows.len() - i,
    {
        assert(rv[i as int] == rows@[i as int]@);
        if rows[i].visible_to_writer(lsn, me) {
            let ghost before = live_view(out@);
            let key = composite_key(&rows[i].values, pk);
            let ghost kv = key@;
            let vid: u64 = rows[i].vid;
            out.push(LiveKey { key, vid });
            assert(live_view(out@) =~= before.push((kv, vid)));
        }
        i += 1;
    }
    out
}

fn find_holder(live: &Vec<LiveKey>, key: &Vec<char>) -> (r: Option<u64>)
    ensures
        r == holder_of(live_view(live@), key@, live@.len() as int),
{
    let ghost lv = live_view(live@);
    let mut n: usize = live.len();
    while n > 0
        invariant
            n <= live.len(),
            lv == live_view(live@),
            holder_of(lv, key@, n as int) == holder_of(lv, key@, live@.len() as int),
        decreases n,
    {
        assert(lv[n - 1] == (live@[n - 1].key@, live@[n - 1].vid));
        if same_chars(&live[n - 1].key, key) {
            return Some(live[n - 1].vid);
        }
        n -= 1;
    }
    None
}

fn free_key(live: &mut Vec<LiveKey>, key: &Vec<char>)
    ensures
        live_view(final(live)@) == freed(live_view(old(live)@), key@),
{
    let ghost before = live_view(live@);
    let ghost mut seen: int = 0;
    let mut i: usize = 0;
    assert(live_view(live@).take(0) =~= freed(before.take(0), key@));
    while i < live.len()
        invariant
            0 <= seen <= before.len(),
            i <= live@.len(),
            live_view(live@).take(i as int) == freed(before.take(seen), key@),
            live_view(live@).skip(i as int) == before.skip(seen),
        decreases live@.len() - i,
    {
        let ghost now = live_view(live@);
        assert(now.skip(i as int)[0] == now[i as int]);
        assert(before.skip(seen).len() == now.skip(i as int).len());
        assert(before[seen] == now[i as int]);
        assert(before.take(seen + 1).drop_last() =~= before.take(seen));
        if same_chars(&live[i].key, key) {
            let _entry = live.remove(i);
            assert(live_view(live@) =~= now.remove(i as int));
            assert(live_view(live@).take(i as int) =~= now.take(i as int));
            assert(live_view(live@).skip(i as int) =~= now.skip(i as int).skip(1));
        } else {
            assert(now.take(i + 1) =~= now.take(i as int).push(now[i as int]));
            i += 1;
            assert(now.skip(i as int) =~= now.skip(i - 1).skip(1));
        }
        assert(before.skip(seen + 1) =~= before.skip(seen).skip(1));
        proof {
            seen = seen + 1;
        }
    }
    assert(live_view(live@).skip(i as int).len() == 0);
    assert(before.skip(seen).len() == 0);
    assert(before.take(seen) =~= before);
    assert(live_view(live@).take(i as int) =~= live_view(live@));
}

/// What the rows of an `INSERT` are put in against.
pub struct Terms<'a> {
    pub name: &'a str,
    pub schema: &'a TableSchema,
    pub pk: Vec<usize>,
    pub pk_name: String,
    /// The keys that other writers are inserting.
    pub contended: Vec<Vec<char>>,
    pub on_conflict: &'a OnConflict,
    /// What a row is held to where a key clashes.
    pub rules: Rules,
    pub snapshot: u64,
    pub owner: u64,
    pub env: &'a Env<'a>,
}

pub struct TermsV {
    pub name: Seq<char>,
    pub schema: SchemaV,
    pub pk: Seq<usize>,
    pub pk_name: Seq<char>,
    pub contended: Seq<Seq<char>>,
    pub on_conflict: OnConflictV,
    pub rules: RulesV,
    pub snapshot: u64,
    pub owner: u64,
    pub env: EnvV,
}

impl<'a> View for Terms<'a> {
    type V = TermsV;

    open spec fn view(&self) -> TermsV {
        TermsV {
            name: self.name@,
            schema: self.schema@,
            pk: self.pk@,
            pk_name: self.pk_name@,
            contended: keys_view(self.contended@),
            on_conflict: self.on_conflict@,
            rules: self.rules@,
            snapshot: self.snapshot,
            owner: self.owner,
            env: self.env@,
        }
    }
}

// ---- ON CONFLICT DO UPDATE ------------------------------------------------------------------------

pub open spec fn with_cell(row: RowV, i: usize, v: ValueV) -> RowV {
    if (i as int) < row.len() {
        row.update(i as int, v)
    } else {
        row
    }
}

/// The assignments from `i` on, made in a row.
pub open spec fn assigned_from(
    sets: Seq<(Seq<char>, ExprV)>,
    schema: SchemaV,
    c: CtxV,
    env: EnvV,
    i: int,
    row: RowV,
) -> Result<RowV, StopV>
    decreases sets.len() - i,
{
    if i < 0 || i >= sets.len() {
        Ok(row)
    } else {
        match column_pos(schema, sets[i].0) {
            None => Err(no_column(sets[i].0)),
            Some(p) => match ev(sets[i].1, c, env) {
                Err(e) => Err(e),
                Ok(v) => match coerced(env.reals, schema.columns[p as int].ty, v) {
                    Err(e) => Err(e),
                    Ok(w) => assigned_from(sets, schema, c, env, i + 1, with_cell(row, p, w)),
                },
            },
        }
    }
}

pub fn assign(
    sets: &Vec<(String, Expr)>,
    schema: &TableSchema,
    ctx: &EvalCtx,
    env: &Env,
    row: Vec<Value>,
) -> (r: Result<Vec<Value>, Stop>)
    ensures
        row_result(r) == assigned_from(
            sets_view(sets@),
            schema@,
            ctx@,
            env@,
            0,
            row_view(row@),
        ),
{
    let ghost sv = sets_view(sets@);
    let ghost r0 = row_view(row@);
    let mut out = row;
    let mut i: usize = 0;
    while i < sets.len()
        invariant
            i <= sets.len(),
            sv == sets_view(sets@),
            r0 == row_view(row@),
            assigned_from(sv, schema@, ctx@, env@, i as int, row_view(out@)) == assigned_from(
                sv,
                schema@,
                ctx@,
                env@,
                0,
                r0,
            ),
        decreases sets.len() - i,
    {
        assert(sv[i as int] == (sets@[i as int].0@, sets@[i as int].1@));
        match schema.column_index(&sets[i].0) {
            None => {
                return Err(sql_stop(concat2("no such column: ", &sets[i].0)));
            },
            Some(p) => {
                assert(schema@.columns[p as int] == schema.columns@[p as int]@);
                let v = eval(&sets[i].1, ctx, env)?;
                let w = schema.columns[p].ty.coerce(env.reals, v)?;
                let ghost before = row_view(out@);
                let ghost wv = w@;
                if p < out.len() {
                    out.set(p, w);
                }
                assert(row_view(out@) =~= with_cell(before, p, wv));
            },
        }
        i += 1;
    }
    Ok(out)
}

pub open spec fn upsert_ctx(t: TermsV, existing: RowV, excluded: RowV, tick: u64) -> CtxV {
    CtxV {
        row: Some(existing),
        schema: Some(t.schema),
        group: None,
        excluded: Some(excluded),
        cols: None,
        tick,
    }
}

/// The row that a clash makes of the existing one; nothing where the condition
/// does not hold. No other writer may be changing the existing one, the policies have
/// to let both rows through, and the new one is held to the constraints of its table.
pub open spec fn upsert_row(
    t: TermsV,
    existing: VersionV,
    excluded: RowV,
    sets: Seq<(Seq<char>, ExprV)>,
    filter: Option<ExprV>,
    tick: u64,
) -> Result<Option<RowV>, StopV> {
    let old = existing.values;
    let c = upsert_ctx(t, old, excluded, tick);
    match holds(filter, c, t.env) {
        Err(e) => Err(e),
        Ok(false) => Ok(None),
        Ok(true) => if contested(existing, t.snapshot, t.owner) {
            Err(changed_fail())
        } else {
            match let_through(t.rules.guard.using, t.schema, t.name, old, tick, t.env) {
                Err(e) => Err(e),
                Ok(_) => match assigned_from(sets, t.schema, c, t.env, 0, old) {
                    Err(e) => Err(e),
                    Ok(row) => match row_valid(t.schema, t.name, t.rules, row, tick, t.env) {
                        Err(e) => Err(e),
                        Ok(_) => Ok(Some(row)),
                    },
                },
            }
        },
    }
}

pub open spec fn opt_row_result(r: Result<Option<Vec<Value>>, Stop>) -> Result<Option<RowV>, StopV> {
    match r {
        Ok(Some(v)) => Ok(Some(row_view(v@))),
        Ok(None) => Ok(None),
        Err(s) => Err(s@),
    }
}

fn upsert_update(
    t: &Terms,
    existing: &RowVersion,
    excluded: &Vec<Value>,
    sets: &Vec<(String, Expr)>,
    filter: &Option<Expr>,
    tick: u64,
) -> (r: Result<Option<Vec<Value>>, Stop>)
    ensures
        opt_row_result(r) == upsert_row(
            t@,
            existing@,
            row_view(excluded@),
            sets_view(sets@),
            opt_expr_view(*filter),
            tick,
        ),
{
    let old = &existing.values;
    let ctx = EvalCtx {
        row: Some(old.as_slice()),
        schema: Some(t.schema),
        group: None,
        excluded: Some(excluded.as_slice()),
        cols: None,
        tick,
    };
    assert(ctx@ == upsert_ctx(t@, row_view(old@), row_view(excluded@), tick));
    if !predicate(filter, &ctx, t.env)? {
        return Ok(None);
    }
    check_no_conflict(existing, t.snapshot, t.owner)?;
    require(&t.rules.guard.using, t.schema, t.name, old, tick, t.env)?;
    let row = assign(sets, t.schema, &ctx, t.env, clone_row(old))?;
    check_row(t.schema, t.name, &t.rules, &row, tick, t.env)?;
    Ok(Some(row))
}

// ---- putting rows in ------------------------------------------------------------------------------

/// The row that goes in where the key is held by `old`, if one does. A version that is
/// replaced or changed must not be on its way out for another writer.
pub open spec fn clashed(t: TermsV, d: DraftV, old: u64, row: RowV, tick: u64) -> Result<
    Option<RowV>,
    StopV,
> {
    match t.on_conflict {
        OnConflictV::Error => Err(unique_fail(t.name, t.pk_name)),
        OnConflictV::Nothing => Ok(None),
        OnConflictV::Replace => match version_pos(d.table.rows, old, 0) {
            None => Ok(Some(row)),
            Some(i) => if contested(d.table.rows[i], t.snapshot, t.owner) {
                Err(changed_fail())
            } else {
                match let_through(
                    t.rules.guard.using,
                    t.schema,
                    t.name,
                    d.table.rows[i].values,
                    tick,
                    t.env,
                ) {
                    Err(e) => Err(e),
                    Ok(_) => Ok(Some(row)),
                }
            },
        },
        OnConflictV::Update { sets, filter } => match version_pos(d.table.rows, old, 0) {
            None => Err(sql_fail("ON CONFLICT DO UPDATE cannot affect one row twice"@)),
            Some(i) => upsert_row(t, d.table.rows[i], row, sets, filter, tick),
        },
    }
}

/// What is drafted so far, and the keys that are held.
pub struct Progress {
    pub draft: Draft,
    pub live: Vec<LiveKey>,
}

pub struct ProgressV {
    pub draft: DraftV,
    pub live: Seq<(Seq<char>, u64)>,
}

impl View for Progress {
    type V = ProgressV;

    open spec fn view(&self) -> ProgressV {
        ProgressV { draft: self.draft@, live: live_view(self.live@) }
    }
}

/// With a version added under a key.
pub open spec fn held(t: TermsV, p: ProgressV, key: Seq<char>, row: RowV) -> Result<
    ProgressV,
    StopV,
> {
    match appended(p.draft, t.name, row, t.owner) {
        Err(e) => Err(e),
        Ok(d) => Ok(
            ProgressV { draft: d, live: p.live.push((key, p.draft.table.next_vid)) },
        ),
    }
}

pub open spec fn being_inserted(t: TermsV) -> StopV {
    conflict_fail(
        "write conflict: "@ + t.name + "."@ + (t.pk_name
            + " is being inserted by a concurrent transaction"@),
    )
}

/// With the version `old` under `key` given up for a row, under the key of that row.
/// Another live row, or one that another writer is inserting, may not have it.
pub open spec fn replaced(t: TermsV, p: ProgressV, key: Seq<char>, old: u64, row: RowV) -> Result<
    ProgressV,
    StopV,
> {
    let own = key_at(row, t.pk);
    let live = freed(p.live, key);
    if t.contended.contains(own) {
        Err(being_inserted(t))
    } else if holder_of(live, own, live.len() as int) is Some {
        Err(unique_fail(t.name, t.pk_name))
    } else {
        held(
            t,
            ProgressV { draft: superseded(p.draft, t.name, old, t.owner), live },
            own,
            row,
        )
    }
}

/// One row put in.
pub open spec fn put_row(t: TermsV, p: ProgressV, row: RowV, tick: u64) -> Result<ProgressV, StopV> {
    if t.pk.len() == 0 {
        match appended(p.draft, t.name, row, t.owner) {
            Err(e) => Err(e),
            Ok(d) => Ok(ProgressV { draft: d, ..p }),
        }
    } else {
        let key = key_at(row, t.pk);
        if t.contended.contains(key) {
            Err(being_inserted(t))
        } else {
            match holder_of(p.live, key, p.live.len() as int) {
                None => held(t, p, key, row),
                Some(old) => match clashed(t, p.draft, old, row, tick) {
                    Err(e) => Err(e),
                    Ok(None) => Ok(p),
                    Ok(Some(new)) => replaced(t, p, key, old, new),
                },
            }
        }
    }
}

pub open spec fn put_rows_from(t: TermsV, rows: Seq<RowV>, i: int, p: ProgressV) -> Result<
    ProgressV,
    StopV,
>
    decreases rows.len() - i,
{
    if i < 0 || i >= rows.len() {
        Ok(p)
    } else {
        match put_row(t, p, rows[i], i as u64) {
            Err(e) => Err(e),
            Ok(q) => put_rows_from(t, rows, i + 1, q),
        }
    }
}

/// What a step left, held against what it should.
pub open spec fn progressed(r: Result<(), Stop>, after: ProgressV, want: Result<ProgressV, StopV>) -> bool {
    match r {
        Ok(_) => want == Ok::<ProgressV, StopV>(after),
        Err(s) => want == Err::<ProgressV, StopV>(s@),
    }
}

fn hold(t: &Terms, p: &mut Progress, key: Vec<char>, row: Vec<Value>) -> (r: Result<(), Stop>)
    ensures
        progressed(r, final(p)@, held(t@, old(p)@, key@, row_view(row@))),
{
    let ghost kv = key@;
    let vid: u64 = p.draft.append_version(t.name, row, t.owner)?;
    let ghost before = live_view(p.live@);
    p.live.push(LiveKey { key, vid });
    assert(live_view(p.live@) =~= before.push((kv, vid)));
    Ok(())
}

fn insertion_conflict(t: &Terms) -> (r: Stop)
    ensures
        r@ == being_inserted(t@),
{
    let head = concat3("write conflict: ", t.name, ".");
    let tail = concat2(&t.pk_name, " is being inserted by a concurrent transaction");
    conflict_stop(concat2(&head, &tail))
}

fn replace(t: &Terms, p: &mut Progress, key: &Vec<char>, old_vid: u64, row: Vec<Value>) -> (r: Result<
    (),
    Stop,
>)
    ensures
        progressed(r, final(p)@, replaced(t@, old(p)@, key@, old_vid, row_view(row@))),
{
    let own = composite_key(&row, &t.pk);
    if has_key_in(&t.contended, &own) {
        return Err(insertion_conflict(t));
    }
    free_key(&mut p.live, key);
    if find_holder(&p.live, &own).is_some() {
        return Err(
            constraint_stop(concat4("UNIQUE constraint failed: ", t.name, ".", &t.pk_name)),
        );
    }
    p.draft.supersede(t.name, old_vid, t.owner);
    hold(t, p, own, row)
}

fn resolve_clash(t: &Terms, d: &Draft, old_vid: u64, row: &Vec<Value>, tick: u64) -> (r: Result<
    Option<Vec<Value>>,
    Stop,
>)
    ensures
        opt_row_result(r) == clashed(t@, d@, old_vid, row_view(row@), tick),
{
    match t.on_conflict {
        OnConflict::Error => Err(
            constraint_stop(concat4("UNIQUE constraint failed: ", t.name, ".", &t.pk_name)),
        ),
        OnConflict::Nothing => Ok(None),
        OnConflict::Replace => {
            match d.table.version(old_vid) {
                None => {},
                Some(v) => {
                    check_no_conflict(v, t.snapshot, t.owner)?;
                    require(&t.rules.guard.using, t.schema, t.name, &v.values, tick, t.env)?;
                },
            }
            Ok(Some(clone_row(row)))
        },
        OnConflict::Update { sets, filter } => match d.table.version(old_vid) {
            None => Err(
                sql_stop(owned("ON CONFLICT DO UPDATE cannot affect one row twice")),
            ),
            Some(v) => upsert_update(t, v, row, sets, filter, tick),
        },
    }
}

fn apply_insert_row(t: &Terms, p: &mut Progress, row: &Vec<Value>, tick: u64) -> (r: Result<
    (),
    Stop,
>)
    ensures
        progressed(r, final(p)@, put_row(t@, old(p)@, row_view(row@), tick)),
{
    if t.pk.len() == 0 {
        let _ = p.draft.append_version(t.name, clone_row(row), t.owner)?;
        return Ok(());
    }
    let key = composite_key(row, &t.pk);
    if has_key_in(&t.contended, &key) {
        return Err(insertion_conflict(t));
    }
    match find_holder(&p.live, &key) {
        None => hold(t, p, key, clone_row(row)),
        Some(old_vid) => match resolve_clash(t, &p.draft, old_vid, row, tick)? {
            None => Ok(()),
            Some(new) => replace(t, p, &key, old_vid, new),
        },
    }
}

// ---- INSERT ---------------------------------------------------------------------------------------

/// The command that replaces or changes the row whose key clashes.
pub open spec fn clash_command(on_conflict: OnConflictV) -> PolicyCommand {
    match on_conflict {
        OnConflictV::Update { .. } => PolicyCommand::Update,
        _ => PolicyCommand::Delete,
    }
}

pub open spec fn clash_rules(schema: SchemaV, on_conflict: OnConflictV, env: EnvV) -> Result<
    RulesV,
    StopV,
> {
    rules_of(schema, clash_command(on_conflict), env)
}

pub open spec fn terms_of(
    s: StoreV,
    t: TableV,
    name: Seq<char>,
    on_conflict: OnConflictV,
    rules: RulesV,
    wc: WriteV,
) -> TermsV {
    let pk = key_columns(t.schema.columns);
    TermsV {
        name,
        schema: t.schema,
        pk,
        pk_name: names_joined(t.schema, pk),
        contended: contended_from(
            t.rows,
            pk,
            Seq::empty(),
            s.committed_lsn,
            wc.owner,
            0,
            Seq::empty(),
        ),
        on_conflict,
        rules,
        snapshot: wc.snapshot,
        owner: wc.owner,
        env: wc.env,
    }
}

/// The staged rows put into a table.
pub open spec fn all_put(s: StoreV, t: TableV, terms: TermsV, rows: Seq<RowV>, wc: WriteV) -> Result<
    DraftV,
    StopV,
> {
    let p = ProgressV {
        draft: fresh_draft(t),
        live: live_from(t.rows, terms.pk, s.committed_lsn, wc.owner, 0, Seq::empty()),
    };
    match put_rows_from(terms, rows, 0, p) {
        Err(e) => Err(e),
        Ok(q) => Ok(q.draft),
    }
}

/// The draft of an `INSERT` into a table.
pub open spec fn insert_draft(
    s: StoreV,
    t: TableV,
    name: Seq<char>,
    columns: Option<Seq<Seq<char>>>,
    source: InsertSourceV,
    on_conflict: OnConflictV,
    wc: WriteV,
) -> Result<DraftV, StopV> {
    match slots_of(s, t.schema, columns, source, wc) {
        Err(e) => Err(e),
        Ok(slots) => match staged_of(slots, t.schema, name, t.next_autoinc, wc.env) {
            Err(e) => Err(e),
            Ok((rows, auto)) => match (if on_conflict is Error {
                sets_kept(
                    unique_keys(t.schema),
                    0,
                    t.rows,
                    t.schema,
                    name,
                    rows,
                    Seq::empty(),
                    s.committed_lsn,
                    wc.owner,
                )
            } else {
                Ok(())
            }) {
                Err(e) => Err(e),
                Ok(_) => match clash_rules(t.schema, on_conflict, wc.env) {
                    Err(e) => Err(e),
                    Ok(rules) => all_put(
                        s,
                        TableV { next_autoinc: auto, ..t },
                        terms_of(s, t, name, on_conflict, rules, wc),
                        rows,
                        wc,
                    ),
                },
            },
        },
    }
}

/// What an `INSERT` does to a store.
pub open spec fn inserted(
    s: StoreV,
    name: Seq<char>,
    columns: Option<Seq<Seq<char>>>,
    source: InsertSourceV,
    on_conflict: OnConflictV,
    returning: Option<Seq<ItemV>>,
    wc: WriteV,
) -> Result<(StoreV, MutationV), StopV> {
    match table_pos(s, name) {
        None => Err(sql_fail("no such table: "@ + name)),
        Some(i) => match insert_draft(
            s,
            s.tables[i],
            name,
            columns,
            source,
            on_conflict,
            wc,
        ) {
            Err(e) => Err(e),
            Ok(d) => finish(s, i, d, d.rows.len(), returning, wc.env),
        },
    }
}

fn apply_insert(
    store: &Store,
    t: &Table,
    auto: i64,
    name: &str,
    rows: &Vec<Vec<Value>>,
    on_conflict: &OnConflict,
    rules: Rules,
    wc: &WriteCtx,
) -> (r: Result<Draft, Stop>)
    ensures
        all_put(
            store@,
            TableV { next_autoinc: auto, ..t@ },
            terms_of(store@, t@, name@, on_conflict@, rules@, wc@),
            rows_view(rows@),
            wc@,
        ) == (match r {
            Ok(d) => Ok(d@),
            Err(s) => Err(s@),
        }),
{
    let ghost tv = TableV { next_autoinc: auto, ..t@ };
    let pk = t.schema.primary_key_indices();
    let pk_name = pk_names(&t.schema, &pk);
    let none: Vec<u64> = Vec::new();
    let contended = contended_keys(&t.rows, &pk, &none, store.committed_lsn, wc.owner);
    let live = live_keys(&t.rows, &pk, store.committed_lsn, wc.owner);
    let terms = Terms {
        name,
        schema: &t.schema,
        pk,
        pk_name,
        contended,
        on_conflict,
        rules,
        snapshot: wc.snapshot,
        owner: wc.owner,
        env: wc.env,
    };
    assert(none@ =~= Seq::<u64>::empty());
    assert(terms@ == terms_of(store@, t@, name@, on_conflict@, rules@, wc@));
    let mut draft = Draft::new(t);
    draft.table.next_autoinc = auto;
    assert(draft@ == fresh_draft(tv));
    let mut p = Progress { draft, live };
    let ghost p0 = p@;
    let ghost rv = rows_view(rows@);
    let mut i: usize = 0;
    while i < rows.len()
        invariant
            i <= rows.len(),
            rv == rows_view(rows@),
            terms@ == terms_of(store@, t@, name@, on_conflict@, rules@, wc@),
            put_rows_from(terms@, rv, i as int, p@) == put_rows_from(terms@, rv, 0, p0),
            all_put(store@, tv, terms@, rv, wc@) == (match put_rows_from(terms@, rv, 0, p0) {
                Err(e) => Err(e),
                Ok(q) => Ok(q.draft),
            }),
            tv == (TableV { next_autoinc: auto, ..t@ }),
        decreases rows.len() - i,
    {
        assert(rv[i as int] == row_view(rows@[i as int]@));
        apply_insert_row(&terms, &mut p, &rows[i], i as u64)?;
        i += 1;
    }
    Ok(p.draft)
}

fn draft_insert(
    store: &Store,
    t: &Table,
    name: &str,
    columns: &Option<Vec<String>>,
    source: &InsertSource,
    on_conflict: &OnConflict,
    wc: &WriteCtx,
) -> (r: Result<Draft, Stop>)
    ensures
        insert_draft(
            store@,
            t@,
            name@,
            opt_strings_view(*columns),
            source@,
            on_conflict@,
            wc@,
        ) == (match r {
            Ok(d) => Ok(d@),
            Err(s) => Err(s@),
        }),
{
    let slots = build_insert_slots(store, &t.schema, columns, source, wc)?;
    let (rows, auto) = finalize_insert_rows(
        &t.schema,
        name,
        &slots,
        t.next_autoinc,
        wc.env,
    )?;
    if let OnConflict::Error = on_conflict {
        let none: Vec<u64> = Vec::new();
        assert(none@ =~= Seq::<u64>::empty());
        check_secondary_uniques(
            &t.rows,
            &t.schema,
            name,
            &rows,
            &none,
            store.committed_lsn,
            wc.owner,
        )?;
    }
    let cmd = match on_conflict {
        OnConflict::Update { .. } => PolicyCommand::Update,
        _ => PolicyCommand::Delete,
    };
    assert(cmd == clash_command(on_conflict@));
    let rules = read_rules(&t.schema, cmd, wc.env)?;
    apply_insert(store, t, auto, name, &rows, on_conflict, rules, wc)
}

/// `INSERT`.
pub fn run_insert(
    store: &mut Store,
    table: &str,
    columns: &Option<Vec<String>>,
    source: &InsertSource,
    on_conflict: &OnConflict,
    returning: &Option<Vec<SelItem>>,
    wc: &WriteCtx,
) -> (r: Result<Mutation, Stop>)
    ensures
        wrote(
            r,
            old(store)@,
            final(store)@,
            inserted(
                old(store)@,
                table@,
                opt_strings_view(*columns),
                source@,
                on_conflict@,
                opt_items_view(*returning),
                wc@,
            ),
        ),
{
    match store.find_table(table) {
        None => Err(sql_stop(concat2("no such table: ", table))),
        Some(i) => {
            assert(store@.tables[i as int] == store.tables@[i as int]@);
            let d = draft_insert(
                store,
                &store.tables[i],
                table,
                columns,
                source,
                on_conflict,
                wc,
            )?;
            assert(d@.rows.len() == d.rows@.len());
            let n: usize = d.rows.len();
            put_draft(store, i, d, n, returning, wc.env)
        },
    }
}

} // verus!
