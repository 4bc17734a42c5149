//! Queries over one table, or over none.
use vstd::prelude::*;
use crate::asks::{graph_of, ids_of, Ask, AskV, Stop, StopV};
use crate::env::{place_in, sql_fail, sql_stop, within, Env, EnvV, IN_ORDER};
use crate::eval::{
    ev, ev_list, eval, eval_args, group_view, holds, predicate, root_ctx, CtxV, EvalCtx,
};
use crate::inspect::{
    aggregated, dealiased_keys, expr_has_aggregate, has_aggregate, is_aggregated,
    resolved_order_keys,
};
use crate::ops::{key_of_row, row_key, to_vec_operand, vector_operand};
use crate::policy::{enforced, readable, screen};
use crate::query::{
    apply_offset_limit, count_of, eval_count, group_result, heads, keep_rows, kept_from,
    output_columns, picked, project, project_items, projected, projection, rows_result, set_result,
    window, window_bounds, ResultSet, ResultV,
};
use crate::scope::{in_group, in_row, places_view, Scope, ScopeV};
use crate::sorting::{by_keys, ctxs_view, sort_by_keys, sort_keys_view, sorted_places, SortKey};
use crate::sql::{
    exprs_view, items_view, lemma_opt_expr, lemma_select_lists, opt_expr_view, Expr, ExprV, ItemV,
    KeyV, SelItem, SelectStmt, SelectV,
};
use crate::store::{
    index_on, row_visible, sees, table_named, version_pos, versions_view, Store, StoreV, Table,
    TableV, VersionV,
};
use crate::text::{concat2, owned, same_chars};
use crate::value::{row_view, rows_view, RowV, Value};
use crate::vector::Metric;

verus! {

/// How many candidates an index search fetches for each result wanted, to make up
/// for those that are invisible or filtered out.
pub const KNN_OVERFETCH: u64 = 4;

/// Whose eyes a query reads with.
#[derive(Clone, Copy)]
pub struct Sight {
    pub snapshot: u64,
    /// The transaction that reads its own pending changes too.
    pub writer: Option<u64>,
    /// The session's search width for vector indexes.
    pub ef_search: Option<u64>,
}

// ---- grouping ----------------------------------------------------------------------------------

/// The rows that agree on the `GROUP BY` key.
pub struct Group<'a> {
    pub key: Vec<char>,
    pub rows: Vec<&'a [Value]>,
}

pub struct GroupV {
    pub key: Seq<char>,
    pub rows: Seq<RowV>,
}

impl<'a> View for Group<'a> {
    type V = GroupV;

    open spec fn view(&self) -> GroupV {
        GroupV { key: self.key@, rows: group_view(self.rows@) }
    }
}

pub open spec fn groups_view(v: Seq<Group>) -> Seq<GroupV> {
    Seq::new(v.len(), |i: int| v[i]@)
}

/// The first group with a key, from `i` on.
pub open spec fn group_at(gs: Seq<GroupV>, key: Seq<char>, i: int) -> Option<int>
    decreases gs.len() - i,
{
    if i < 0 || i >= gs.len() {
        None
    } else if gs[i].key == key {
        Some(i)
    } else {
        group_at(gs, key, i + 1)
    }
}

/// Groups with a row added to the one of its key, or to a new one behind.
pub open spec fn with_row(gs: Seq<GroupV>, key: Seq<char>, row: RowV) -> Seq<GroupV> {
    match group_at(gs, key, 0) {
        Some(g) => gs.update(g, GroupV { key, rows: gs[g].rows.push(row) }),
        None => gs.push(GroupV { key, rows: seq![row] }),
    }
}

/// The rows from `i` on put into groups, in order of first appearance.
pub open spec fn grouped_from(
    rows: Seq<RowV>,
    s: ScopeV,
    by: Seq<ExprV>,
    env: EnvV,
    i: int,
    acc: Seq<GroupV>,
) -> Result<Seq<GroupV>, StopV>
    decreases rows.len() - i,
{
    if i < 0 || i >= rows.len() {
        Ok(acc)
    } else {
        match ev_list(by, 0, Seq::empty(), in_row(s, rows[i], i), env) {
            Err(e) => Err(e),
            Ok(vals) => grouped_from(
                rows,
                s,
                by,
                env,
                i + 1,
                with_row(acc, row_key(vals), rows[i]),
            ),
        }
    }
}

/// The groups of a query. Without `GROUP BY` there is always one, be it empty.
pub open spec fn groups_of(rows: Seq<RowV>, s: ScopeV, by: Seq<ExprV>, env: EnvV) -> Result<
    Seq<GroupV>,
    StopV,
> {
    match grouped_from(rows, s, by, env, 0, Seq::empty()) {
        Err(e) => Err(e),
        Ok(gs) => if by.len() == 0 && gs.len() == 0 {
            Ok(seq![GroupV { key: Seq::empty(), rows: Seq::empty() }])
        } else {
            Ok(gs)
        },
    }
}

/// An output row and the rows it was made from.
pub struct Entry<'a> {
    pub out: Vec<Value>,
    pub rows: Vec<&'a [Value]>,
}

pub struct EntryV {
    pub out: RowV,
    pub rows: Seq<RowV>,
}

impl<'a> View for Entry<'a> {
    type V = EntryV;

    open spec fn view(&self) -> EntryV {
        EntryV { out: row_view(self.out@), rows: group_view(self.rows@) }
    }
}

pub open spec fn entries_view(v: Seq<Entry>) -> Seq<EntryV> {
    Seq::new(v.len(), |i: int| v[i]@)
}

/// The groups from `i` on that pass `HAVING`, projected, behind `acc`.
pub open spec fn entries_from(
    gs: Seq<GroupV>,
    items: Seq<ItemV>,
    having: Option<ExprV>,
    s: ScopeV,
    whole: bool,
    env: EnvV,
    i: int,
    acc: Seq<EntryV>,
) -> Result<Seq<EntryV>, StopV>
    decreases gs.len() - i,
{
    if i < 0 || i >= gs.len() {
        Ok(acc)
    } else {
        let c = in_group(s, gs[i].rows, i);
        match holds(having, c, env) {
            Err(e) => Err(e),
            Ok(false) => entries_from(gs, items, having, s, whole, env, i + 1, acc),
            Ok(true) => match projected(items, s, whole, c, env) {
                Err(e) => Err(e),
                Ok(out) => entries_from(
                    gs,
                    items,
                    having,
                    s,
                    whole,
                    env,
                    i + 1,
                    acc.push(EntryV { out, rows: gs[i].rows }),
                ),
            },
        }
    }
}

/// The scopes in which entries are ordered.
pub open spec fn entry_ctxs(es: Seq<EntryV>, s: ScopeV) -> Seq<CtxV> {
    Seq::new(es.len(), |i: int| in_group(s, es[i].rows, i))
}

/// The output rows of entries, sorted by order keys.
pub open spec fn ordered_entries(es: Seq<EntryV>, keys: Seq<KeyV>, s: ScopeV, env: EnvV) -> Result<
    Seq<RowV>,
    StopV,
> {
    if keys.len() == 0 {
        Ok(Seq::new(es.len(), |i: int| es[i].out))
    } else {
        match sorted_places(by_keys(entry_ctxs(es, s), keys, within(env, IN_ORDER, 0)), es.len() as int) {
            Err(e) => Err(e),
            Ok(o) => Ok(Seq::new(o.len(), |i: int| es[o[i]].out)),
        }
    }
}

pub open spec fn groups_result(r: Result<Vec<Group>, Stop>) -> Result<Seq<GroupV>, StopV> {
    match r {
        Ok(v) => Ok(groups_view(v@)),
        Err(s) => Err(s@),
    }
}

pub open spec fn entries_result(r: Result<Vec<Entry>, Stop>) -> Result<Seq<EntryV>, StopV> {
    match r {
        Ok(v) => Ok(entries_view(v@)),
        Err(s) => Err(s@),
    }
}

/// Put a row into its group.
fn add_to_group<'a>(gs: &mut Vec<Group<'a>>, key: Vec<char>, row: &'a [Value])
    ensures
        groups_view(final(gs)@) == with_row(groups_view(old(gs)@), key@, row_view(row@)),
{
    let ghost before = groups_view(gs@);
    let mut g: usize = 0;
    while g < gs.len() && !same_chars(&gs[g].key, &key)
        invariant
            g <= gs.len(),
            before == groups_view(gs@),
            group_at(before, key@, g as int) == group_at(before, key@, 0),
        decreases gs.len() - g,
    {
        assert(before[g as int] == gs@[g as int]@);
        g += 1;
    }
    if g < gs.len() {
        assert(before[g as int] == gs@[g as int]@);
        let ghost was = group_view(gs@[g as int].rows@);
        gs[g].rows.push(row);
        proof {
            assert(group_view(gs@[g as int].rows@) =~= was.push(row_view(row@)));
            assert(groups_view(gs@) =~= before.update(
                g as int,
                GroupV { key: key@, rows: was.push(row_view(row@)) },
            ));
        }
    } else {
        let ghost kv = key@;
        let mut rows: Vec<&'a [Value]> = Vec::new();
        rows.push(row);
        assert(group_view(rows@) =~= seq![row_view(row@)]);
        gs.push(Group { key, rows });
        assert(groups_view(gs@) =~= before.push(GroupV { key: kv, rows: seq![row_view(row@)] }));
    }
}

/// Partition rows into groups.
pub fn group_rows<'a>(rows: &Vec<&'a [Value]>, scope: &Scope, by: &Vec<Expr>, env: &Env) -> (r:
    Result<Vec<Group<'a>>, Stop>)
    ensures
        groups_result(r) == groups_of(group_view(rows@), scope@, exprs_view(by@), env@),
{
    let ghost rv = group_view(rows@);
    let ghost bv = exprs_view(by@);
    let mut gs: Vec<Group<'a>> = Vec::new();
    assert(groups_view(gs@) =~= Seq::<GroupV>::empty());
    let mut i: usize = 0;
    while i < rows.len()
        invariant
            i <= rows.len(),
            rv == group_view(rows@),
            bv == exprs_view(by@),
            grouped_from(rv, scope@, bv, env@, i as int, groups_view(gs@)) == grouped_from(
                rv,
                scope@,
                bv,
                env@,
                0,
                Seq::empty(),
            ),
        decreases rows.len() - i,
    {
        let row: &'a [Value] = rows[i];
        assert(rv[i as int] == row_view(row@));
        match eval_args(by, &scope.in_row(row, i), env) {
            Ok(vals) => {
                let key = key_of_row(&vals);
                add_to_group(&mut gs, key, row);
            },
            Err(s) => {
                return Err(s);
            },
        }
        i += 1;
    }
    if by.len() == 0 && gs.len() == 0 {
        let none: Vec<&'a [Value]> = Vec::new();
        let key: Vec<char> = Vec::new();
        assert(group_view(none@) =~= Seq::<RowV>::empty());
        gs.push(Group { key, rows: none });
        assert(groups_view(gs@) =~= seq![GroupV { key: Seq::empty(), rows: Seq::empty() }]);
    }
    Ok(gs)
}

/// Filter groups by `HAVING` and project them.
pub fn group_entries<'a>(
    gs: Vec<Group<'a>>,
    items: &Vec<SelItem>,
    having: &Option<Expr>,
    scope: &Scope,
    whole: bool,
    env: &Env,
) -> (r: Result<Vec<Entry<'a>>, Stop>)
    ensures
        entries_result(r) == entries_from(
            groups_view(gs@),
            items_view(items@),
            opt_expr_view(*having),
            scope@,
            whole,
            env@,
            0,
            Seq::empty(),
        ),
{
    let ghost gv = groups_view(gs@);
    let ghost iv = items_view(items@);
    let ghost hv = opt_expr_view(*having);
    let mut out: Vec<Entry<'a>> = Vec::new();
    assert(entries_view(out@) =~= Seq::<EntryV>::empty());
    let mut i: usize = 0;
    while i < gs.len()
        invariant
            i <= gs.len(),
            gv == groups_view(gs@),
            iv == items_view(items@),
            hv == opt_expr_view(*having),
            entries_from(gv, iv, hv, scope@, whole, env@, i as int, entries_view(out@))
                == entries_from(gv, iv, hv, scope@, whole, env@, 0, Seq::empty()),
        decreases gs.len() - i,
    {
        assert(gv[i as int] == gs@[i as int]@);
        let ctx = scope.in_group(gs[i].rows.as_slice(), i);
        match predicate(having, &ctx, env) {
            Err(s) => {
                return Err(s);
            },
            Ok(b) => if b {
                match project_items(items, scope, whole, &ctx, env) {
                    Err(s) => {
                        return Err(s);
                    },
                    Ok(v) => {
                        let ghost before = entries_view(out@);
                        let ghost vv = row_view(v@);
                        let rows = copy_refs(&gs[i].rows);
                        out.push(Entry { out: v, rows });
                        assert(entries_view(out@) =~= before.push(
                            EntryV { out: vv, rows: gv[i as int].rows },
                        ));
                    },
                }
            },
        }
        i += 1;
    }
    Ok(out)
}

/// The same rows again.
pub fn copy_refs<'a>(rows: &Vec<&'a [Value]>) -> (r: Vec<&'a [Value]>)
    ensures
        r@ == rows@,
{
    let mut out: Vec<&'a [Value]> = Vec::new();
    let mut i: usize = 0;
    while i < rows.len()
        invariant
            i <= rows.len(),
            out@ == rows@.take(i as int),
        decreases rows.len() - i,
    {
        out.push(rows[i]);
        assert(out@ =~= rows@.take(i + 1));
        i += 1;
    }
    assert(out@ =~= rows@);
    out
}

/// Sort entries and hand out their output rows.
pub fn order_entries(es: Vec<Entry>, keys: &Vec<SortKey>, scope: &Scope, env: &Env) -> (r: Result<
    Vec<Vec<Value>>,
    Stop,
>)
    ensures
        rows_result(r) == ordered_entries(
            entries_view(es@),
            sort_keys_view(keys@),
            scope@,
            env@,
        ),
{
    let ghost ev = entries_view(es@);
    let ghost kv = sort_keys_view(keys@);
    let mut out: Vec<Vec<Value>> = Vec::new();
    if keys.len() == 0 {
        let mut i: usize = 0;
        while i < es.len()
            invariant
                i <= es.len(),
                ev == entries_view(es@),
                out.len() == i,
                forall|k: int| 0 <= k < i ==> row_view((#[trigger] out@[k])@) == ev[k].out,
            decreases es.len() - i,
        {
            assert(ev[i as int] == es@[i as int]@);
            out.push(crate::value::clone_row(&es[i].out));
            i += 1;
        }
        assert(rows_view(out@) =~= Seq::new(ev.len(), |i: int| ev[i].out));
        return Ok(out);
    }
    let mut ctxs: Vec<EvalCtx> = Vec::new();
    let mut i: usize = 0;
    while i < es.len()
        invariant
            i <= es.len(),
            ev == entries_view(es@),
            ctxs.len() == i,
            forall|k: int| 0 <= k < i ==> (#[trigger] ctxs@[k])@ == in_group(scope@, ev[k].rows, k),
        decreases es.len() - i,
    {
        assert(ev[i as int] == es@[i as int]@);
        ctxs.push(scope.in_group(es[i].rows.as_slice(), i));
        i += 1;
    }
    assert(ctxs_view(ctxs@) =~= entry_ctxs(ev, scope@));
    let place = place_in(env, IN_ORDER, 0);
    let inner = Env {
        reals: env.reals,
        now: env.now,
        params: env.params,
        session: env.session,
        place: place.as_slice(),
    };
    assert(inner@ == within(env@, IN_ORDER, 0));
    match sort_by_keys(&ctxs, keys, &inner) {
        Err(s) => Err(s),
        Ok(order) => {
            let ghost ov = places_view(order@);
            let mut k: usize = 0;
            while k < order.len()
                invariant
                    k <= order.len(),
                    ev == entries_view(es@),
                    ov == places_view(order@),
                    out.len() == k,
                    forall|j: int| 0 <= j < order.len() ==> order@[j] < es.len(),
                    forall|j: int| 0 <= j < k ==> row_view((#[trigger] out@[j])@) == ev[ov[j]].out,
                decreases order.len() - k,
            {
                assert(ov[k as int] == order@[k as int] as int);
                assert(ev[ov[k as int]] == es@[order@[k as int] as int]@);
                out.push(crate::value::clone_row(&es[order[k]].out));
                k += 1;
            }
            assert(rows_view(out@) =~= Seq::new(ov.len(), |i: int| ev[ov[i]].out));
            Ok(out)
        },
    }
}

// ---- aggregated queries over one table -----------------------------------------------------------

/// An aggregated query over the rows that passed its filter.
pub open spec fn grouped_query(q: SelectV, s: ScopeV, rows: Seq<RowV>, env: EnvV) -> Result<
    ResultV,
    StopV,
> {
    match groups_of(rows, s, q.group_by, env) {
        Err(e) => Err(e),
        Ok(gs) => match entries_from(gs, q.items, q.having, s, true, env, 0, Seq::empty()) {
            Err(e) => Err(e),
            Ok(es) => match ordered_entries(es, dealiased_keys(q.items, q.order_by), s, env) {
                Err(e) => Err(e),
                Ok(out) => match count_of(q.offset, env) {
                    Err(e) => Err(e),
                    Ok(off) => match count_of(q.limit, env) {
                        Err(e) => Err(e),
                        Ok(lim) => {
                            let h = heads(q.items, s);
                            Ok(
                                ResultV {
                                    columns: h.names,
                                    types: h.types,
                                    rows: window(out, lim, off),
                                },
                            )
                        },
                    },
                },
            },
        },
    }
}

/// Run an aggregated query over the rows that passed its filter.
pub fn grouped_select(sel: &SelectStmt, scope: &Scope, matched: &Vec<&[Value]>, env: &Env) -> (r:
    Result<ResultSet, Stop>)
    ensures
        set_result(r) == grouped_query(sel@, scope@, group_view(matched@), env@),
{
    proof {
        lemma_select_lists(*sel);
    }
    let gs = match group_rows(matched, scope, &sel.group_by, env) {
        Ok(g) => g,
        Err(s) => {
            return Err(s);
        },
    };
    let es = match group_entries(gs, &sel.items, &sel.having, scope, true, env) {
        Ok(e) => e,
        Err(s) => {
            return Err(s);
        },
    };
    let keys = resolved_order_keys(&sel.items, &sel.order_by);
    let rows = match order_entries(es, &keys, scope, env) {
        Ok(v) => v,
        Err(s) => {
            return Err(s);
        },
    };
    let off = match eval_count(&sel.offset, env) {
        Ok(o) => o,
        Err(s) => {
            return Err(s);
        },
    };
    let lim = match eval_count(&sel.limit, env) {
        Ok(o) => o,
        Err(s) => {
            return Err(s);
        },
    };
    let h = output_columns(&sel.items, scope);
    Ok(ResultSet { columns: h.names, types: h.types, rows: apply_offset_limit(rows, lim, off) })
}

// ---- queries without a source --------------------------------------------------------------------

/// Why a select list needs a source, from item `i` on.
pub open spec fn sourceless_from(items: Seq<ItemV>, i: int) -> Option<StopV>
    decreases items.len() - i,
{
    if i < 0 || i >= items.len() {
        None
    } else {
        match items[i] {
            ItemV::Star { .. } => Some(sql_fail("SELECT * requires a FROM clause"@)),
            ItemV::Expr { expr, .. } => if has_aggregate(expr) {
                Some(sql_fail("aggregate requires a FROM clause"@))
            } else {
                sourceless_from(items, i + 1)
            },
        }
    }
}

pub open spec fn no_scope() -> ScopeV {
    ScopeV { schema: None, cols: None }
}

/// A query without a source: one row of constants.
pub open spec fn constant_query(q: SelectV, env: EnvV) -> Result<ResultV, StopV> {
    match sourceless_from(q.items, 0) {
        Some(e) => Err(e),
        None => match projected(q.items, no_scope(), false, root_ctx(), env) {
            Err(e) => Err(e),
            Ok(row) => {
                let h = heads(q.items, no_scope());
                Ok(ResultV { columns: h.names, types: h.types, rows: seq![row] })
            },
        },
    }
}

/// Run a query without a source.
pub fn constant_select(sel: &SelectStmt, env: &Env) -> (r: Result<ResultSet, Stop>)
    ensures
        set_result(r) == constant_query(sel@, env@),
{
    proof {
        lemma_select_lists(*sel);
    }
    let ghost iv = items_view(sel.items@);
    let mut i: usize = 0;
    while i < sel.items.len()
        invariant
            i <= sel.items.len(),
            iv == items_view(sel.items@),
            sel@.items == iv,
            sourceless_from(iv, i as int) == sourceless_from(iv, 0),
        decreases sel.items.len() - i,
    {
        assert(iv[i as int] == sel.items@[i as int]@);
        match &sel.items[i] {
            SelItem::Star { .. } => {
                return Err(sql_stop(owned("SELECT * requires a FROM clause")));
            },
            SelItem::Expr { expr, .. } => if expr_has_aggregate(expr) {
                return Err(sql_stop(owned("aggregate requires a FROM clause")));
            },
        }
        i += 1;
    }
    let scope = Scope { schema: None, cols: None };
    match project_items(&sel.items, &scope, false, &EvalCtx::root(), env) {
        Err(s) => Err(s),
        Ok(row) => {
            let h = output_columns(&sel.items, &scope);
            let mut rows: Vec<Vec<Value>> = Vec::new();
            let ghost rv = row_view(row@);
            rows.push(row);
            assert(rows_view(rows@) =~= seq![rv]);
            Ok(ResultSet { columns: h.names, types: h.types, rows })
        },
    }
}

// ---- queries over one table ----------------------------------------------------------------------

/// The values of the versions from `i` on that are visible, behind `acc`.
pub open spec fn visible_from(
    rows: Seq<VersionV>,
    snapshot: u64,
    writer: Option<u64>,
    i: int,
    acc: Seq<RowV>,
) -> Seq<RowV>
    decreases rows.len() - i,
{
    if i < 0 || i >= rows.len() {
        acc
    } else if sees(rows[i], snapshot, writer) {
        visible_from(rows, snapshot, writer, i + 1, acc.push(rows[i].values))
    } else {
        visible_from(rows, snapshot, writer, i + 1, acc)
    }
}

/// The rows of a table that a sight shows.
pub open spec fn seen(t: TableV, sight: Sight) -> Seq<RowV> {
    visible_from(t.rows, sight.snapshot, sight.writer, 0, Seq::empty())
}

pub fn visible_rows<'a>(t: &'a Table, sight: &Sight) -> (r: Vec<&'a [Value]>)
    ensures
        group_view(r@) == seen(t@, *sight),
{
    let ghost rv = t@.rows;
    let mut out: Vec<&'a [Value]> = Vec::new();
    assert(group_view(out@) =~= Seq::<RowV>::empty());
    let mut i: usize = 0;
    while i < t.rows.len()
        invariant
            i <= t.rows.len(),
            rv == versions_view(t.rows@),
            rv == t@.rows,
            visible_from(rv, sight.snapshot, sight.writer, i as int, group_view(out@)) == seen(
                t@,
                *sight,
            ),
        decreases t.rows.len() - i,
    {
        assert(rv[i as int] == t.rows@[i as int]@);
        if row_visible(&t.rows[i], sight.snapshot, sight.writer) {
            let ghost before = group_view(out@);
            let row: &'a [Value] = t.rows[i].values.as_slice();
            out.push(row);
            assert(group_view(out@) =~= before.push(rv[i as int].values));
        }
        i += 1;
    }
    out
}

/// A nearest-neighbour query that an index may answer.
pub struct NearV {
    pub column: Seq<char>,
    pub metric: Metric,
    pub query: ExprV,
    pub limit: i64,
}

/// The shape `ORDER BY <column> <distance> <query> LIMIT k`: one ascending key, no
/// offset, no aggregates.
pub open spec fn near_query(q: SelectV, limit: Option<i64>) -> Option<NearV> {
    match limit {
        None => None,
        Some(l) => if l < 0 || q.order_by.len() != 1 || !q.order_by[0].asc || q.offset is Some
            || aggregated(q.items, q.group_by, q.having) {
            None
        } else {
            match q.order_by[0].expr {
                ExprV::Binary { op, l: left, r } => match (op.metric(), *left) {
                    (Some(m), ExprV::Column(c)) => Some(
                        NearV { column: c, metric: m, query: *r, limit: l },
                    ),
                    _ => None,
                },
                _ => None,
            }
        },
    }
}

/// The hits from `i` on that are visible and pass the filter, until there are
/// enough, behind `acc`.
pub open spec fn hits_from(
    ids: Seq<u64>,
    t: TableV,
    sight: Sight,
    filter: Option<ExprV>,
    s: ScopeV,
    env: EnvV,
    limit: int,
    i: int,
    acc: Seq<RowV>,
) -> Result<Seq<RowV>, StopV>
    decreases ids.len() - i,
{
    if i < 0 || i >= ids.len() || acc.len() >= limit {
        Ok(acc)
    } else {
        match version_pos(t.rows, ids[i], 0) {
            None => hits_from(ids, t, sight, filter, s, env, limit, i + 1, acc),
            Some(k) => if !sees(t.rows[k], sight.snapshot, sight.writer) {
                hits_from(ids, t, sight, filter, s, env, limit, i + 1, acc)
            } else {
                match holds(filter, in_row(s, t.rows[k].values, i), env) {
                    Err(e) => Err(e),
                    Ok(true) => hits_from(
                        ids,
                        t,
                        sight,
                        filter,
                        s,
                        env,
                        limit,
                        i + 1,
                        acc.push(t.rows[k].values),
                    ),
                    Ok(false) => hits_from(ids, t, sight, filter, s, env, limit, i + 1, acc),
                }
            },
        }
    }
}

/// How many candidates to fetch: some for each result wanted, at least the search
/// width, at most what the graph holds.
pub open spec fn fetch_count(limit: i64, ef: u64, held: u64) -> u64 {
    let want = limit * KNN_OVERFETCH;
    let wide = if want > ef {
        want
    } else {
        ef as int
    };
    if wide < held {
        wide as u64
    } else {
        held
    }
}

pub open spec fn table_scope(t: TableV) -> ScopeV {
    ScopeV { schema: Some(t.schema), cols: None }
}

/// The rows of a nearest-neighbour query as its index answers it; `None` where the
/// table is to be scanned instead: its row policies bind the query, the query has
/// another shape, no index of its metric covers the column, the graph is empty or
/// newer than the snapshot, or the operand is no vector.
pub open spec fn near_rows(
    st: StoreV,
    q: SelectV,
    name: Seq<char>,
    t: TableV,
    sight: Sight,
    env: EnvV,
) -> Result<Option<Seq<RowV>>, StopV> {
    match count_of(q.limit, env) {
        Err(e) => Err(e),
        Ok(limit) => match near_query(q, limit) {
            None => Ok(None),
            Some(n) => match index_on(st.indexes, name, n.column, 0) {
                None => Ok(None),
                Some(k) => {
                    let ix = st.indexes[k];
                    if n.limit == 0 || ix.params.metric != n.metric || enforced(t.schema, env) {
                        Ok(None)
                    } else {
                        match graph_of(env.reals, ix.name) {
                            Err(e) => Err(e),
                            Ok((held, floor)) => if held == 0 || sight.snapshot < floor {
                                Ok(None)
                            } else {
                                match ev(n.query, root_ctx(), env) {
                                    Err(e) => Err(e),
                                    Ok(v) => match vector_operand(env.reals, v) {
                                        Err(e) => Err(e),
                                        Ok(None) => Ok(None),
                                        Ok(Some(x)) => {
                                            let ef = match sight.ef_search {
                                                Some(w) => w,
                                                None => ix.params.ef_search as u64,
                                            };
                                            let fetch = fetch_count(n.limit, ef, held);
                                            match ids_of(
                                                env.reals,
                                                AskV::Nearest(ix.name, x, fetch, ef),
                                            ) {
                                                Err(e) => Err(e),
                                                Ok(ids) => match hits_from(
                                                    ids,
                                                    t,
                                                    sight,
                                                    q.filter,
                                                    table_scope(t),
                                                    env,
                                                    n.limit as int,
                                                    0,
                                                    Seq::empty(),
                                                ) {
                                                    Err(e) => Err(e),
                                                    Ok(rows) => Ok(Some(rows)),
                                                },
                                            }
                                        },
                                    },
                                }
                            },
                        }
                    }
                },
            },
        },
    }
}

pub struct Near<'a> {
    pub column: &'a String,
    pub metric: Metric,
    pub query: &'a Expr,
    pub limit: i64,
}

/// Recognise a nearest-neighbour query.
pub fn knn_plan<'a>(sel: &'a SelectStmt, limit: Option<i64>) -> (r: Option<Near<'a>>)
    ensures
        match near_query(sel@, limit) {
            None => r is None,
            Some(n) => r matches Some(x) && x.column@ == n.column && x.metric == n.metric
                && x.query@ == n.query && x.limit == n.limit,
        },
        r matches Some(x) ==> x.limit >= 0,
{
    proof {
        lemma_select_lists(*sel);
        lemma_opt_expr(sel.offset);
    }
    let l: i64 = match limit {
        None => {
            return None;
        },
        Some(l) => l,
    };
    if l < 0 || sel.order_by.len() != 1 {
        return None;
    }
    let key = &sel.order_by[0];
    assert(sel@.order_by[0] == crate::sql::key_view(*key));
    if !key.asc || sel.offset.is_some() || is_aggregated(&sel.items, &sel.group_by, &sel.having) {
        return None;
    }
    match &key.expr {
        Expr::Binary { op, l: left, r } => {
            assert(key.expr@ == (ExprV::Binary {
                op: *op,
                l: Box::new(left@),
                r: Box::new(r@),
            }));
            match op.vec_metric() {
                None => None,
                Some(m) => match &**left {
                    Expr::Column(c) => {
                        assert(left@ == ExprV::Column(c@));
                        Some(Near { column: c, metric: m, query: &**r, limit: l })
                    },
                    _ => None,
                },
            }
        },
        _ => None,
    }
}

fn fetch_for(limit: i64, ef: u64, held: u64) -> (r: u64)
    requires
        limit >= 0,
    ensures
        r == fetch_count(limit, ef, held),
{
    let want: u128 = limit as u128 * KNN_OVERFETCH as u128;
    let wide: u128 = if want > ef as u128 {
        want
    } else {
        ef as u128
    };
    if wide < held as u128 {
        wide as u64
    } else {
        held
    }
}

fn visible_hits<'a>(
    ids: &Vec<u64>,
    t: &'a Table,
    sight: &Sight,
    filter: &Option<Expr>,
    scope: &Scope,
    limit: i64,
    env: &Env,
) -> (r: Result<Vec<&'a [Value]>, Stop>)
    requires
        limit >= 0,
    ensures
        group_result(r) == hits_from(
            ids@,
            t@,
            *sight,
            opt_expr_view(*filter),
            scope@,
            env@,
            limit as int,
            0,
            Seq::empty(),
        ),
{
    let ghost fv = opt_expr_view(*filter);
    let mut out: Vec<&'a [Value]> = Vec::new();
    assert(group_view(out@) =~= Seq::<RowV>::empty());
    let mut i: usize = 0;
    while i < ids.len() && (out.len() as u64) < limit as u64
        invariant
            i <= ids.len(),
            limit >= 0,
            fv == opt_expr_view(*filter),
            hits_from(ids@, t@, *sight, fv, scope@, env@, limit as int, i as int, group_view(out@))
                == hits_from(ids@, t@, *sight, fv, scope@, env@, limit as int, 0, Seq::empty()),
        decreases ids.len() - i,
    {
        assert(group_view(out@).len() == out.len());
        match t.find_version(ids[i]) {
            None => {},
            Some(k) => {
                assert(t@.rows[k as int] == t.rows@[k as int]@);
                if row_visible(&t.rows[k], sight.snapshot, sight.writer) {
                    let row: &'a [Value] = t.rows[k].values.as_slice();
                    match predicate(filter, &scope.in_row(row, i), env) {
                        Err(s) => {
                            return Err(s);
                        },
                        Ok(b) => if b {
                            let ghost before = group_view(out@);
                            out.push(row);
                            assert(group_view(out@) =~= before.push(t@.rows[k as int].values));
                        },
                    }
                }
            },
        }
        i += 1;
    }
    assert(group_view(out@).len() == out.len());
    Ok(out)
}

/// Answer a nearest-neighbour query through its index, where one can.
pub fn knn_select<'a>(
    store: &Store,
    sel: &SelectStmt,
    name: &str,
    t: &'a Table,
    sight: &Sight,
    env: &Env,
) -> (r: Result<Option<Vec<&'a [Value]>>, Stop>)
    ensures
        near_rows(store@, sel@, name@, t@, *sight, env@) == (match r {
            Ok(Some(v)) => Ok(Some(group_view(v@))),
            Ok(None) => Ok(None),
            Err(s) => Err(s@),
        }),
{
    let limit = match eval_count(&sel.limit, env) {
        Ok(l) => l,
        Err(s) => {
            return Err(s);
        },
    };
    let plan = match knn_plan(sel, limit) {
        None => {
            return Ok(None);
        },
        Some(p) => p,
    };
    let ix = match store.index_for(name, plan.column) {
        None => {
            return Ok(None);
        },
        Some(ix) => ix,
    };
    if plan.limit == 0 || ix.params.metric != plan.metric || (t.schema.rls_enabled
        && !env.session.bypass()) {
        return Ok(None);
    }
    let (held, floor) = match env.reals.graph(&ix.name) {
        Ok(p) => p,
        Err(s) => {
            return Err(s);
        },
    };
    if held == 0 || sight.snapshot < floor {
        return Ok(None);
    }
    let v = match eval(plan.query, &EvalCtx::root(), env) {
        Ok(v) => v,
        Err(s) => {
            return Err(s);
        },
    };
    let x = match to_vec_operand(env.reals, &v) {
        Ok(Some(x)) => x,
        Ok(None) => {
            return Ok(None);
        },
        Err(s) => {
            return Err(s);
        },
    };
    let ef: u64 = match sight.ef_search {
        Some(w) => w,
        None => ix.params.ef_search as u64,
    };
    let fetch: u64 = fetch_for(plan.limit, ef, held);
    let ids = match env.reals.ids(Ask::Nearest(ix.name.clone(), x, fetch, ef)) {
        Ok(v) => v,
        Err(s) => {
            return Err(s);
        },
    };
    let scope = Scope { schema: Some(&t.schema), cols: None };
    match visible_hits(ids, t, sight, &sel.filter, &scope, plan.limit, env) {
        Ok(v) => Ok(Some(v)),
        Err(s) => Err(s),
    }
}

/// The scopes in which the rows of a table are ordered.
pub open spec fn row_ctxs(rows: Seq<RowV>, s: ScopeV) -> Seq<CtxV> {
    Seq::new(rows.len(), |i: int| in_row(s, rows[i], i))
}

/// Rows sorted by order keys.
pub open spec fn ordered_rows(rows: Seq<RowV>, keys: Seq<KeyV>, s: ScopeV, env: EnvV) -> Result<
    Seq<RowV>,
    StopV,
> {
    if keys.len() == 0 {
        Ok(rows)
    } else {
        match sorted_places(by_keys(row_ctxs(rows, s), keys, within(env, IN_ORDER, 0)), rows.len() as int) {
            Err(e) => Err(e),
            Ok(o) => Ok(picked(rows, o)),
        }
    }
}

/// A query over one table.
pub open spec fn table_query(
    st: StoreV,
    q: SelectV,
    name: Seq<char>,
    sight: Sight,
    env: EnvV,
) -> Result<ResultV, StopV> {
    match table_named(st, name) {
        None => Err(sql_fail("no such table: "@ + name)),
        Some(t) => {
            let s = table_scope(t);
            match near_rows(st, q, name, t, sight, env) {
                Err(e) => Err(e),
                Ok(Some(rows)) => projection(q.items, s, rows, env),
                Ok(None) => match readable(t.schema, seen(t, sight), env) {
                    Err(e) => Err(e),
                    Ok(rows) => rows_query(q, s, rows, env),
                },
            }
        },
    }
}

/// A query over the rows of one table.
pub open spec fn rows_query(q: SelectV, s: ScopeV, all: Seq<RowV>, env: EnvV) -> Result<
    ResultV,
    StopV,
> {
    match kept_from(all, s, q.filter, env, 0, Seq::empty()) {
        Err(e) => Err(e),
        Ok(rows) => if aggregated(q.items, q.group_by, q.having) {
            grouped_query(q, s, rows, env)
        } else {
            match ordered_rows(rows, dealiased_keys(q.items, q.order_by), s, env) {
                Err(e) => Err(e),
                Ok(sorted) => match count_of(q.limit, env) {
                    Err(e) => Err(e),
                    Ok(lim) => match count_of(q.offset, env) {
                        Err(e) => Err(e),
                        Ok(off) => projection(q.items, s, window(sorted, lim, off), env),
                    },
                },
            }
        },
    }
}

/// Sort rows by the order keys of a query.
pub fn order_matched<'a>(
    sel: &SelectStmt,
    scope: &Scope,
    rows: Vec<&'a [Value]>,
    env: &Env,
) -> (r: Result<Vec<&'a [Value]>, Stop>)
    ensures
        group_result(r) == ordered_rows(
            group_view(rows@),
            dealiased_keys(sel@.items, sel@.order_by),
            scope@,
            env@,
        ),
{
    proof {
        lemma_select_lists(*sel);
    }
    let ghost rv = group_view(rows@);
    if sel.order_by.len() == 0 {
        return Ok(rows);
    }
    let keys = resolved_order_keys(&sel.items, &sel.order_by);
    let mut ctxs: Vec<EvalCtx> = Vec::new();
    let mut i: usize = 0;
    while i < rows.len()
        invariant
            i <= rows.len(),
            rv == group_view(rows@),
            ctxs.len() == i,
            forall|k: int| 0 <= k < i ==> (#[trigger] ctxs@[k])@ == in_row(scope@, rv[k], k),
        decreases rows.len() - i,
    {
        assert(rv[i as int] == row_view(rows@[i as int]@));
        ctxs.push(scope.in_row(rows[i], i));
        i += 1;
    }
    assert(ctxs_view(ctxs@) =~= row_ctxs(rv, scope@));
    let place = place_in(env, IN_ORDER, 0);
    let inner = Env {
        reals: env.reals,
        now: env.now,
        params: env.params,
        session: env.session,
        place: place.as_slice(),
    };
    assert(inner@ == within(env@, IN_ORDER, 0));
    match sort_by_keys(&ctxs, &keys, &inner) {
        Err(s) => Err(s),
        Ok(order) => {
            let ghost ov = places_view(order@);
            let mut out: Vec<&'a [Value]> = Vec::new();
            let mut k: usize = 0;
            while k < order.len()
                invariant
                    k <= order.len(),
                    rv == group_view(rows@),
                    ov == places_view(order@),
                    out.len() == k,
                    forall|j: int| 0 <= j < order.len() ==> order@[j] < rows.len(),
                    forall|j: int| 0 <= j < k ==> row_view((#[trigger] out@[j])@) == rv[ov[j]],
                decreases order.len() - k,
            {
                assert(ov[k as int] == order@[k as int] as int);
                assert(rv[ov[k as int]] == row_view(rows@[order@[k as int] as int]@));
                out.push(rows[order[k]]);
                k += 1;
            }
            assert(group_view(out@) =~= picked(rv, ov));
            Ok(out)
        },
    }
}

/// The rows of a window.
fn cut_window<'a>(rows: Vec<&'a [Value]>, lim: Option<i64>, off: Option<i64>) -> (r: Vec<
    &'a [Value],
>)
    ensures
        group_view(r@) == window(group_view(rows@), lim, off),
{
    let ghost rv = group_view(rows@);
    let mut rows = rows;
    let (from, to) = window_bounds(rows.len(), lim, off);
    rows.truncate(to);
    let cut = rows.split_off(from);
    assert(group_view(cut@) =~= window(rv, lim, off));
    cut
}

/// Run a query over the rows of one table.
fn select_rows(sel: &SelectStmt, scope: &Scope, all: &Vec<&[Value]>, env: &Env) -> (r: Result<
    ResultSet,
    Stop,
>)
    ensures
        set_result(r) == rows_query(sel@, scope@, group_view(all@), env@),
{
    proof {
        lemma_select_lists(*sel);
    }
    let matched = match keep_rows(all, scope, &sel.filter, env) {
        Ok(v) => v,
        Err(s) => {
            return Err(s);
        },
    };
    if is_aggregated(&sel.items, &sel.group_by, &sel.having) {
        return grouped_select(sel, scope, &matched, env);
    }
    let sorted = match order_matched(sel, scope, matched, env) {
        Ok(v) => v,
        Err(s) => {
            return Err(s);
        },
    };
    let lim = match eval_count(&sel.limit, env) {
        Ok(o) => o,
        Err(s) => {
            return Err(s);
        },
    };
    let off = match eval_count(&sel.offset, env) {
        Ok(o) => o,
        Err(s) => {
            return Err(s);
        },
    };
    project(&sel.items, scope, &cut_window(sorted, lim, off), env)
}

/// Run a query over one table.
pub fn single_table_select(
    store: &Store,
    sel: &SelectStmt,
    name: &str,
    sight: &Sight,
    env: &Env,
) -> (r: Result<ResultSet, Stop>)
    ensures
        set_result(r) == table_query(store@, sel@, name@, *sight, env@),
{
    proof {
        lemma_select_lists(*sel);
    }
    let t = match store.table(name) {
        None => {
            return Err(sql_stop(concat2("no such table: ", name)));
        },
        Some(t) => t,
    };
    let scope = Scope { schema: Some(&t.schema), cols: None };
    assert(scope@ == table_scope(t@));
    match knn_select(store, sel, name, t, sight, env) {
        Err(s) => {
            return Err(s);
        },
        Ok(Some(rows)) => {
            return project(&sel.items, &scope, &rows, env);
        },
        Ok(None) => {},
    }
    let all = match screen(&t.schema, visible_rows(t, sight), env) {
        Ok(v) => v,
        Err(s) => {
            return Err(s);
        },
    };
    select_rows(sel, &scope, &all, env)
}

/// A query over a table whose policies bind it reads nothing of the table but the
/// rows that they let it read.
pub proof fn law_policies_bind_queries(
    st: StoreV,
    q: SelectV,
    name: Seq<char>,
    t: TableV,
    sight: Sight,
    env: EnvV,
)
    requires
        table_named(st, name) == Some(t),
        enforced(t.schema, env),
    ensures
        table_query(st, q, name, sight, env) == (match count_of(q.limit, env) {
            Err(e) => Err(e),
            Ok(_) => match readable(t.schema, seen(t, sight), env) {
                Err(e) => Err(e),
                Ok(rows) => rows_query(q, table_scope(t), rows, env),
            },
        }),
{
}

} // verus!
