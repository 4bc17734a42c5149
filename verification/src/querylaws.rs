//! Which rows the stages of a query keep, in which order, and what they make of them.
use vstd::prelude::*;
use crate::asks::StopV;
use crate::catalog::SchemaV;
use crate::env::{within, EnvV, IN_ORDER};
use crate::eval::{ev, ev_list, root_ctx, CtxV};
use crate::grouplaws::lemma_group_at;
use crate::inspect::{aggregated, dealiased_keys};
use crate::ops::row_key;
use crate::policy::{passes, passing_from};
use crate::query::{
    count_of, kept_from, picked, projected, projected_from, projected_rows_from, projection, window,
    window_end, window_start, ResultV,
};
use crate::relation::{distinct_rows, RelationV};
use crate::relational::{core_over, finished, ClausesV};
use crate::scope::{in_group, in_row, ScopeV};
use crate::select::{
    entries_from, fetch_count, group_at, grouped_from, grouped_query, groups_of, hits_from,
    ordered_rows, row_ctxs, rows_query, seen, visible_from, with_row, EntryV, GroupV, KNN_OVERFETCH,
    Sight,
};
use crate::sorting::{by_keys, law_sort_permutes, permutes, sorted_places};
use crate::sql::{ExprV, ItemV, SelectV};
use crate::store::{reader_sees, sees, version_pos, writer_sees, PENDING, TableV, VersionV};
use crate::value::{truth, RowV, ValueV};

verus! {

// ---- picking --------------------------------------------------------------------------------------

/// Whether `out` holds what stands at the places given, which go up and lie below `n`.
pub open spec fn picks(all: Seq<RowV>, out: Seq<RowV>, places: Seq<int>, n: int) -> bool {
    &&& out.len() == places.len()
    &&& n <= all.len()
    &&& forall|m: int|
        0 <= m < places.len() ==> 0 <= #[trigger] places[m] < n && out[m] == all[places[m]]
    &&& forall|a: int, b: int|
        0 <= a < b < places.len() ==> #[trigger] places[a] < #[trigger] places[b]
}

proof fn lemma_picks(all: Seq<RowV>, out: Seq<RowV>, places: Seq<int>, i: int)
    requires
        0 <= i < all.len(),
        picks(all, out, places, i),
    ensures
        picks(all, out, places, i + 1),
        picks(all, out.push(all[i]), places.push(i), i + 1),
        forall|k: int|
            #![trigger places.push(i).contains(k)]
            places.push(i).contains(k) <==> places.contains(k) || k == i,
        !places.contains(i),
{
    lemma_pushed(places, i);
    let (more, at) = (out.push(all[i]), places.push(i));
    assert forall|m: int| 0 <= m < at.len() implies 0 <= #[trigger] at[m] < i + 1 && more[m]
        == all[at[m]] by {
        if m < places.len() {
            assert(at[m] == places[m]);
        }
    }
    assert forall|a: int, b: int| 0 <= a < b < at.len() implies #[trigger] at[a]
        < #[trigger] at[b] by {
        assert(at[a] == places[a]);
        if b < places.len() {
            assert(at[b] == places[b]);
        }
    }
    if places.contains(i) {
        let m = choose|m: int| 0 <= m < places.len() && places[m] == i;
        assert(places[m] < i);
    }
}

proof fn lemma_pushed(places: Seq<int>, i: int)
    ensures
        forall|k: int|
            #![trigger places.push(i).contains(k)]
            places.push(i).contains(k) <==> places.contains(k) || k == i,
{
    let at = places.push(i);
    assert forall|k: int| #![trigger at.contains(k)] at.contains(k) <==> places.contains(k) || k
        == i by {
        if at.contains(k) && k != i {
            let m = choose|m: int| 0 <= m < at.len() && at[m] == k;
            assert(places[m] == k);
        }
        if places.contains(k) {
            let m = choose|m: int| 0 <= m < places.len() && places[m] == k;
            assert(at[m] == k);
        }
        assert(at[places.len() as int] == i);
    }
}

// ---- WHERE ----------------------------------------------------------------------------------------

/// Whether a condition is true in a scope: neither false nor unknown. Without one it is.
pub open spec fn true_in(filter: Option<ExprV>, c: CtxV, env: EnvV) -> bool {
    filter matches Some(e) ==> (ev(e, c, env) matches Ok(v) && truth(v) == Some(true))
}

proof fn lemma_kept(
    rows: Seq<RowV>,
    s: ScopeV,
    filter: Option<ExprV>,
    env: EnvV,
    i: int,
    acc: Seq<RowV>,
    at: Seq<int>,
) -> (places: Seq<int>)
    requires
        0 <= i <= rows.len(),
        kept_from(rows, s, filter, env, i, acc) is Ok,
        picks(rows, acc, at, i),
        forall|k: int|
            0 <= k < i ==> (#[trigger] at.contains(k) <==> true_in(
                filter,
                in_row(s, rows[k], k),
                env,
            )),
    ensures
        picks(
            rows,
            kept_from(rows, s, filter, env, i, acc)->Ok_0,
            places,
            rows.len() as int,
        ),
        forall|k: int|
            0 <= k < rows.len() ==> (#[trigger] places.contains(k) <==> true_in(
                filter,
                in_row(s, rows[k], k),
                env,
            )),
    decreases rows.len() - i,
{
    if i < rows.len() {
        lemma_picks(rows, acc, at, i);
        if true_in(filter, in_row(s, rows[i], i), env) {
            lemma_kept(rows, s, filter, env, i + 1, acc.push(rows[i]), at.push(i))
        } else {
            lemma_kept(rows, s, filter, env, i + 1, acc, at)
        }
    } else {
        at
    }
}

/// `WHERE` keeps just the rows of which the condition is true, in their order.
pub proof fn law_where(rows: Seq<RowV>, s: ScopeV, filter: Option<ExprV>, env: EnvV) -> (places: Seq<
    int,
>)
    requires
        kept_from(rows, s, filter, env, 0, Seq::empty()) is Ok,
    ensures
        picks(
            rows,
            kept_from(rows, s, filter, env, 0, Seq::empty())->Ok_0,
            places,
            rows.len() as int,
        ),
        forall|k: int|
            0 <= k < rows.len() ==> (#[trigger] places.contains(k) <==> true_in(
                filter,
                in_row(s, rows[k], k),
                env,
            )),
{
    lemma_kept(rows, s, filter, env, 0, Seq::empty(), Seq::empty())
}

// ---- sight ----------------------------------------------------------------------------------------

/// A reader sees what was committed by its snapshot and not deleted by then.
pub proof fn law_readers_see(v: VersionV, s: u64)
    requires
        s < PENDING,
    ensures
        reader_sees(v, s) <==> v.create_lsn <= s && !(0 < v.delete_lsn <= s),
        v.create_lsn == PENDING ==> !reader_sees(v, s),
        v.delete_lsn == PENDING && v.create_lsn <= s ==> reader_sees(v, s),
{
}

/// A writer sees what a reader sees, but for what it wrote itself: its own rows are there
/// and those that it deleted are gone.
pub proof fn law_writers_see(v: VersionV, s: u64, me: u64)
    requires
        s < PENDING,
    ensures
        v.create_lsn != PENDING && v.delete_lsn != PENDING ==> (writer_sees(v, s, me)
            <==> reader_sees(v, s)),
        v.owner != me ==> (writer_sees(v, s, me) <==> reader_sees(v, s)),
        v.owner == me && v.create_lsn == PENDING && v.delete_lsn == 0 ==> writer_sees(v, s, me),
        v.owner == me && v.delete_lsn == PENDING ==> !writer_sees(v, s, me),
{
}

spec fn all_values(rows: Seq<VersionV>) -> Seq<RowV> {
    Seq::new(rows.len(), |k: int| rows[k].values)
}

proof fn lemma_visible(
    rows: Seq<VersionV>,
    snapshot: u64,
    writer: Option<u64>,
    i: int,
    acc: Seq<RowV>,
    at: Seq<int>,
) -> (places: Seq<int>)
    requires
        0 <= i <= rows.len(),
        picks(all_values(rows), acc, at, i),
        forall|k: int|
            0 <= k < i ==> (#[trigger] at.contains(k) <==> sees(rows[k], snapshot, writer)),
    ensures
        picks(
            all_values(rows),
            visible_from(rows, snapshot, writer, i, acc),
            places,
            rows.len() as int,
        ),
        forall|k: int|
            0 <= k < rows.len() ==> (#[trigger] places.contains(k) <==> sees(
                rows[k],
                snapshot,
                writer,
            )),
    decreases rows.len() - i,
{
    if i < rows.len() {
        lemma_picks(all_values(rows), acc, at, i);
        if sees(rows[i], snapshot, writer) {
            lemma_visible(rows, snapshot, writer, i + 1, acc.push(rows[i].values), at.push(i))
        } else {
            lemma_visible(rows, snapshot, writer, i + 1, acc, at)
        }
    } else {
        at
    }
}

/// A table shows the values of just the versions that are in sight, in their order.
pub proof fn law_tables_show_what_is_in_sight(t: TableV, sight: Sight) -> (places: Seq<int>)
    ensures
        seen(t, sight).len() == places.len(),
        forall|m: int|
            0 <= m < places.len() ==> 0 <= #[trigger] places[m] < t.rows.len() && seen(t, sight)[m]
                == t.rows[places[m]].values,
        forall|a: int, b: int|
            0 <= a < b < places.len() ==> #[trigger] places[a] < #[trigger] places[b],
        forall|k: int|
            0 <= k < t.rows.len() ==> (#[trigger] places.contains(k) <==> sees(
                t.rows[k],
                sight.snapshot,
                sight.writer,
            )),
{
    lemma_visible(t.rows, sight.snapshot, sight.writer, 0, Seq::empty(), Seq::empty())
}

proof fn lemma_passing(
    gate: Option<Seq<ExprV>>,
    schema: SchemaV,
    rows: Seq<RowV>,
    env: EnvV,
    i: int,
    acc: Seq<RowV>,
    at: Seq<int>,
) -> (places: Seq<int>)
    requires
        0 <= i <= rows.len(),
        passing_from(gate, schema, rows, env, i, acc) is Ok,
        picks(rows, acc, at, i),
        forall|k: int|
            0 <= k < i ==> (#[trigger] at.contains(k) <==> passes(
                gate,
                schema,
                rows[k],
                k as u64,
                env,
            ) == Ok::<bool, StopV>(true)),
    ensures
        picks(
            rows,
            passing_from(gate, schema, rows, env, i, acc)->Ok_0,
            places,
            rows.len() as int,
        ),
        forall|k: int|
            0 <= k < rows.len() ==> (#[trigger] places.contains(k) <==> passes(
                gate,
                schema,
                rows[k],
                k as u64,
                env,
            ) == Ok::<bool, StopV>(true)),
    decreases rows.len() - i,
{
    if i < rows.len() {
        lemma_picks(rows, acc, at, i);
        if passes(gate, schema, rows[i], i as u64, env) == Ok::<bool, StopV>(true) {
            lemma_passing(gate, schema, rows, env, i + 1, acc.push(rows[i]), at.push(i))
        } else {
            lemma_passing(gate, schema, rows, env, i + 1, acc, at)
        }
    } else {
        at
    }
}

/// Of the rows of a guarded table just those that pass are read, in their order.
pub proof fn law_policies_filter(
    gate: Option<Seq<ExprV>>,
    schema: SchemaV,
    rows: Seq<RowV>,
    env: EnvV,
) -> (places: Seq<int>)
    requires
        passing_from(gate, schema, rows, env, 0, Seq::empty()) is Ok,
    ensures
        picks(
            rows,
            passing_from(gate, schema, rows, env, 0, Seq::empty())->Ok_0,
            places,
            rows.len() as int,
        ),
        forall|k: int|
            0 <= k < rows.len() ==> (#[trigger] places.contains(k) <==> passes(
                gate,
                schema,
                rows[k],
                k as u64,
                env,
            ) == Ok::<bool, StopV>(true)),
{
    lemma_passing(gate, schema, rows, env, 0, Seq::empty(), Seq::empty())
}

// ---- LIMIT and OFFSET -----------------------------------------------------------------------------

/// `LIMIT` keeps the first rows, as many as it says and there are; `OFFSET` drops the
/// first rows. What the one keeps and the other drops is the same, and together they
/// limit what is left after the offset. A count below zero is as zero.
pub proof fn law_limit_and_offset(s: Seq<RowV>, l: i64, o: i64)
    ensures
        window(s, None, None) == s,
        l <= 0 ==> window(s, Some(l), None) == Seq::<RowV>::empty(),
        o <= 0 ==> window(s, None, Some(o)) == s,
        0 <= l <= s.len() ==> window(s, Some(l), None) == s.take(l as int),
        l >= s.len() ==> window(s, Some(l), None) == s,
        0 <= o <= s.len() ==> window(s, None, Some(o)) == s.skip(o as int),
        o >= s.len() ==> window(s, None, Some(o)) == Seq::<RowV>::empty(),
        window(s, Some(l), None) + window(s, None, Some(l)) == s,
        window(s, Some(l), Some(o)) == window(window(s, None, Some(o)), Some(l), None),
{
    assert(window(s, None, None) =~= s);
    assert(l <= 0 ==> window(s, Some(l), None) =~= Seq::<RowV>::empty());
    assert(o <= 0 ==> window(s, None, Some(o)) =~= s);
    assert(0 <= l <= s.len() ==> window(s, Some(l), None) =~= s.take(l as int));
    assert(l >= s.len() ==> window(s, Some(l), None) =~= s);
    assert(0 <= o <= s.len() ==> window(s, None, Some(o)) =~= s.skip(o as int));
    assert(o >= s.len() ==> window(s, None, Some(o)) =~= Seq::<RowV>::empty());
    assert(window(s, Some(l), None) + window(s, None, Some(l)) =~= s);
    assert(window(s, Some(l), Some(o)) =~= window(window(s, None, Some(o)), Some(l), None));
}

/// A count is the integer that its expression is worth; one that is absent or `NULL`
/// does not bound.
pub proof fn law_counts(e: ExprV, env: EnvV)
    ensures
        count_of(None, env) == Ok::<Option<i64>, StopV>(None),
        ev(e, root_ctx(), env) matches Ok(ValueV::Int(n)) ==> count_of(Some(e), env) == Ok::<
            Option<i64>,
            StopV,
        >(Some(n)),
        ev(e, root_ctx(), env) matches Ok(ValueV::Null) ==> count_of(Some(e), env) == Ok::<
            Option<i64>,
            StopV,
        >(None),
{
}

/// A query as it is without `LIMIT` and `OFFSET`.
pub open spec fn unlimited(q: SelectV) -> SelectV {
    SelectV { limit: None, offset: None, ..q }
}

/// What bounds a query takes a window of what it yields without them: after `WHERE`,
/// grouping, `ORDER BY` and `DISTINCT`.
pub proof fn law_limits_come_last(rel: RelationV, c: ClausesV, q: SelectV, env: EnvV)
    requires
        core_over(rel, c, q, true, env) is Ok,
    ensures
        ({
            let all = core_over(rel, c, unlimited(q), true, env);
            let some = core_over(rel, c, q, true, env)->Ok_0;
            &&& all is Ok
            &&& count_of(q.limit, env) is Ok
            &&& count_of(q.offset, env) is Ok
            &&& some.rows == window(
                all->Ok_0.rows,
                count_of(q.limit, env)->Ok_0,
                count_of(q.offset, env)->Ok_0,
            )
            &&& some.columns == all->Ok_0.columns
        }),
{
    let all = core_over(rel, c, unlimited(q), true, env)->Ok_0;
    lemma_whole_windows();
}

/// The bounds of a set operation take a window of what it yields without them.
pub proof fn law_limits_of_set_operations(r: ResultV, q: SelectV, env: EnvV)
    requires
        finished(r, q, env) is Ok,
    ensures
        ({
            let all = finished(r, unlimited(q), env);
            &&& all is Ok
            &&& count_of(q.limit, env) is Ok
            &&& count_of(q.offset, env) is Ok
            &&& finished(r, q, env)->Ok_0.rows == window(
                all->Ok_0.rows,
                count_of(q.limit, env)->Ok_0,
                count_of(q.offset, env)->Ok_0,
            )
        }),
{
    lemma_whole_windows();
}

/// The bounds of a grouped query take a window of the groups that are left.
pub proof fn law_limits_of_groups(q: SelectV, s: ScopeV, rows: Seq<RowV>, env: EnvV)
    requires
        grouped_query(q, s, rows, env) is Ok,
    ensures
        ({
            let all = grouped_query(unlimited(q), s, rows, env);
            &&& all is Ok
            &&& count_of(q.limit, env) is Ok
            &&& count_of(q.offset, env) is Ok
            &&& grouped_query(q, s, rows, env)->Ok_0.rows == window(
                all->Ok_0.rows,
                count_of(q.limit, env)->Ok_0,
                count_of(q.offset, env)->Ok_0,
            )
        }),
{
    lemma_whole_windows();
}

proof fn lemma_whole_windows()
    ensures
        forall|s: Seq<RowV>| #[trigger] window(s, None, None) == s,
{
    assert forall|s: Seq<RowV>| #[trigger] window(s, None, None) == s by {
        assert(window(s, None, None) =~= s);
    }
}

/// `DISTINCT` drops the later of equal rows out of what the query yields without it.
pub proof fn law_distinct_drops_repeats(rel: RelationV, c: ClausesV, q: SelectV, env: EnvV)
    requires
        q.distinct,
        core_over(rel, c, unlimited(q), true, env) is Ok,
    ensures
        ({
            let all = core_over(
                rel,
                c,
                SelectV { distinct: false, ..unlimited(q) },
                true,
                env,
            );
            &&& all is Ok
            &&& core_over(rel, c, unlimited(q), true, env)->Ok_0.rows == distinct_rows(
                all->Ok_0.rows,
            )
        }),
{
    lemma_whole_windows();
}

// ---- the select list ------------------------------------------------------------------------------

/// Whether every item of a select list is an expression.
pub open spec fn plain_items(items: Seq<ItemV>) -> bool {
    forall|k: int| 0 <= k < items.len() ==> (#[trigger] items[k]) is Expr
}

proof fn lemma_projected(
    items: Seq<ItemV>,
    s: ScopeV,
    whole: bool,
    c: CtxV,
    env: EnvV,
    i: int,
    acc: RowV,
)
    requires
        0 <= i <= items.len(),
        plain_items(items),
        acc.len() == i,
        forall|k: int|
            0 <= k < i ==> ev((#[trigger] items[k])->expr, c, env) == Ok::<ValueV, StopV>(acc[k]),
        projected_from(items, s, whole, c, env, i, acc) is Ok,
    ensures
        ({
            let out = projected_from(items, s, whole, c, env, i, acc)->Ok_0;
            &&& out.len() == items.len()
            &&& forall|k: int|
                0 <= k < items.len() ==> ev((#[trigger] items[k])->expr, c, env) == Ok::<
                    ValueV,
                    StopV,
                >(out[k])
        }),
    decreases items.len() - i,
{
    if i < items.len() {
        assert(items[i] is Expr);
        let v = ev(items[i]->expr, c, env)->Ok_0;
        let more = acc.push(v);
        assert forall|k: int| 0 <= k < i + 1 implies ev((#[trigger] items[k])->expr, c, env)
            == Ok::<ValueV, StopV>(more[k]) by {
            if k < i {
                assert(more[k] == acc[k]);
            }
        }
        lemma_projected(items, s, whole, c, env, i + 1, more);
    }
}

/// A select list of expressions gives a cell for each, in the order of the list: what
/// the expression is worth in the scope.
pub proof fn law_select_list(items: Seq<ItemV>, s: ScopeV, whole: bool, c: CtxV, env: EnvV)
    requires
        plain_items(items),
        projected(items, s, whole, c, env) is Ok,
    ensures
        ({
            let out = projected(items, s, whole, c, env)->Ok_0;
            &&& out.len() == items.len()
            &&& forall|k: int|
                0 <= k < items.len() ==> ev((#[trigger] items[k])->expr, c, env) == Ok::<
                    ValueV,
                    StopV,
                >(out[k])
        }),
{
    lemma_projected(items, s, whole, c, env, 0, Seq::empty());
}

proof fn lemma_projected_rows(
    rows: Seq<RowV>,
    items: Seq<ItemV>,
    s: ScopeV,
    env: EnvV,
    i: int,
    acc: Seq<RowV>,
)
    requires
        0 <= i <= rows.len(),
        acc.len() == i,
        forall|k: int|
            0 <= k < i ==> projected(items, s, false, in_row(s, rows[k], k), env) == Ok::<
                RowV,
                StopV,
            >(#[trigger] acc[k]),
        projected_rows_from(rows, items, s, env, i, acc) is Ok,
    ensures
        ({
            let out = projected_rows_from(rows, items, s, env, i, acc)->Ok_0;
            &&& out.len() == rows.len()
            &&& forall|k: int|
                0 <= k < rows.len() ==> projected(items, s, false, in_row(s, rows[k], k), env)
                    == Ok::<RowV, StopV>(#[trigger] out[k])
        }),
    decreases rows.len() - i,
{
    if i < rows.len() {
        let r = projected(items, s, false, in_row(s, rows[i], i), env)->Ok_0;
        let more = acc.push(r);
        assert forall|k: int| 0 <= k < i + 1 implies projected(
            items,
            s,
            false,
            in_row(s, rows[k], k),
            env,
        ) == Ok::<RowV, StopV>(#[trigger] more[k]) by {
            if k < i {
                assert(more[k] == acc[k]);
            }
        }
        lemma_projected_rows(rows, items, s, env, i + 1, more);
    }
}

/// A projection gives a row for each row, in their order.
pub proof fn law_projection(items: Seq<ItemV>, s: ScopeV, rows: Seq<RowV>, env: EnvV)
    requires
        projection(items, s, rows, env) is Ok,
    ensures
        ({
            let out = projection(items, s, rows, env)->Ok_0.rows;
            &&& out.len() == rows.len()
            &&& forall|k: int|
                0 <= k < rows.len() ==> projected(items, s, false, in_row(s, rows[k], k), env)
                    == Ok::<RowV, StopV>(#[trigger] out[k])
        }),
{
    lemma_projected_rows(rows, items, s, env, 0, Seq::empty());
}

/// A query over a table without groups gives, for each row of the window, what the
/// select list makes of it; the window is over the rows that `WHERE` keeps, put in the
/// order that the keys ask for.
pub proof fn law_query_row_by_row(q: SelectV, s: ScopeV, all: Seq<RowV>, env: EnvV) -> (r: (
    Seq<int>,
    Seq<int>,
))
    requires
        !aggregated(q.items, q.group_by, q.having),
        rows_query(q, s, all, env) is Ok,
    ensures
        ({
            let (kept, order) = r;
            let rows = Seq::new(kept.len(), |m: int| all[kept[m]]);
            let out = rows_query(q, s, all, env)->Ok_0.rows;
            let lim = count_of(q.limit, env)->Ok_0;
            let off = count_of(q.offset, env)->Ok_0;
            let n = kept.len();
            let keys = dealiased_keys(q.items, q.order_by);
            &&& picks(all, rows, kept, all.len() as int)
            &&& forall|k: int|
                0 <= k < all.len() ==> (#[trigger] kept.contains(k) <==> true_in(
                    q.filter,
                    in_row(s, all[k], k),
                    env,
                ))
            &&& permutes(order, n as int)
            &&& q.order_by.len() == 0 ==> order == Seq::new(n, |m: int| m)
            &&& q.order_by.len() > 0 ==> sorted_places(
                by_keys(row_ctxs(rows, s), keys, within(env, IN_ORDER, 0)),
                n as int,
            ) == Ok::<Seq<int>, StopV>(order)
            &&& count_of(q.limit, env) is Ok
            &&& count_of(q.offset, env) is Ok
            &&& out.len() == window_end(n, lim, off) - window_start(n, off)
            &&& forall|m: int|
                0 <= m < out.len() ==> projected(
                    q.items,
                    s,
                    false,
                    in_row(s, rows[order[window_start(n, off) + m]], m),
                    env,
                ) == Ok::<RowV, StopV>(#[trigger] out[m])
        }),
{
    let kept = law_where(all, s, q.filter, env);
    let rows = kept_from(all, s, q.filter, env, 0, Seq::empty())->Ok_0;
    assert(Seq::new(kept.len(), |m: int| all[kept[m]]) =~= rows);
    let keys = dealiased_keys(q.items, q.order_by);
    let n = kept.len();
    let f = by_keys(row_ctxs(rows, s), keys, within(env, IN_ORDER, 0));
    law_sort_permutes(f, n as int);
    let order = if keys.len() == 0 {
        Seq::new(n, |m: int| m)
    } else {
        sorted_places(f, n as int)->Ok_0
    };
    if keys.len() == 0 {
        assert(picked(rows, order) =~= rows);
        assert(permutes(order, n as int)) by {
            assert forall|k: int| 0 <= k < n implies #[trigger] order.contains(k) by {
                assert(order[k] == k);
            }
        }
    }
    let sorted = picked(rows, order);
    assert(ordered_rows(rows, keys, s, env) == Ok::<Seq<RowV>, StopV>(sorted));
    let lim = count_of(q.limit, env)->Ok_0;
    let off = count_of(q.offset, env)->Ok_0;
    let w = window(sorted, lim, off);
    law_projection(q.items, s, w, env);
    let out = rows_query(q, s, all, env)->Ok_0.rows;
    assert forall|m: int| 0 <= m < out.len() implies projected(
        q.items,
        s,
        false,
        in_row(s, rows[order[window_start(n, off) + m]], m),
        env,
    ) == Ok::<RowV, StopV>(#[trigger] out[m]) by {
        assert(w[m] == sorted[window_start(n, off) + m]);
    }
    (kept, order)
}

// ---- groups ---------------------------------------------------------------------------------------

/// What stands for the values of the grouping expressions in row `k`.
pub open spec fn group_key(rows: Seq<RowV>, s: ScopeV, by: Seq<ExprV>, env: EnvV, k: int) -> Seq<
    char,
> {
    row_key(ev_list(by, 0, Seq::empty(), in_row(s, rows[k], k), env)->Ok_0)
}

/// The rows with a key among the first `n`, in their order.
pub open spec fn keyed(
    rows: Seq<RowV>,
    s: ScopeV,
    by: Seq<ExprV>,
    env: EnvV,
    key: Seq<char>,
    n: int,
) -> Seq<RowV>
    decreases n,
{
    if n <= 0 {
        Seq::empty()
    } else if group_key(rows, s, by, env, n - 1) == key {
        keyed(rows, s, by, env, key, n - 1).push(rows[n - 1])
    } else {
        keyed(rows, s, by, env, key, n - 1)
    }
}

/// Whether groups are those of the first `n` rows.
pub open spec fn groups_keyed(
    gs: Seq<GroupV>,
    rows: Seq<RowV>,
    s: ScopeV,
    by: Seq<ExprV>,
    env: EnvV,
    n: int,
) -> bool {
    &&& forall|g: int|
        0 <= g < gs.len() ==> (#[trigger] gs[g]).rows == keyed(rows, s, by, env, gs[g].key, n)
    &&& forall|a: int, b: int|
        0 <= a < b < gs.len() ==> (#[trigger] gs[a]).key != (#[trigger] gs[b]).key
    &&& forall|k: int|
        0 <= k < n ==> has_key(gs, #[trigger] group_key(rows, s, by, env, k))
}

pub open spec fn has_key(gs: Seq<GroupV>, key: Seq<char>) -> bool {
    exists|g: int| 0 <= g < gs.len() && (#[trigger] gs[g]).key == key
}

proof fn lemma_none_keyed(
    rows: Seq<RowV>,
    s: ScopeV,
    by: Seq<ExprV>,
    env: EnvV,
    key: Seq<char>,
    n: int,
)
    requires
        0 <= n,
        forall|k: int| 0 <= k < n ==> #[trigger] group_key(rows, s, by, env, k) != key,
    ensures
        keyed(rows, s, by, env, key, n) == Seq::<RowV>::empty(),
    decreases n,
{
    if n > 0 {
        assert(group_key(rows, s, by, env, n - 1) != key);
        lemma_none_keyed(rows, s, by, env, key, n - 1);
    }
}

proof fn lemma_groups_keyed(
    rows: Seq<RowV>,
    s: ScopeV,
    by: Seq<ExprV>,
    env: EnvV,
    i: int,
    acc: Seq<GroupV>,
)
    requires
        0 <= i <= rows.len(),
        grouped_from(rows, s, by, env, i, acc) is Ok,
        groups_keyed(acc, rows, s, by, env, i),
    ensures
        groups_keyed(
            grouped_from(rows, s, by, env, i, acc)->Ok_0,
            rows,
            s,
            by,
            env,
            rows.len() as int,
        ),
    decreases rows.len() - i,
{
    if i < rows.len() {
        let key = group_key(rows, s, by, env, i);
        let next = with_row(acc, key, rows[i]);
        lemma_group_at(acc, key, 0);
        match group_at(acc, key, 0) {
            Some(g) => {
                assert(next[g].key == key);
                assert forall|k: int| 0 <= k < i + 1 implies has_key(
                    next,
                    #[trigger] group_key(rows, s, by, env, k),
                ) by {
                    if k < i {
                        assert(has_key(acc, group_key(rows, s, by, env, k)));
                        let h = choose|h: int|
                            0 <= h < acc.len() && (#[trigger] acc[h]).key == group_key(
                                rows,
                                s,
                                by,
                                env,
                                k,
                            );
                        assert(next[h].key == acc[h].key);
                    }
                }
                assert forall|h: int| 0 <= h < next.len() implies (#[trigger] next[h]).rows
                    == keyed(rows, s, by, env, next[h].key, i + 1) by {
                    assert(acc[h].rows == keyed(rows, s, by, env, acc[h].key, i));
                    if h != g {
                        assert(acc[h].key != acc[g].key);
                    }
                }
            },
            None => {
                assert forall|k: int| 0 <= k < i implies #[trigger] group_key(rows, s, by, env, k)
                    != key by {
                    assert(has_key(acc, group_key(rows, s, by, env, k)));
                }
                lemma_none_keyed(rows, s, by, env, key, i);
                assert forall|k: int| 0 <= k < i + 1 implies has_key(
                    next,
                    #[trigger] group_key(rows, s, by, env, k),
                ) by {
                    if k < i {
                        assert(has_key(acc, group_key(rows, s, by, env, k)));
                        let h = choose|h: int|
                            0 <= h < acc.len() && (#[trigger] acc[h]).key == group_key(
                                rows,
                                s,
                                by,
                                env,
                                k,
                            );
                        assert(next[h] == acc[h]);
                    } else {
                        assert(next[acc.len() as int].key == key);
                    }
                }
                assert forall|h: int| 0 <= h < next.len() implies (#[trigger] next[h]).rows
                    == keyed(rows, s, by, env, next[h].key, i + 1) by {
                    if h < acc.len() {
                        assert(next[h] == acc[h]);
                        assert(acc[h].rows == keyed(rows, s, by, env, acc[h].key, i));
                    } else {
                        assert(seq![rows[i]] =~= Seq::<RowV>::empty().push(rows[i]));
                    }
                }
            },
        }
        lemma_groups_keyed(rows, s, by, env, i + 1, next);
    }
}

/// A group holds just the rows whose grouping expressions are worth what stands for it,
/// in their order; no two groups are for the same values, and every row has one.
pub proof fn law_groups_share_their_key(
    rows: Seq<RowV>,
    s: ScopeV,
    by: Seq<ExprV>,
    env: EnvV,
)
    requires
        rows.len() > 0 || by.len() > 0,
        groups_of(rows, s, by, env) is Ok,
    ensures
        groups_keyed(groups_of(rows, s, by, env)->Ok_0, rows, s, by, env, rows.len() as int),
{
    lemma_groups_keyed(rows, s, by, env, 0, Seq::empty());
    let gs = grouped_from(rows, s, by, env, 0, Seq::empty())->Ok_0;
    if rows.len() > 0 {
        assert(has_key(gs, group_key(rows, s, by, env, 0)));
    }
}

/// Without `GROUP BY` an aggregate over no rows is still over one group, which is empty.
pub proof fn law_one_group_over_nothing(s: ScopeV, env: EnvV)
    ensures
        groups_of(Seq::empty(), s, Seq::empty(), env) matches Ok(gs) && gs.len() == 1
            && gs[0].rows.len() == 0,
{
}

/// Whether an entry is what a select list makes of group `g`.
pub open spec fn is_entry(
    gs: Seq<GroupV>,
    items: Seq<ItemV>,
    s: ScopeV,
    whole: bool,
    env: EnvV,
    g: int,
    e: EntryV,
) -> bool {
    &&& e.rows == gs[g].rows
    &&& projected(items, s, whole, in_group(s, gs[g].rows, g), env) == Ok::<RowV, StopV>(e.out)
}

proof fn lemma_entries(
    gs: Seq<GroupV>,
    items: Seq<ItemV>,
    having: Option<ExprV>,
    s: ScopeV,
    whole: bool,
    env: EnvV,
    i: int,
    acc: Seq<EntryV>,
    at: Seq<int>,
) -> (places: Seq<int>)
    requires
        0 <= i <= gs.len(),
        at.len() == acc.len(),
        entries_from(gs, items, having, s, whole, env, i, acc) is Ok,
        forall|m: int|
            0 <= m < at.len() ==> 0 <= #[trigger] at[m] < i && is_entry(
                gs,
                items,
                s,
                whole,
                env,
                at[m],
                acc[m],
            ),
        forall|a: int, b: int| 0 <= a < b < at.len() ==> #[trigger] at[a] < #[trigger] at[b],
        forall|g: int|
            0 <= g < i ==> (#[trigger] at.contains(g) <==> true_in(
                having,
                in_group(s, gs[g].rows, g),
                env,
            )),
    ensures
        ({
            let es = entries_from(gs, items, having, s, whole, env, i, acc)->Ok_0;
            &&& places.len() == es.len()
            &&& forall|m: int|
                0 <= m < places.len() ==> 0 <= #[trigger] places[m] < gs.len() && is_entry(
                    gs,
                    items,
                    s,
                    whole,
                    env,
                    places[m],
                    es[m],
                )
            &&& forall|a: int, b: int|
                0 <= a < b < places.len() ==> #[trigger] places[a] < #[trigger] places[b]
            &&& forall|g: int|
                0 <= g < gs.len() ==> (#[trigger] places.contains(g) <==> true_in(
                    having,
                    in_group(s, gs[g].rows, g),
                    env,
                ))
        }),
    decreases gs.len() - i,
{
    if i < gs.len() {
        lemma_pushed(at, i);
        if at.contains(i) {
            let m = choose|m: int| 0 <= m < at.len() && at[m] == i;
            assert(at[m] < i);
        }
        if true_in(having, in_group(s, gs[i].rows, i), env) {
            let out = projected(items, s, whole, in_group(s, gs[i].rows, i), env)->Ok_0;
            let more = acc.push(EntryV { out, rows: gs[i].rows });
            let next = at.push(i);
            assert forall|m: int| 0 <= m < next.len() implies 0 <= #[trigger] next[m] < i + 1
                && is_entry(gs, items, s, whole, env, next[m], more[m]) by {
                if m < at.len() {
                    assert(next[m] == at[m] && more[m] == acc[m]);
                }
            }
            assert forall|a: int, b: int| 0 <= a < b < next.len() implies #[trigger] next[a]
                < #[trigger] next[b] by {
                assert(next[a] == at[a]);
                if b < at.len() {
                    assert(next[b] == at[b]);
                }
            }
            lemma_entries(gs, items, having, s, whole, env, i + 1, more, next)
        } else {
            lemma_entries(gs, items, having, s, whole, env, i + 1, acc, at)
        }
    } else {
        at
    }
}

/// `HAVING` keeps just the groups of which the condition is true, in their order; each
/// gives what the select list makes of it.
pub proof fn law_having(
    gs: Seq<GroupV>,
    items: Seq<ItemV>,
    having: Option<ExprV>,
    s: ScopeV,
    whole: bool,
    env: EnvV,
) -> (places: Seq<int>)
    requires
        entries_from(gs, items, having, s, whole, env, 0, Seq::empty()) is Ok,
    ensures
        ({
            let es = entries_from(gs, items, having, s, whole, env, 0, Seq::empty())->Ok_0;
            &&& places.len() == es.len()
            &&& forall|m: int|
                0 <= m < places.len() ==> 0 <= #[trigger] places[m] < gs.len() && is_entry(
                    gs,
                    items,
                    s,
                    whole,
                    env,
                    places[m],
                    es[m],
                )
            &&& forall|a: int, b: int|
                0 <= a < b < places.len() ==> #[trigger] places[a] < #[trigger] places[b]
            &&& forall|g: int|
                0 <= g < gs.len() ==> (#[trigger] places.contains(g) <==> true_in(
                    having,
                    in_group(s, gs[g].rows, g),
                    env,
                ))
        }),
{
    lemma_entries(gs, items, having, s, whole, env, 0, Seq::empty(), Seq::empty())
}

// ---- nearest rows ---------------------------------------------------------------------------------

/// A search over an index asks for no fewer rows than the query wants, unless the index
/// holds fewer; then it asks for all of them.
pub proof fn law_enough_is_fetched(limit: i64, ef: u64, held: u64)
    requires
        0 <= limit,
    ensures
        fetch_count(limit, ef, held) <= held,
        fetch_count(limit, ef, held) < held ==> fetch_count(limit, ef, held) >= limit
            * KNN_OVERFETCH && fetch_count(limit, ef, held) >= ef,
{
}

/// Whether row `k` of a table is what a hit is for, and may be given.
pub open spec fn is_hit(
    ids: Seq<u64>,
    t: TableV,
    sight: Sight,
    filter: Option<ExprV>,
    s: ScopeV,
    env: EnvV,
    i: int,
) -> bool {
    &&& version_pos(t.rows, ids[i], 0) is Some
    &&& {
        let v = t.rows[version_pos(t.rows, ids[i], 0)->0];
        sees(v, sight.snapshot, sight.writer) && true_in(filter, in_row(s, v.values, i), env)
    }
}

spec fn hit_row(ids: Seq<u64>, t: TableV, i: int) -> RowV {
    t.rows[version_pos(t.rows, ids[i], 0)->0].values
}

spec fn hit_rows(ids: Seq<u64>, t: TableV) -> Seq<RowV> {
    Seq::new(ids.len(), |i: int| hit_row(ids, t, i))
}

proof fn lemma_hits(
    ids: Seq<u64>,
    t: TableV,
    sight: Sight,
    filter: Option<ExprV>,
    s: ScopeV,
    env: EnvV,
    limit: int,
    i: int,
    acc: Seq<RowV>,
    at: Seq<int>,
) -> (r: (Seq<int>, int))
    requires
        0 <= i <= ids.len(),
        acc.len() <= limit,
        hits_from(ids, t, sight, filter, s, env, limit, i, acc) is Ok,
        picks(hit_rows(ids, t), acc, at, i),
        forall|k: int|
            0 <= k < i ==> (#[trigger] at.contains(k) <==> is_hit(
                ids,
                t,
                sight,
                filter,
                s,
                env,
                k,
            )),
    ensures
        ({
            let out = hits_from(ids, t, sight, filter, s, env, limit, i, acc)->Ok_0;
            let (places, n) = r;
            &&& 0 <= n <= ids.len()
            &&& out.len() <= limit
            &&& out.len() < limit ==> n == ids.len()
            &&& picks(hit_rows(ids, t), out, places, n)
            &&& forall|k: int|
                0 <= k < n ==> (#[trigger] places.contains(k) <==> is_hit(
                    ids,
                    t,
                    sight,
                    filter,
                    s,
                    env,
                    k,
                ))
        }),
    decreases ids.len() - i,
{
    if i < ids.len() && acc.len() < limit {
        lemma_picks(hit_rows(ids, t), acc, at, i);
        if is_hit(ids, t, sight, filter, s, env, i) {
            lemma_hits(
                ids,
                t,
                sight,
                filter,
                s,
                env,
                limit,
                i + 1,
                acc.push(hit_row(ids, t, i)),
                at.push(i),
            )
        } else {
            lemma_hits(ids, t, sight, filter, s, env, limit, i + 1, acc, at)
        }
    } else {
        (at, i)
    }
}

/// What an index finds is given in the order in which it was found, as far as it is in
/// sight and the condition is true of it, until there are as many rows as are wanted.
pub proof fn law_hits_are_kept(
    ids: Seq<u64>,
    t: TableV,
    sight: Sight,
    filter: Option<ExprV>,
    s: ScopeV,
    env: EnvV,
    limit: int,
) -> (r: (Seq<int>, int))
    requires
        0 <= limit,
        hits_from(ids, t, sight, filter, s, env, limit, 0, Seq::empty()) is Ok,
    ensures
        ({
            let out = hits_from(ids, t, sight, filter, s, env, limit, 0, Seq::empty())->Ok_0;
            let (places, n) = r;
            &&& out.len() == places.len() <= limit
            &&& 0 <= n <= ids.len()
            &&& out.len() < limit ==> n == ids.len()
            &&& forall|m: int|
                0 <= m < places.len() ==> 0 <= #[trigger] places[m] < n && out[m]
                    == t.rows[version_pos(t.rows, ids[places[m]], 0)->0].values
            &&& forall|a: int, b: int|
                0 <= a < b < places.len() ==> #[trigger] places[a] < #[trigger] places[b]
            &&& forall|k: int|
                0 <= k < n ==> (#[trigger] places.contains(k) <==> is_hit(
                    ids,
                    t,
                    sight,
                    filter,
                    s,
                    env,
                    k,
                ))
        }),
{
    lemma_hits(ids, t, sight, filter, s, env, limit, 0, Seq::empty(), Seq::empty())
}

} // verus!
