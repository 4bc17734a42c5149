//! Queries depend on what their sight shows and policies let them read, and on nothing
//! else in the store.
use vstd::prelude::*;
use crate::asks::StopV;
use crate::catalog::{PolicyCommand, SchemaV};
use crate::env::EnvV;
use crate::mvcc::{committed, finalized, finalized_rows};
use crate::policy::{enforced, gate_of, passes, passing_from, readable};
use crate::query::ResultV;
use crate::relational::{CteRelV, WorldV};
use crate::runner::{
    arms_from, core_of, ctes_from, folded, folded_box, folded_items, folded_list, folded_opt,
    folded_whens, query_of, selected, source_of, used_at,
};
use crate::scope::ScopeV;
use crate::select::{hits_from, near_rows, seen, table_query, visible_from, Sight};
use crate::sparelaws::spares_others;
use crate::sql::{AggArgV, CteV, ExprV, FromV, ItemV, SelectV, SetOpV};
use crate::store::{
    lemma_name_pos, name_pos, sees, table_named, table_names, table_pos, version_pos, view_names,
    PENDING, StoreV, TableV, VersionV,
};
use crate::value::RowV;
use crate::writelaws::{alive, grown, written_over};
use crate::writes::stamped;

verus! {

// ---- what a sight shows ---------------------------------------------------------------------------

/// The rows of `b` are those of `a` as far as a sight goes: the same versions, shown
/// or not alike, and behind them none that it shows.
pub open spec fn shows_same(a: Seq<VersionV>, b: Seq<VersionV>, sight: Sight) -> bool {
    &&& a.len() <= b.len()
    &&& forall|i: int|
        0 <= i < a.len() ==> (#[trigger] b[i]).vid == a[i].vid && b[i].values == a[i].values && sees(
            b[i],
            sight.snapshot,
            sight.writer,
        ) == sees(a[i], sight.snapshot, sight.writer)
    &&& forall|i: int|
        a.len() <= i < b.len() ==> !sees(#[trigger] b[i], sight.snapshot, sight.writer)
}

/// Two stores with the same tables, views and indexes, whose rows a sight shows alike.
pub open spec fn same_sight(a: StoreV, b: StoreV, sight: Sight) -> bool {
    &&& a.views == b.views
    &&& a.indexes == b.indexes
    &&& a.tables.len() == b.tables.len()
    &&& forall|i: int|
        0 <= i < a.tables.len() ==> (#[trigger] b.tables[i]).schema == a.tables[i].schema
            && shows_same(a.tables[i].rows, b.tables[i].rows, sight)
}

pub open spec fn same_world(v: WorldV, w: WorldV) -> bool {
    v.sight == w.sight && v.env == w.env && same_sight(v.store, w.store, v.sight)
}

/// The environment at a place of the statement.
pub open spec fn placed(env: EnvV, place: Seq<u64>) -> EnvV {
    EnvV { place, ..env }
}

/// The rows of a table may be read alike: a sight shows the same, or the policies bind
/// the principal and let it read the same rows, wherever in the statement it does.
pub open spec fn reads_same(a: TableV, b: TableV, sight: Sight, env: EnvV) -> bool {
    ||| shows_same(a.rows, b.rows, sight)
    ||| enforced(a.schema, env) && forall|place: Seq<u64>|
        readable(a.schema, seen(a, sight), #[trigger] placed(env, place)) == readable(
            a.schema,
            seen(b, sight),
            placed(env, place),
        )
}

/// Two worlds with the same tables, views and indexes that agree in all but what the
/// principal may not read.
pub open spec fn same_reading(v: WorldV, w: WorldV) -> bool {
    &&& v.sight == w.sight
    &&& v.env == w.env
    &&& v.store.views == w.store.views
    &&& v.store.indexes == w.store.indexes
    &&& v.store.tables.len() == w.store.tables.len()
    &&& forall|i: int|
        0 <= i < v.store.tables.len() ==> (#[trigger] w.store.tables[i]).schema
            == v.store.tables[i].schema && reads_same(
            v.store.tables[i],
            w.store.tables[i],
            v.sight,
            v.env,
        )
}

proof fn lemma_visible(a: Seq<VersionV>, b: Seq<VersionV>, sight: Sight, i: int, acc: Seq<RowV>)
    requires
        0 <= i,
        shows_same(a, b, sight),
    ensures
        visible_from(a, sight.snapshot, sight.writer, i, acc) == visible_from(
            b,
            sight.snapshot,
            sight.writer,
            i,
            acc,
        ),
    decreases b.len() - i,
{
    if i < b.len() {
        if i < a.len() {
            assert(b[i].values == a[i].values);
            if sees(a[i], sight.snapshot, sight.writer) {
                lemma_visible(a, b, sight, i + 1, acc.push(a[i].values));
            } else {
                lemma_visible(a, b, sight, i + 1, acc);
            }
        } else {
            assert(!sees(b[i], sight.snapshot, sight.writer));
            lemma_visible(a, b, sight, i + 1, acc);
        }
    }
}

proof fn lemma_version_alike(a: Seq<VersionV>, b: Seq<VersionV>, sight: Sight, vid: u64, i: int)
    requires
        0 <= i,
        shows_same(a, b, sight),
    ensures
        match (version_pos(a, vid, i), version_pos(b, vid, i)) {
            (Some(x), Some(y)) => x == y && i <= x < a.len(),
            (None, Some(y)) => a.len() <= y < b.len(),
            (None, None) => true,
            (Some(_), None) => false,
        },
    decreases b.len() - i,
{
    if i < b.len() {
        if i < a.len() {
            assert(b[i].vid == a[i].vid);
        }
        lemma_version_alike(a, b, sight, vid, i + 1);
    }
}

proof fn lemma_hits(
    ids: Seq<u64>,
    s: TableV,
    t: TableV,
    sight: Sight,
    filter: Option<ExprV>,
    c: ScopeV,
    env: EnvV,
    limit: int,
    i: int,
    acc: Seq<RowV>,
)
    requires
        0 <= i,
        shows_same(s.rows, t.rows, sight),
    ensures
        hits_from(ids, s, sight, filter, c, env, limit, i, acc) == hits_from(
            ids,
            t,
            sight,
            filter,
            c,
            env,
            limit,
            i,
            acc,
        ),
    decreases ids.len() - i,
{
    if i < ids.len() && acc.len() < limit {
        lemma_version_alike(s.rows, t.rows, sight, ids[i], 0);
        lemma_hits(ids, s, t, sight, filter, c, env, limit, i + 1, acc);
        match version_pos(t.rows, ids[i], 0) {
            None => {},
            Some(k) => {
                if k < s.rows.len() {
                    assert(t.rows[k].values == s.rows[k].values);
                    lemma_hits(
                        ids,
                        s,
                        t,
                        sight,
                        filter,
                        c,
                        env,
                        limit,
                        i + 1,
                        acc.push(t.rows[k].values),
                    );
                } else {
                    assert(!sees(t.rows[k], sight.snapshot, sight.writer));
                }
            },
        }
    }
}

/// What may be read alike may be read alike inside a view.
proof fn lemma_used_alike(v: WorldV, w: WorldV, at: u64)
    requires
        same_reading(v, w),
    ensures
        same_reading(used_at(v, at), used_at(w, at)),
{
    let (x, y) = (used_at(v, at), used_at(w, at));
    assert forall|i: int| 0 <= i < x.store.tables.len() implies (
    #[trigger] y.store.tables[i]).schema == x.store.tables[i].schema && reads_same(
        x.store.tables[i],
        y.store.tables[i],
        x.sight,
        x.env,
    ) by {
        let (a, b) = (v.store.tables[i], w.store.tables[i]);
        assert(b.schema == a.schema && reads_same(a, b, v.sight, v.env));
        assert forall|place: Seq<u64>| #[trigger] placed(x.env, place) == placed(v.env, place) by {}
    }
}

proof fn lemma_table_named(v: WorldV, w: WorldV, name: Seq<char>)
    requires
        same_reading(v, w),
    ensures
        match (table_named(v.store, name), table_named(w.store, name)) {
            (Some(s), Some(t)) => s.schema == t.schema && reads_same(s, t, v.sight, v.env)
                && readable(s.schema, seen(s, v.sight), v.env) == readable(
                t.schema,
                seen(t, v.sight),
                v.env,
            ),
            (None, None) => true,
            _ => false,
        },
{
    let (a, b) = (v.store, w.store);
    assert(table_names(a.tables) =~= table_names(b.tables)) by {
        assert forall|i: int| 0 <= i < a.tables.len() implies table_names(a.tables)[i]
            == table_names(b.tables)[i] by {
            assert(b.tables[i].schema == a.tables[i].schema);
        }
    }
    match table_pos(a, name) {
        None => {},
        Some(i) => {
            lemma_name_pos(table_names(a.tables), name, 0);
            assert(b.tables[i].schema == a.tables[i].schema);
            assert(placed(v.env, v.env.place) == v.env);
            if shows_same(a.tables[i].rows, b.tables[i].rows, v.sight) {
                lemma_visible(a.tables[i].rows, b.tables[i].rows, v.sight, 0, Seq::empty());
            }
        },
    }
}

proof fn lemma_table_query(v: WorldV, w: WorldV, q: SelectV, name: Seq<char>)
    requires
        same_reading(v, w),
    ensures
        table_query(v.store, q, name, v.sight, v.env) == table_query(
            w.store,
            q,
            name,
            v.sight,
            v.env,
        ),
{
    let (sight, env) = (v.sight, v.env);
    lemma_table_named(v, w, name);
    match (table_named(v.store, name), table_named(w.store, name)) {
        (Some(s), Some(t)) => {
            if shows_same(s.rows, t.rows, sight) {
                assert forall|ids: Seq<u64>, c: ScopeV, limit: int| #[trigger]
                    hits_from(ids, s, sight, q.filter, c, env, limit, 0, Seq::empty()) == hits_from(
                        ids,
                        t,
                        sight,
                        q.filter,
                        c,
                        env,
                        limit,
                        0,
                        Seq::empty(),
                    ) by {
                    lemma_hits(ids, s, t, sight, q.filter, c, env, limit, 0, Seq::empty());
                }
            }
            assert(near_rows(v.store, q, name, s, sight, env) == near_rows(
                w.store,
                q,
                name,
                t,
                sight,
                env,
            ));
        },
        _ => {},
    }
}

// ---- queries --------------------------------------------------------------------------------------

proof fn lemma_query(v: WorldV, w: WorldV, d: nat, q: SelectV)
    requires
        same_reading(v, w),
    ensures
        query_of(v, d, q) == query_of(w, d, q),
    decreases d, q, 1int,
{
    lemma_ctes(v, w, d, q.with, 0, Seq::empty());
    match ctes_from(w, d, q.with, 0, Seq::empty()) {
        Err(_) => {},
        Ok(ctes) => {
            lemma_core(v, w, d, q, ctes, true);
            lemma_core(v, w, d, q, ctes, false);
            match core_of(w, d, q, ctes, false) {
                Err(_) => {},
                Ok(first) => {
                    lemma_arms(v, w, d, q.set_ops, ctes, 0, first);
                },
            }
        },
    }
}

proof fn lemma_ctes(v: WorldV, w: WorldV, d: nat, with: Seq<CteV>, i: int, acc: Seq<CteRelV>)
    requires
        0 <= i,
        same_reading(v, w),
    ensures
        ctes_from(v, d, with, i, acc) == ctes_from(w, d, with, i, acc),
    decreases d, with, with.len() - i,
{
    if i < with.len() {
        lemma_query(v, w, d, *with[i].query);
        match query_of(w, d, *with[i].query) {
            Err(_) => {},
            Ok(r) => {
                lemma_ctes(
                    v,
                    w,
                    d,
                    with,
                    i + 1,
                    acc.push(
                        CteRelV {
                            name: with[i].name,
                            rel: crate::relational::as_relation(with[i].name, r),
                        },
                    ),
                );
            },
        }
    }
}

proof fn lemma_arms(
    v: WorldV,
    w: WorldV,
    d: nat,
    arms: Seq<SetOpV>,
    ctes: Seq<CteRelV>,
    i: int,
    acc: ResultV,
)
    requires
        0 <= i,
        same_reading(v, w),
    ensures
        arms_from(v, d, arms, ctes, i, acc) == arms_from(w, d, arms, ctes, i, acc),
    decreases d, arms, arms.len() - i,
{
    if i < arms.len() {
        lemma_core(v, w, d, *arms[i].query, ctes, true);
        match core_of(w, d, *arms[i].query, ctes, true) {
            Err(_) => {},
            Ok(r) => match crate::relation::combined(acc, r, arms[i].op, arms[i].all) {
                Err(_) => {},
                Ok(next) => {
                    lemma_arms(v, w, d, arms, ctes, i + 1, next);
                },
            },
        }
    }
}

proof fn lemma_core(v: WorldV, w: WorldV, d: nat, q: SelectV, ctes: Seq<CteRelV>, tail: bool)
    requires
        same_reading(v, w),
    ensures
        core_of(v, d, q, ctes, tail) == core_of(w, d, q, ctes, tail),
    decreases d, q, 0int,
{
    match q.from {
        None => {},
        Some(f) => {
            lemma_source(v, w, d, f, ctes);
        },
    }
    lemma_opt(v, w, d, q.filter);
    lemma_items(v, w, d, q.items, 0, Seq::empty());
    lemma_list(v, w, d, q.group_by, 0, Seq::empty());
    lemma_opt(v, w, d, q.having);
}

proof fn lemma_source(v: WorldV, w: WorldV, d: nat, f: FromV, ctes: Seq<CteRelV>)
    requires
        same_reading(v, w),
    ensures
        source_of(v, d, f, ctes) == source_of(w, d, f, ctes),
    decreases d, f, 0int,
{
    match f {
        FromV::Table { name, alias, at } => {
            lemma_table_named(v, w, name);
            lemma_used_alike(v, w, at);
            match name_pos(view_names(w.store.views), name, 0) {
                None => {},
                Some(k) => {
                    if d > 0 {
                        lemma_query(
                            used_at(v, at),
                            used_at(w, at),
                            (d - 1) as nat,
                            w.store.views[k].query,
                        );
                    }
                },
            }
        },
        FromV::Derived { query, .. } => {
            lemma_query(v, w, d, *query);
        },
        FromV::Join { left, right, .. } => {
            lemma_source(v, w, d, *left, ctes);
            lemma_source(v, w, d, *right, ctes);
        },
    }
}

proof fn lemma_folded(v: WorldV, w: WorldV, d: nat, e: ExprV)
    requires
        same_reading(v, w),
    ensures
        folded(v, d, e) == folded(w, d, e),
    decreases d, e, 0int,
{
    match e {
        ExprV::ScalarSubquery(q) => {
            lemma_query(v, w, d, *q);
        },
        ExprV::Exists { query, .. } => {
            lemma_query(v, w, d, *query);
        },
        ExprV::InSubquery { e, query, .. } => {
            lemma_query(v, w, d, *query);
            lemma_folded(v, w, d, *e);
        },
        ExprV::Binary { l, r, .. } => {
            lemma_folded(v, w, d, *l);
            lemma_folded(v, w, d, *r);
        },
        ExprV::Unary { e, .. } => {
            lemma_folded(v, w, d, *e);
        },
        ExprV::IsNull { e, .. } => {
            lemma_folded(v, w, d, *e);
        },
        ExprV::Cast { e, .. } => {
            lemma_folded(v, w, d, *e);
        },
        ExprV::Like { e, pattern, escape, .. } => {
            lemma_folded(v, w, d, *e);
            lemma_folded(v, w, d, *pattern);
            lemma_box(v, w, d, escape);
        },
        ExprV::InList { e, list, .. } => {
            lemma_folded(v, w, d, *e);
            lemma_list(v, w, d, list, 0, Seq::empty());
        },
        ExprV::Between { e, lo, hi, .. } => {
            lemma_folded(v, w, d, *e);
            lemma_folded(v, w, d, *lo);
            lemma_folded(v, w, d, *hi);
        },
        ExprV::Case { operand, whens, els } => {
            lemma_box(v, w, d, operand);
            lemma_whens(v, w, d, whens, 0, Seq::empty());
            lemma_box(v, w, d, els);
        },
        ExprV::Func { args, .. } => {
            lemma_list(v, w, d, args, 0, Seq::empty());
        },
        ExprV::Aggregate { arg, sep, .. } => {
            match arg {
                AggArgV::Expr(x) => {
                    lemma_folded(v, w, d, *x);
                },
                AggArgV::Star => {},
            }
            lemma_box(v, w, d, sep);
        },
        _ => {},
    }
}

proof fn lemma_box(v: WorldV, w: WorldV, d: nat, o: Option<Box<ExprV>>)
    requires
        same_reading(v, w),
    ensures
        folded_box(v, d, o) == folded_box(w, d, o),
    decreases d, o, 0int,
{
    match o {
        None => {},
        Some(e) => {
            lemma_folded(v, w, d, *e);
        },
    }
}

proof fn lemma_opt(v: WorldV, w: WorldV, d: nat, o: Option<ExprV>)
    requires
        same_reading(v, w),
    ensures
        folded_opt(v, d, o) == folded_opt(w, d, o),
    decreases d, o, 0int,
{
    match o {
        None => {},
        Some(e) => {
            lemma_folded(v, w, d, e);
        },
    }
}

proof fn lemma_list(v: WorldV, w: WorldV, d: nat, list: Seq<ExprV>, i: int, acc: Seq<ExprV>)
    requires
        0 <= i,
        same_reading(v, w),
    ensures
        folded_list(v, d, list, i, acc) == folded_list(w, d, list, i, acc),
    decreases d, list, list.len() - i,
{
    if i < list.len() {
        lemma_folded(v, w, d, list[i]);
        match folded(w, d, list[i]) {
            Err(_) => {},
            Ok(x) => {
                lemma_list(v, w, d, list, i + 1, acc.push(x));
            },
        }
    }
}

proof fn lemma_whens(
    v: WorldV,
    w: WorldV,
    d: nat,
    whens: Seq<(ExprV, ExprV)>,
    i: int,
    acc: Seq<(ExprV, ExprV)>,
)
    requires
        0 <= i,
        same_reading(v, w),
    ensures
        folded_whens(v, d, whens, i, acc) == folded_whens(w, d, whens, i, acc),
    decreases d, whens, whens.len() - i,
{
    if i < whens.len() {
        lemma_folded(v, w, d, whens[i].0);
        lemma_folded(v, w, d, whens[i].1);
        match (folded(w, d, whens[i].0), folded(w, d, whens[i].1)) {
            (Ok(c), Ok(r)) => {
                lemma_whens(v, w, d, whens, i + 1, acc.push((c, r)));
            },
            _ => {},
        }
    }
}

proof fn lemma_items(v: WorldV, w: WorldV, d: nat, items: Seq<ItemV>, i: int, acc: Seq<ItemV>)
    requires
        0 <= i,
        same_reading(v, w),
    ensures
        folded_items(v, d, items, i, acc) == folded_items(w, d, items, i, acc),
    decreases d, items, items.len() - i,
{
    if i < items.len() {
        match items[i] {
            ItemV::Star { qualifier } => {
                lemma_items(v, w, d, items, i + 1, acc.push(ItemV::Star { qualifier }));
            },
            ItemV::Expr { expr, alias } => {
                lemma_folded(v, w, d, expr);
                match folded(w, d, expr) {
                    Err(_) => {},
                    Ok(x) => {
                        lemma_items(
                            v,
                            w,
                            d,
                            items,
                            i + 1,
                            acc.push(ItemV::Expr { expr: x, alias }),
                        );
                    },
                }
            },
        }
    }
}

proof fn lemma_selected(v: WorldV, w: WorldV, q: SelectV)
    requires
        same_reading(v, w),
    ensures
        selected(v, q) == selected(w, q),
{
    lemma_query(v, w, w.store.views.len(), q);
    match q.from {
        Some(FromV::Table { name, .. }) => {
            lemma_table_named(v, w, name);
            lemma_table_query(v, w, q, name);
        },
        _ => {},
    }
}

/// A query yields what the rows that its sight shows make of it: two stores that the
/// sight shows alike give the same result.
pub proof fn law_queries_follow_sight(v: WorldV, w: WorldV, q: SelectV)
    requires
        same_world(v, w),
    ensures
        selected(v, q) == selected(w, q),
{
    assert forall|i: int| 0 <= i < v.store.tables.len() implies (
    #[trigger] w.store.tables[i]).schema == v.store.tables[i].schema && reads_same(
        v.store.tables[i],
        w.store.tables[i],
        v.sight,
        v.env,
    ) by {
        assert(w.store.tables[i].schema == v.store.tables[i].schema);
    }
    lemma_selected(v, w, q);
}

/// A query reads nothing but the rows that policies let the principal read, be it over
/// tables, joins, views, derived tables, common table expressions or subqueries: two
/// worlds that agree in all but what policies hide give the same result.
pub proof fn law_queries_follow_policies(v: WorldV, w: WorldV, q: SelectV)
    requires
        same_reading(v, w),
    ensures
        selected(v, q) == selected(w, q),
{
    lemma_selected(v, w, q);
}

/// Whether policies hide a row, wherever it is read.
pub open spec fn hidden(
    gate: Option<Seq<ExprV>>,
    schema: SchemaV,
    row: RowV,
    tick: u64,
    env: EnvV,
) -> bool {
    forall|place: Seq<u64>|
        passes(gate, schema, row, tick, #[trigger] placed(env, place)) == Ok::<bool, StopV>(false)
}

/// Rows that differ only where policies hide both, wherever they are read.
pub open spec fn hides_difference(
    schema: SchemaV,
    gate: Option<Seq<ExprV>>,
    a: Seq<RowV>,
    b: Seq<RowV>,
    env: EnvV,
) -> bool {
    &&& a.len() == b.len()
    &&& forall|i: int|
        0 <= i < a.len() && #[trigger] a[i] != b[i] ==> hidden(gate, schema, a[i], i as u64, env)
            && hidden(gate, schema, b[i], i as u64, env)
}

proof fn lemma_hidden(
    schema: SchemaV,
    gate: Option<Seq<ExprV>>,
    a: Seq<RowV>,
    b: Seq<RowV>,
    env: EnvV,
    place: Seq<u64>,
    i: int,
    acc: Seq<RowV>,
)
    requires
        0 <= i,
        hides_difference(schema, gate, a, b, env),
    ensures
        passing_from(gate, schema, a, placed(env, place), i, acc) == passing_from(
            gate,
            schema,
            b,
            placed(env, place),
            i,
            acc,
        ),
    decreases a.len() - i,
{
    if i < a.len() {
        lemma_hidden(schema, gate, a, b, env, place, i + 1, acc);
        if a[i] == b[i] {
            lemma_hidden(schema, gate, a, b, env, place, i + 1, acc.push(a[i]));
        } else {
            assert(hidden(gate, schema, a[i], i as u64, env));
            assert(hidden(gate, schema, b[i], i as u64, env));
        }
    }
}

/// What a row holds that policies hide shows nowhere: tables whose rows differ only in
/// such rows read alike, so that every query gives the same on either.
pub proof fn law_hidden_rows_read_alike(
    a: TableV,
    b: TableV,
    gate: Option<Seq<ExprV>>,
    sight: Sight,
    env: EnvV,
)
    requires
        enforced(a.schema, env),
        gate_of(a.schema, PolicyCommand::Select, false, env) == Ok::<
            Option<Seq<ExprV>>,
            StopV,
        >(gate),
        hides_difference(a.schema, gate, seen(a, sight), seen(b, sight), env),
    ensures
        reads_same(a, b, sight, env),
{
    assert forall|place: Seq<u64>|
        readable(a.schema, seen(a, sight), #[trigger] placed(env, place)) == readable(
            a.schema,
            seen(b, sight),
            placed(env, place),
        ) by {
        assert(gate_of(a.schema, PolicyCommand::Select, false, placed(env, place)) == gate_of(
            a.schema,
            PolicyCommand::Select,
            false,
            env,
        ));
        lemma_hidden(a.schema, gate, seen(a, sight), seen(b, sight), env, place, 0, Seq::empty());
    }
}

/// Reads repeat: whatever others commit, a query at an earlier snapshot yields what it
/// yielded before.
pub proof fn law_reads_repeat(w: WorldV, q: SelectV, owner: u64, lsn: u64)
    requires
        w.sight.snapshot < lsn < PENDING,
        w.sight.writer != Some(owner),
    ensures
        selected(WorldV { store: committed(w.store, owner, lsn), ..w }, q) == selected(w, q),
{
    let after = committed(w.store, owner, lsn);
    let sight = w.sight;
    assert forall|i: int| 0 <= i < w.store.tables.len() implies (#[trigger] after.tables[i]).schema
        == w.store.tables[i].schema && shows_same(
        w.store.tables[i].rows,
        after.tables[i].rows,
        sight,
    ) by {
        let rows = w.store.tables[i].rows;
        let now = after.tables[i].rows;
        assert(now == finalized_rows(rows, owner, lsn));
        assert forall|k: int| 0 <= k < rows.len() implies (#[trigger] now[k]).vid == rows[k].vid
            && now[k].values == rows[k].values && sees(now[k], sight.snapshot, sight.writer) == sees(
            rows[k],
            sight.snapshot,
            sight.writer,
        ) by {
            assert(now[k] == finalized(rows[k], owner, lsn));
        }
    }
    law_queries_follow_sight(w, WorldV { store: after, ..w }, q);
}

/// What a transaction writes before it commits nobody else sees in any query, be it a
/// reader or another writer.
pub proof fn law_pending_writes_show_nowhere(
    w: WorldV,
    q: SelectV,
    name: Seq<char>,
    after: StoreV,
    owner: u64,
    lsn: u64,
)
    requires
        w.sight.writer != Some(owner),
        w.sight.snapshot <= lsn < PENDING,
        table_pos(w.store, name) matches Some(i) ==> 0 <= i < w.store.tables.len()
            && spares_others(w.store.tables[i].rows, after.tables[i].rows, owner),
        written_over(w.store, name, after, owner, lsn),
    ensures
        selected(WorldV { store: after, ..w }, q) == selected(w, q),
{
    let at = table_pos(w.store, name)->0;
    let sight = w.sight;
    assert forall|i: int| 0 <= i < w.store.tables.len() implies (#[trigger] after.tables[i]).schema
        == w.store.tables[i].schema && shows_same(
        w.store.tables[i].rows,
        after.tables[i].rows,
        sight,
    ) by {
        if i == at {
            let rows = w.store.tables[i].rows;
            let now = after.tables[i].rows;
            assert(grown(rows, now, owner, lsn));
            assert forall|k: int| 0 <= k < rows.len() implies (#[trigger] now[k]).vid == rows[k].vid
                && now[k].values == rows[k].values && sees(now[k], sight.snapshot, sight.writer)
                == sees(rows[k], sight.snapshot, sight.writer) by {
                assert(now[k] == rows[k] || (now[k] == stamped(rows[k], owner) && alive(
                    rows[k],
                    lsn,
                )));
            }
        } else {
            assert(after.tables[i] == w.store.tables[i]);
        }
    }
    law_queries_follow_sight(w, WorldV { store: after, ..w }, q);
}

} // verus!
