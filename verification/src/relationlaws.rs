//! Subqueries, named queries, aliases, stars and joined writes.
use vstd::prelude::*;
use crate::asks::StopV;
use crate::catalog::SchemaV;
use crate::env::EnvV;
use crate::eval::{rel_ctx, RelColV};
use crate::funcs::{conversion, filled_from};
use crate::inspect::{alias_target, dealiased};
use crate::query::ResultV;
use crate::querylaws::true_in;
use crate::relation::RelationV;
use crate::relational::{cte_named, retagged, CteRelV, WorldV};
use crate::runner::{folded, query_of, source_of};
use crate::scope::{covered_from, star_cells, star_covers, ScopeV};
use crate::sql::{ExprV, FromV, ItemV, SelectV};
use crate::text::same_name;
use crate::updates::{meant, partner_from, reading};
use crate::value::{RowV, ValueV};

verus! {

// ---- subqueries -----------------------------------------------------------------------------------

/// `EXISTS` is true just when its query yields a row, and `NOT EXISTS` just when it
/// yields none.
pub proof fn law_exists(w: WorldV, depth: nat, q: SelectV, negated: bool, r: ResultV)
    requires
        query_of(w, depth, q) == Ok::<ResultV, StopV>(r),
    ensures
        folded(w, depth, ExprV::Exists { query: Box::new(q), negated }) == Ok::<ExprV, StopV>(
            ExprV::Lit(
                ValueV::Int(
                    if negated {
                        if r.rows.len() == 0 {
                            1
                        } else {
                            0
                        }
                    } else if r.rows.len() == 0 {
                        0
                    } else {
                        1
                    },
                ),
            ),
        ),
{
}

/// A query in the place of a value is worth its one cell, or `NULL` where it yields no
/// row; with more rows, or other than one column, it is refused.
pub proof fn law_scalar_subquery(w: WorldV, depth: nat, q: SelectV, r: ResultV)
    requires
        query_of(w, depth, q) == Ok::<ResultV, StopV>(r),
        forall|k: int| 0 <= k < r.rows.len() ==> (#[trigger] r.rows[k]).len() == r.columns.len(),
    ensures
        ({
            let x = folded(w, depth, ExprV::ScalarSubquery(Box::new(q)));
            &&& r.columns.len() != 1 || r.rows.len() > 1 ==> x is Err
            &&& r.columns.len() == 1 && r.rows.len() == 0 ==> x == Ok::<ExprV, StopV>(
                ExprV::Lit(ValueV::Null),
            )
            &&& r.columns.len() == 1 && r.rows.len() == 1 ==> x == Ok::<ExprV, StopV>(
                ExprV::Lit(r.rows[0][0]),
            )
        }),
{
}

/// `IN` with a query is `IN` with the list of the values that the query yields.
pub proof fn law_in_subquery(
    w: WorldV,
    depth: nat,
    e: ExprV,
    x: ExprV,
    q: SelectV,
    negated: bool,
    r: ResultV,
)
    requires
        query_of(w, depth, q) == Ok::<ResultV, StopV>(r),
        folded(w, depth, e) == Ok::<ExprV, StopV>(x),
        r.columns.len() == 1,
        forall|k: int| 0 <= k < r.rows.len() ==> (#[trigger] r.rows[k]).len() == 1,
    ensures
        folded(
            w,
            depth,
            ExprV::InSubquery { e: Box::new(e), query: Box::new(q), negated },
        ) == Ok::<ExprV, StopV>(
            ExprV::InList {
                e: Box::new(x),
                list: Seq::new(r.rows.len(), |k: int| ExprV::Lit(r.rows[k][0])),
                negated,
            },
        ),
{
    let list = Seq::new(r.rows.len(), |k: int| ExprV::Lit(r.rows[k][0]));
    assert(crate::runner::members_of(r)->Ok_0 =~= list);
}

// ---- named queries --------------------------------------------------------------------------------

proof fn lemma_cte_named(ctes: Seq<CteRelV>, name: Seq<char>, n: int, k: int)
    requires
        0 <= k < n <= ctes.len(),
        same_name(ctes[k].name, name),
        forall|m: int| k < m < n ==> !same_name((#[trigger] ctes[m]).name, name),
    ensures
        cte_named(ctes, name, n) == Some(ctes[k].rel),
    decreases n - k,
{
    if n - 1 > k {
        assert(!same_name(ctes[n - 1].name, name));
        lemma_cte_named(ctes, name, n - 1, k);
    }
}

/// A name in `FROM` stands for the last common table expression of that name, before any
/// table or view.
pub proof fn law_common_tables_come_first(
    w: WorldV,
    depth: nat,
    ctes: Seq<CteRelV>,
    name: Seq<char>,
    at: u64,
    k: int,
)
    requires
        0 <= k < ctes.len(),
        same_name(ctes[k].name, name),
        forall|m: int| k < m < ctes.len() ==> !same_name((#[trigger] ctes[m]).name, name),
    ensures
        source_of(w, depth, FromV::Table { name, alias: None, at }, ctes) matches Ok(rel)
            && rel.rows == ctes[k].rel.rows && rel.cols == retagged(ctes[k].rel.cols, name),
{
    lemma_cte_named(ctes, name, ctes.len() as int, k);
}

// ---- aliases and stars ----------------------------------------------------------------------------

proof fn lemma_alias(items: Seq<ItemV>, name: Seq<char>, i: int, k: int)
    requires
        0 <= i <= k < items.len(),
        is_called(items[k], name),
        forall|m: int| i <= m < k ==> !is_called(#[trigger] items[m], name),
    ensures
        alias_target(items, name, i) == Some(items[k]->expr),
    decreases k - i,
{
    if i < k {
        assert(!is_called(items[i], name));
        lemma_alias(items, name, i + 1, k);
    }
}

proof fn lemma_no_alias(items: Seq<ItemV>, name: Seq<char>, i: int)
    requires
        0 <= i <= items.len(),
        forall|m: int| i <= m < items.len() ==> !is_called(#[trigger] items[m], name),
    ensures
        alias_target(items, name, i) is None,
    decreases items.len() - i,
{
    if i < items.len() {
        assert(!is_called(items[i], name));
        lemma_no_alias(items, name, i + 1);
    }
}

/// Whether an item has a name as its alias.
pub open spec fn is_called(item: ItemV, name: Seq<char>) -> bool {
    match item {
        ItemV::Expr { alias: Some(a), .. } => same_name(a, name),
        _ => false,
    }
}

/// An order key that is the alias of an item stands for what the item computes; one that
/// is no alias is a column.
pub proof fn law_aliases(items: Seq<ItemV>, name: Seq<char>, k: int)
    requires
        0 <= k <= items.len(),
        k < items.len() ==> is_called(items[k], name),
        forall|m: int| 0 <= m < k ==> !is_called(#[trigger] items[m], name),
    ensures
        dealiased(items, ExprV::Column(name)) == (if k < items.len() {
            items[k]->expr
        } else {
            ExprV::Column(name)
        }),
{
    if k < items.len() {
        lemma_alias(items, name, 0, k);
    } else {
        lemma_no_alias(items, name, 0);
    }
}

proof fn lemma_covered(cols: Seq<RelColV>, q: Option<Seq<char>>, i: int, acc: Seq<int>, k: int)
    requires
        0 <= i <= cols.len(),
        0 <= k < cols.len(),
        forall|m: int| 0 <= m < acc.len() ==> 0 <= #[trigger] acc[m] < i,
        forall|a: int, b: int| 0 <= a < b < acc.len() ==> #[trigger] acc[a] < #[trigger] acc[b],
        k < i ==> (acc.contains(k) <==> star_covers(q, cols[k])),
    ensures
        ({
            let p = covered_from(cols, q, i, acc);
            &&& forall|m: int| 0 <= m < p.len() ==> 0 <= #[trigger] p[m] < cols.len()
            &&& forall|a: int, b: int| 0 <= a < b < p.len() ==> #[trigger] p[a] < #[trigger] p[b]
            &&& p.contains(k) <==> star_covers(q, cols[k])
        }),
    decreases cols.len() - i,
{
    if i < cols.len() {
        let next = if star_covers(q, cols[i]) {
            acc.push(i)
        } else {
            acc
        };
        if acc.contains(i) {
            let m = choose|m: int| 0 <= m < acc.len() && acc[m] == i;
            assert(acc[m] < i);
        }
        assert(next.contains(k) <==> acc.contains(k) || (k == i && star_covers(q, cols[i]))) by {
            if acc.contains(k) {
                let m = choose|m: int| 0 <= m < acc.len() && acc[m] == k;
                assert(next[m] == k);
            }
            if star_covers(q, cols[i]) {
                assert(next[acc.len() as int] == i);
            }
            if next.contains(k) && !acc.contains(k) {
                let m = choose|m: int| 0 <= m < next.len() && next[m] == k;
                if m < acc.len() {
                    assert(acc[m] == k);
                }
            }
        }
        if k > i && acc.contains(k) {
            let m = choose|m: int| 0 <= m < acc.len() && acc[m] == k;
            assert(acc[m] < i);
        }
        lemma_covered(cols, q, i + 1, next, k);
    }
}

/// A star takes the columns in their order: with a qualifier just those of the source of
/// that name, without one all of them.
pub proof fn law_star(cols: Seq<RelColV>, q: Option<Seq<char>>, k: int)
    requires
        0 <= k < cols.len(),
    ensures
        ({
            let p = covered_from(cols, q, 0, Seq::empty());
            &&& forall|m: int| 0 <= m < p.len() ==> 0 <= #[trigger] p[m] < cols.len()
            &&& forall|a: int, b: int| 0 <= a < b < p.len() ==> #[trigger] p[a] < #[trigger] p[b]
            &&& p.contains(k) <==> (q matches Some(n) ==> (cols[k].table matches Some(t)
                && same_name(t, n)))
        }),
{
    lemma_covered(cols, q, 0, Seq::empty(), k);
}

proof fn lemma_all_covered(cols: Seq<RelColV>, i: int, acc: Seq<int>)
    requires
        0 <= i <= cols.len(),
        acc == Seq::new(i as nat, |k: int| k),
    ensures
        covered_from(cols, None, i, acc) == Seq::new(cols.len(), |k: int| k),
    decreases cols.len() - i,
{
    if i < cols.len() {
        assert(acc.push(i) =~= Seq::new((i + 1) as nat, |k: int| k));
        lemma_all_covered(cols, i + 1, acc.push(i));
    }
}

/// A star alone gives the whole row.
pub proof fn law_star_is_the_row(cols: Seq<RelColV>, row: RowV)
    requires
        row.len() == cols.len(),
    ensures
        star_cells(ScopeV { schema: None, cols: Some(cols) }, None, row) == row,
{
    assert(Seq::<int>::empty() =~= Seq::new(0, |k: int| k));
    lemma_all_covered(cols, 0, Seq::empty());
    assert(star_cells(ScopeV { schema: None, cols: Some(cols) }, None, row) =~= row);
}

// ---- joined writes --------------------------------------------------------------------------------

proof fn lemma_partner(
    filter: Option<ExprV>,
    schema: SchemaV,
    src: RelationV,
    values: RowV,
    tick: u64,
    env: EnvV,
    j: int,
)
    requires
        0 <= j <= src.rows.len(),
        partner_from(filter, schema, src, values, tick, env, j) is Ok,
        forall|m: int|
            0 <= m < j ==> !true_in(
                filter,
                rel_ctx(values + #[trigger] src.rows[m], src.cols, tick),
                env,
            ),
    ensures
        is_partner(
            filter,
            src,
            values,
            tick,
            env,
            partner_from(filter, schema, src, values, tick, env, j)->Ok_0,
        ),
    decreases src.rows.len() - j,
{
    if j < src.rows.len() && !true_in(
        filter,
        rel_ctx(values + src.rows[j], src.cols, tick),
        env,
    ) {
        lemma_partner(filter, schema, src, values, tick, env, j + 1);
    }
}

/// Whether a place is that of the first row beside which a condition is true, or there
/// is none.
pub open spec fn is_partner(
    filter: Option<ExprV>,
    src: RelationV,
    values: RowV,
    tick: u64,
    env: EnvV,
    at: Option<int>,
) -> bool {
    match at {
        Some(k) => {
            &&& 0 <= k < src.rows.len()
            &&& true_in(filter, rel_ctx(values + src.rows[k], src.cols, tick), env)
            &&& forall|m: int|
                0 <= m < k ==> !true_in(
                    filter,
                    rel_ctx(values + #[trigger] src.rows[m], src.cols, tick),
                    env,
                )
        },
        None => forall|m: int|
            0 <= m < src.rows.len() ==> !true_in(
                filter,
                rel_ctx(values + #[trigger] src.rows[m], src.cols, tick),
                env,
            ),
    }
}

/// A write that reads another source is about a row just when the condition is true of
/// it beside some row of the source; its expressions then see the first of these.
pub proof fn law_joined_writes(
    filter: Option<ExprV>,
    schema: SchemaV,
    src: RelationV,
    values: RowV,
    tick: u64,
    env: EnvV,
)
    requires
        meant(filter, schema, Some(src), values, tick, env) is Ok,
    ensures
        ({
            let at = meant(filter, schema, Some(src), values, tick, env)->Ok_0;
            &&& is_partner(filter, src, values, tick, env, at)
            &&& at matches Some(k) ==> reading(schema, Some(src), values, k, tick) == rel_ctx(
                values + src.rows[k],
                src.cols,
                tick,
            )
        }),
{
    lemma_partner(filter, schema, src, values, tick, env, 0);
}

// ---- formats --------------------------------------------------------------------------------------

proof fn lemma_filled(f: Seq<char>, e: int, i: int, a: Seq<char>, g: Seq<char>, j: int, b: Seq<char>)
    requires
        0 <= j <= g.len(),
        i - j >= 0,
        i - j <= f.len(),
        g == f.skip(i - j),
    ensures
        filled_from(f, e, i, a + b) == a + filled_from(g, e, j, b),
    decreases f.len() - i,
{
    if i < f.len() {
        assert(f[i] == g[j]);
        if f[i] != '%' {
            assert((a + b).push(f[i]) =~= a + b.push(g[j]));
            lemma_filled(f, e, i + 1, a, g, j + 1, b.push(g[j]));
        } else if i + 1 < f.len() {
            let c = conversion(f[i + 1], e);
            assert(f[i + 1] == g[j + 1]);
            assert(a + b + c =~= a + (b + c));
            lemma_filled(f, e, i + 2, a, g, j + 2, b + c);
        } else {
            assert((a + b).push('%') =~= a + b.push('%'));
        }
    }
}

proof fn lemma_filled_plain(f: Seq<char>, e: int, i: int, n: int)
    requires
        0 <= i <= n <= f.len(),
        forall|k: int| i <= k < n ==> #[trigger] f[k] != '%',
    ensures
        filled_from(f, e, i, f.take(i)) == filled_from(f, e, n, f.take(n)),
    decreases n - i,
{
    if i < n {
        assert(f[i] != '%');
        assert(f.take(i).push(f[i]) =~= f.take(i + 1));
        lemma_filled_plain(f, e, i + 1, n);
    }
}

/// A format is copied up to its first percent sign; that and the letter behind it give
/// way to what they stand for, and so on behind them.
pub proof fn law_formats(f: Seq<char>, e: int, n: int)
    requires
        0 <= n,
        n == f.len() || (n + 1 < f.len() && f[n] == '%'),
        forall|k: int| 0 <= k < n ==> #[trigger] f[k] != '%',
    ensures
        filled_from(f, e, 0, Seq::empty()) == (if n == f.len() {
            f
        } else {
            f.take(n) + conversion(f[n + 1], e) + filled_from(f.skip(n + 2), e, 0, Seq::empty())
        }),
{
    lemma_filled_plain(f, e, 0, n);
    assert(f.take(0) =~= Seq::<char>::empty());
    if n == f.len() {
        assert(f.take(n) =~= f);
    } else {
        let a = f.take(n) + conversion(f[n + 1], e);
        assert(a + Seq::<char>::empty() =~= a);
        lemma_filled(f, e, n + 2, a, f.skip(n + 2), 0, Seq::empty());
    }
}

} // verus!
