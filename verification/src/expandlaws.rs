//! Why the expansion of views never runs out of depth.
use vstd::prelude::*;
use vstd::set_lib::{lemma_int_range, lemma_len_subset, set_int_range};
use crate::query::ResultV;
use crate::refs::{
    arms_names, bound_by, box_names, ctes_names, expr_names, exprs_names, from_names, items_names,
    keys_names, opt_names, query_names, source_names, unbound_from, whens_names,
};
use crate::relational::{CteRelV, WorldV};
use crate::runner::{
    arms_from, core_of, ctes_from, folded, folded_box, folded_items, folded_list, folded_opt,
    folded_whens, query_of, source_of, used_at,
};
use crate::sql::{AggArgV, CteV, ExprV, FromV, ItemV, SelectV, SetOpV};
use crate::store::{lemma_name_pos, name_pos, view_names, ViewV};
use crate::text::same_name;
use crate::views::{acyclic, chain_between, is_chain, leads_to, rests_on};

verus! {

/// Whether what a name stands for expands within `d` levels of views.
pub open spec fn low(views: Seq<ViewV>, n: Seq<char>, d: nat) -> bool
    decreases d,
{
    match name_pos(view_names(views), n, 0) {
        None => true,
        Some(i) => d > 0 && forall|k: int|
            0 <= k < query_names(views[i].query).len() ==> low(
                views,
                #[trigger] query_names(views[i].query)[k],
                (d - 1) as nat,
            ),
    }
}

pub open spec fn all_low(views: Seq<ViewV>, names: Seq<Seq<char>>, d: nat) -> bool {
    forall|k: int| 0 <= k < names.len() ==> low(views, #[trigger] names[k], d)
}

// ---- parts of a query -----------------------------------------------------------------------------

proof fn lemma_low_add(views: Seq<ViewV>, a: Seq<Seq<char>>, b: Seq<Seq<char>>, d: nat)
    requires
        all_low(views, a + b, d),
    ensures
        all_low(views, a, d),
        all_low(views, b, d),
{
    let s = a + b;
    assert forall|k: int| 0 <= k < a.len() implies low(views, #[trigger] a[k], d) by {
        assert(s[k] == a[k]);
    }
    assert forall|k: int| 0 <= k < b.len() implies low(views, #[trigger] b[k], d) by {
        assert(s[a.len() + k] == b[k]);
    }
}

proof fn lemma_exprs_low(views: Seq<ViewV>, v: Seq<ExprV>, n: int, d: nat)
    requires
        0 <= n <= v.len(),
        all_low(views, exprs_names(v, n), d),
    ensures
        forall|i: int| 0 <= i < n ==> all_low(views, expr_names(#[trigger] v[i]), d),
    decreases n,
{
    if n > 0 {
        lemma_low_add(views, exprs_names(v, n - 1), expr_names(v[n - 1]), d);
        lemma_exprs_low(views, v, n - 1, d);
    }
}

proof fn lemma_whens_low(views: Seq<ViewV>, v: Seq<(ExprV, ExprV)>, n: int, d: nat)
    requires
        0 <= n <= v.len(),
        all_low(views, whens_names(v, n), d),
    ensures
        forall|i: int|
            0 <= i < n ==> all_low(views, expr_names((#[trigger] v[i]).0), d) && all_low(
                views,
                expr_names(v[i].1),
                d,
            ),
    decreases n,
{
    if n > 0 {
        let (a, b) = (expr_names(v[n - 1].0), expr_names(v[n - 1].1));
        lemma_low_add(views, whens_names(v, n - 1), a + b, d);
        lemma_low_add(views, a, b, d);
        lemma_whens_low(views, v, n - 1, d);
    }
}

proof fn lemma_ctes_low(views: Seq<ViewV>, v: Seq<CteV>, n: int, d: nat)
    requires
        0 <= n <= v.len(),
        all_low(views, ctes_names(v, n), d),
    ensures
        forall|i: int| 0 <= i < n ==> all_low(views, query_names(*(#[trigger] v[i]).query), d),
    decreases n,
{
    if n > 0 {
        lemma_low_add(views, ctes_names(v, n - 1), query_names(*v[n - 1].query), d);
        lemma_ctes_low(views, v, n - 1, d);
    }
}

proof fn lemma_arms_low(views: Seq<ViewV>, v: Seq<SetOpV>, n: int, d: nat)
    requires
        0 <= n <= v.len(),
        all_low(views, arms_names(v, n), d),
    ensures
        forall|i: int| 0 <= i < n ==> all_low(views, query_names(*(#[trigger] v[i]).query), d),
    decreases n,
{
    if n > 0 {
        lemma_low_add(views, arms_names(v, n - 1), query_names(*v[n - 1].query), d);
        lemma_arms_low(views, v, n - 1, d);
    }
}

spec fn item_names(i: ItemV) -> Seq<Seq<char>> {
    match i {
        ItemV::Expr { expr, .. } => expr_names(expr),
        ItemV::Star { .. } => Seq::empty(),
    }
}

proof fn lemma_items_low(views: Seq<ViewV>, v: Seq<ItemV>, n: int, d: nat)
    requires
        0 <= n <= v.len(),
        all_low(views, items_names(v, n), d),
    ensures
        forall|i: int| 0 <= i < n ==> all_low(views, item_names(#[trigger] v[i]), d),
    decreases n,
{
    if n > 0 {
        lemma_low_add(views, items_names(v, n - 1), item_names(v[n - 1]), d);
        lemma_items_low(views, v, n - 1, d);
    }
}

proof fn lemma_query_low(views: Seq<ViewV>, q: SelectV, d: nat)
    requires
        all_low(views, query_names(q), d),
    ensures
        all_low(views, ctes_names(q.with, q.with.len() as int), d),
        all_low(views, source_names(q.from), d),
        all_low(views, items_names(q.items, q.items.len() as int), d),
        all_low(views, opt_names(q.filter), d),
        all_low(views, exprs_names(q.group_by, q.group_by.len() as int), d),
        all_low(views, opt_names(q.having), d),
        all_low(views, arms_names(q.set_ops, q.set_ops.len() as int), d),
{
    let a = ctes_names(q.with, q.with.len() as int);
    let b = source_names(q.from);
    let c = items_names(q.items, q.items.len() as int);
    let e = opt_names(q.filter);
    let f = exprs_names(q.group_by, q.group_by.len() as int);
    let g = opt_names(q.having);
    let h = keys_names(q.order_by, q.order_by.len() as int);
    let i = arms_names(q.set_ops, q.set_ops.len() as int);
    lemma_low_add(views, a + b + c + e + f + g + h, i, d);
    lemma_low_add(views, a + b + c + e + f + g, h, d);
    lemma_low_add(views, a + b + c + e + f, g, d);
    lemma_low_add(views, a + b + c + e, f, d);
    lemma_low_add(views, a + b + c, e, d);
    lemma_low_add(views, a + b, c, d);
    lemma_low_add(views, a, b, d);
}

// ---- one level more -------------------------------------------------------------------------------

proof fn lemma_query(w: WorldV, d: nat, q: SelectV)
    requires
        all_low(w.store.views, query_names(q), d),
    ensures
        query_of(w, d, q) == query_of(w, d + 1, q),
    decreases d, q, 1int,
{
    lemma_query_low(w.store.views, q, d);
    lemma_ctes(w, d, q.with, 0, Seq::empty());
    match ctes_from(w, d, q.with, 0, Seq::empty()) {
        Err(_) => {},
        Ok(ctes) => {
            lemma_core(w, d, q, ctes, true);
            lemma_core(w, d, q, ctes, false);
            match core_of(w, d, q, ctes, false) {
                Err(_) => {},
                Ok(first) => {
                    lemma_arms(w, d, q.set_ops, ctes, 0, first);
                },
            }
        },
    }
}

proof fn lemma_ctes(w: WorldV, d: nat, with: Seq<CteV>, i: int, acc: Seq<CteRelV>)
    requires
        0 <= i,
        all_low(w.store.views, ctes_names(with, with.len() as int), d),
    ensures
        ctes_from(w, d, with, i, acc) == ctes_from(w, d + 1, with, i, acc),
    decreases d, with, with.len() - i,
{
    if i < with.len() {
        lemma_ctes_low(w.store.views, with, with.len() as int, d);
        assert(all_low(w.store.views, query_names(*with[i].query), d));
        lemma_query(w, d, *with[i].query);
        match query_of(w, d, *with[i].query) {
            Err(_) => {},
            Ok(r) => {
                lemma_ctes(
                    w,
                    d,
                    with,
                    i + 1,
                    acc.push(
                        CteRelV {
                            name: with[i].name,
                            rel: crate::relational::as_relation(with[i].name, r),
                        },
                    ),
                );
            },
        }
    }
}

proof fn lemma_arms(
    w: WorldV,
    d: nat,
    arms: Seq<SetOpV>,
    ctes: Seq<CteRelV>,
    i: int,
    acc: ResultV,
)
    requires
        0 <= i,
        all_low(w.store.views, arms_names(arms, arms.len() as int), d),
    ensures
        arms_from(w, d, arms, ctes, i, acc) == arms_from(w, d + 1, arms, ctes, i, acc),
    decreases d, arms, arms.len() - i,
{
    if i < arms.len() {
        lemma_arms_low(w.store.views, arms, arms.len() as int, d);
        assert(all_low(w.store.views, query_names(*arms[i].query), d));
        lemma_core(w, d, *arms[i].query, ctes, true);
        match core_of(w, d, *arms[i].query, ctes, true) {
            Err(_) => {},
            Ok(r) => match crate::relation::combined(acc, r, arms[i].op, arms[i].all) {
                Err(_) => {},
                Ok(next) => {
                    lemma_arms(w, d, arms, ctes, i + 1, next);
                },
            },
        }
    }
}

proof fn lemma_core(w: WorldV, d: nat, q: SelectV, ctes: Seq<CteRelV>, tail: bool)
    requires
        all_low(w.store.views, query_names(q), d),
    ensures
        core_of(w, d, q, ctes, tail) == core_of(w, d + 1, q, ctes, tail),
    decreases d, q, 0int,
{
    lemma_query_low(w.store.views, q, d);
    match q.from {
        None => {},
        Some(f) => {
            lemma_source(w, d, f, ctes);
        },
    }
    lemma_opt(w, d, q.filter);
    lemma_items(w, d, q.items, 0, Seq::empty());
    lemma_list(w, d, q.group_by, 0, Seq::empty());
    lemma_opt(w, d, q.having);
}

proof fn lemma_source(w: WorldV, d: nat, f: FromV, ctes: Seq<CteRelV>)
    requires
        all_low(w.store.views, from_names(f), d),
    ensures
        source_of(w, d, f, ctes) == source_of(w, d + 1, f, ctes),
    decreases d, f, 0int,
{
    let views = w.store.views;
    match f {
        FromV::Table { name, alias, at } => {
            assert(from_names(f)[0] == name);
            assert(low(views, name, d));
            match name_pos(view_names(views), name, 0) {
                None => {},
                Some(v) => {
                    assert(all_low(views, query_names(views[v].query), (d - 1) as nat));
                    lemma_query(used_at(w, at), (d - 1) as nat, views[v].query);
                },
            }
        },
        FromV::Derived { query, .. } => {
            lemma_query(w, d, *query);
        },
        FromV::Join { left, right, on, .. } => {
            let (a, b) = (from_names(*left), from_names(*right));
            lemma_low_add(views, a + b, box_names(on), d);
            lemma_low_add(views, a, b, d);
            lemma_source(w, d, *left, ctes);
            lemma_source(w, d, *right, ctes);
        },
    }
}

proof fn lemma_folded(w: WorldV, d: nat, e: ExprV)
    requires
        all_low(w.store.views, expr_names(e), d),
    ensures
        folded(w, d, e) == folded(w, d + 1, e),
    decreases d, e, 0int,
{
    let views = w.store.views;
    match e {
        ExprV::ScalarSubquery(q) => {
            lemma_query(w, d, *q);
        },
        ExprV::Exists { query, .. } => {
            lemma_query(w, d, *query);
        },
        ExprV::InSubquery { e, query, .. } => {
            lemma_low_add(views, expr_names(*e), query_names(*query), d);
            lemma_query(w, d, *query);
            lemma_folded(w, d, *e);
        },
        ExprV::Binary { l, r, .. } => {
            lemma_low_add(views, expr_names(*l), expr_names(*r), d);
            lemma_folded(w, d, *l);
            lemma_folded(w, d, *r);
        },
        ExprV::Unary { e, .. } => {
            lemma_folded(w, d, *e);
        },
        ExprV::IsNull { e, .. } => {
            lemma_folded(w, d, *e);
        },
        ExprV::Cast { e, .. } => {
            lemma_folded(w, d, *e);
        },
        ExprV::Like { e, pattern, escape, .. } => {
            lemma_low_add(views, expr_names(*e) + expr_names(*pattern), box_names(escape), d);
            lemma_low_add(views, expr_names(*e), expr_names(*pattern), d);
            lemma_folded(w, d, *e);
            lemma_folded(w, d, *pattern);
            lemma_box(w, d, escape);
        },
        ExprV::InList { e, list, .. } => {
            lemma_low_add(views, expr_names(*e), exprs_names(list, list.len() as int), d);
            lemma_folded(w, d, *e);
            lemma_list(w, d, list, 0, Seq::empty());
        },
        ExprV::Between { e, lo, hi, .. } => {
            lemma_low_add(views, expr_names(*e) + expr_names(*lo), expr_names(*hi), d);
            lemma_low_add(views, expr_names(*e), expr_names(*lo), d);
            lemma_folded(w, d, *e);
            lemma_folded(w, d, *lo);
            lemma_folded(w, d, *hi);
        },
        ExprV::Case { operand, whens, els } => {
            let n = whens_names(whens, whens.len() as int);
            lemma_low_add(views, box_names(operand) + n, box_names(els), d);
            lemma_low_add(views, box_names(operand), n, d);
            lemma_box(w, d, operand);
            lemma_whens(w, d, whens, 0, Seq::empty());
            lemma_box(w, d, els);
        },
        ExprV::Func { args, .. } => {
            lemma_list(w, d, args, 0, Seq::empty());
        },
        ExprV::Aggregate { arg, sep, .. } => {
            let n = match arg {
                AggArgV::Expr(x) => expr_names(*x),
                AggArgV::Star => Seq::empty(),
            };
            lemma_low_add(views, n, box_names(sep), d);
            match arg {
                AggArgV::Expr(x) => {
                    lemma_folded(w, d, *x);
                },
                AggArgV::Star => {},
            }
            lemma_box(w, d, sep);
        },
        _ => {},
    }
}

proof fn lemma_box(w: WorldV, d: nat, o: Option<Box<ExprV>>)
    requires
        all_low(w.store.views, box_names(o), d),
    ensures
        folded_box(w, d, o) == folded_box(w, d + 1, o),
    decreases d, o, 0int,
{
    match o {
        None => {},
        Some(e) => {
            lemma_folded(w, d, *e);
        },
    }
}

proof fn lemma_opt(w: WorldV, d: nat, o: Option<ExprV>)
    requires
        all_low(w.store.views, opt_names(o), d),
    ensures
        folded_opt(w, d, o) == folded_opt(w, d + 1, o),
    decreases d, o, 0int,
{
    match o {
        None => {},
        Some(e) => {
            lemma_folded(w, d, e);
        },
    }
}

proof fn lemma_list(w: WorldV, d: nat, list: Seq<ExprV>, i: int, acc: Seq<ExprV>)
    requires
        0 <= i,
        all_low(w.store.views, exprs_names(list, list.len() as int), d),
    ensures
        folded_list(w, d, list, i, acc) == folded_list(w, d + 1, list, i, acc),
    decreases d, list, list.len() - i,
{
    if i < list.len() {
        lemma_exprs_low(w.store.views, list, list.len() as int, d);
        assert(all_low(w.store.views, expr_names(list[i]), d));
        lemma_folded(w, d, list[i]);
        match folded(w, d, list[i]) {
            Err(_) => {},
            Ok(x) => {
                lemma_list(w, d, list, i + 1, acc.push(x));
            },
        }
    }
}

proof fn lemma_whens(
    w: WorldV,
    d: nat,
    whens: Seq<(ExprV, ExprV)>,
    i: int,
    acc: Seq<(ExprV, ExprV)>,
)
    requires
        0 <= i,
        all_low(w.store.views, whens_names(whens, whens.len() as int), d),
    ensures
        folded_whens(w, d, whens, i, acc) == folded_whens(w, d + 1, whens, i, acc),
    decreases d, whens, whens.len() - i,
{
    if i < whens.len() {
        lemma_whens_low(w.store.views, whens, whens.len() as int, d);
        assert(all_low(w.store.views, expr_names(whens[i].0), d));
        lemma_folded(w, d, whens[i].0);
        lemma_folded(w, d, whens[i].1);
        match (folded(w, d, whens[i].0), folded(w, d, whens[i].1)) {
            (Ok(c), Ok(r)) => {
                lemma_whens(w, d, whens, i + 1, acc.push((c, r)));
            },
            _ => {},
        }
    }
}

proof fn lemma_items(w: WorldV, d: nat, items: Seq<ItemV>, i: int, acc: Seq<ItemV>)
    requires
        0 <= i,
        all_low(w.store.views, items_names(items, items.len() as int), d),
    ensures
        folded_items(w, d, items, i, acc) == folded_items(w, d + 1, items, i, acc),
    decreases d, items, items.len() - i,
{
    if i < items.len() {
        lemma_items_low(w.store.views, items, items.len() as int, d);
        assert(all_low(w.store.views, item_names(items[i]), d));
        match items[i] {
            ItemV::Star { qualifier } => {
                lemma_items(w, d, items, i + 1, acc.push(ItemV::Star { qualifier }));
            },
            ItemV::Expr { expr, alias } => {
                lemma_folded(w, d, expr);
                match folded(w, d, expr) {
                    Err(_) => {},
                    Ok(x) => {
                        lemma_items(
                            w,
                            d,
                            items,
                            i + 1,
                            acc.push(ItemV::Expr { expr: x, alias }),
                        );
                    },
                }
            },
        }
    }
}

// ---- views without a cycle ------------------------------------------------------------------------

/// No view names another by a name that its own `WITH` binds.
pub open spec fn hides_none(views: Seq<ViewV>) -> bool {
    forall|i: int, k: int|
        #![trigger query_names(views[i].query)[k]]
        0 <= i < views.len() && 0 <= k < query_names(views[i].query).len() && bound_by(
            views[i].query.with,
            query_names(views[i].query)[k],
        ) ==> name_pos(view_names(views), query_names(views[i].query)[k], 0) is None
}

proof fn lemma_unbound(names: Seq<Seq<char>>, ctes: Seq<CteV>, i: int, acc: Seq<Seq<char>>, x: Seq<char>)
    requires
        0 <= i,
        acc.contains(x) || exists|k: int|
            i <= k < names.len() && #[trigger] names[k] == x && !bound_by(ctes, x),
    ensures
        unbound_from(names, ctes, i, acc).contains(x),
    decreases names.len() - i,
{
    if i < names.len() {
        let next = if bound_by(ctes, names[i]) {
            acc
        } else {
            acc.push(names[i])
        };
        if acc.contains(x) {
            let m = choose|m: int| 0 <= m < acc.len() && acc[m] == x;
            assert(next[m] == x);
            assert(next.contains(x));
        } else {
            let k = choose|k: int|
                i <= k < names.len() && #[trigger] names[k] == x && !bound_by(ctes, x);
            if k == i {
                assert(next[acc.len() as int] == x);
                assert(next.contains(x));
            } else {
                assert(names[k] == x);
            }
        }
        lemma_unbound(names, ctes, i + 1, next, x);
    }
}

/// A chain of views.
spec fn view_chain(views: Seq<ViewV>, c: Seq<Seq<char>>) -> bool {
    &&& is_chain(views, c)
    &&& forall|k: int|
        0 <= k < c.len() ==> name_pos(view_names(views), #[trigger] c[k], 0) is Some
}

/// What does not expand within `d` levels begins a chain of `d + 1` views.
proof fn lemma_long_chain(views: Seq<ViewV>, n: Seq<char>, d: nat) -> (c: Seq<Seq<char>>)
    requires
        hides_none(views),
        !low(views, n, d),
    ensures
        c.len() == d + 1,
        c[0] == n,
        view_chain(views, c),
    decreases d,
{
    let i = name_pos(view_names(views), n, 0)->0;
    lemma_name_pos(view_names(views), n, 0);
    if d == 0 {
        seq![n]
    } else {
        let names = query_names(views[i].query);
        let k = choose|k: int|
            0 <= k < names.len() && !low(views, #[trigger] names[k], (d - 1) as nat);
        let rest = lemma_long_chain(views, names[k], (d - 1) as nat);
        let c = seq![n] + rest;
        assert(name_pos(view_names(views), rest[0], 0) is Some);
        assert(!bound_by(views[i].query.with, names[k]));
        lemma_unbound(names, views[i].query.with, 0, Seq::empty(), names[k]);
        assert(rests_on(views, n).contains(rest[0]));
        assert forall|j: int| 0 <= j < c.len() - 1 implies rests_on(views, #[trigger] c[j]).contains(
            c[j + 1],
        ) by {
            if j > 0 {
                assert(c[j] == rest[j - 1]);
                assert(c[j + 1] == rest[j]);
            }
        }
        assert forall|j: int| 0 <= j < c.len() implies name_pos(
            view_names(views),
            #[trigger] c[j],
            0,
        ) is Some by {
            if j > 0 {
                assert(c[j] == rest[j - 1]);
            }
        }
        c
    }
}

/// Of more places than there are, two are the same.
proof fn lemma_pigeons(v: Seq<int>, n: nat)
    requires
        v.len() > n,
        forall|i: int| 0 <= i < v.len() ==> 0 <= #[trigger] v[i] < n,
    ensures
        exists|i: int, j: int| 0 <= i < j < v.len() && #[trigger] v[i] == #[trigger] v[j],
{
    if v.no_duplicates() {
        v.unique_seq_to_set();
        lemma_int_range(0, n as int);
        assert(v.to_set().subset_of(set_int_range(0, n as int))) by {
            assert forall|x: int| v.to_set().contains(x) implies set_int_range(
                0,
                n as int,
            ).contains(x) by {
                let i = choose|i: int| 0 <= i < v.len() && v[i] == x;
                assert(0 <= v[i] < n);
            }
        }
        lemma_len_subset(v.to_set(), set_int_range(0, n as int));
    }
    let (i, j) = choose|i: int, j: int|
        0 <= i < v.len() && 0 <= j < v.len() && i != j && v[i] == v[j];
    if i < j {
        assert(v[i] == v[j]);
    } else {
        assert(v[j] == v[i]);
    }
}

/// Where no view rests on itself, every name expands within as many levels as there
/// are views.
proof fn lemma_all_low(views: Seq<ViewV>, n: Seq<char>)
    requires
        acyclic(views),
        hides_none(views),
    ensures
        low(views, n, views.len()),
{
    if !low(views, n, views.len()) {
        let c = lemma_long_chain(views, n, views.len());
        let at = Seq::new(c.len(), |k: int| name_pos(view_names(views), c[k], 0)->0);
        assert forall|k: int| 0 <= k < at.len() implies 0 <= #[trigger] at[k] < views.len() by {
            assert(name_pos(view_names(views), c[k], 0) is Some);
            lemma_name_pos(view_names(views), c[k], 0);
        }
        lemma_pigeons(at, views.len());
        let (a, b) = choose|a: int, b: int|
            0 <= a < b < at.len() && #[trigger] at[a] == #[trigger] at[b];
        assert(name_pos(view_names(views), c[a], 0) is Some);
        assert(name_pos(view_names(views), c[b], 0) is Some);
        lemma_name_pos(view_names(views), c[a], 0);
        lemma_name_pos(view_names(views), c[b], 0);
        assert(same_name(c[b], c[a]));
        let round = c.subrange(a + 1, b + 1);
        assert(round.last() == c[b]);
        assert(rests_on(views, c[a]).contains(c[a + 1]));
        assert(is_chain(views, round)) by {
            assert forall|k: int| 0 <= k < round.len() - 1 implies rests_on(
                views,
                #[trigger] round[k],
            ).contains(round[k + 1]) by {
                assert(round[k] == c[a + 1 + k]);
                assert(round[k + 1] == c[a + 1 + k + 1]);
            }
        }
        assert(chain_between(views, rests_on(views, c[a]), round, c[a]));
        assert(leads_to(views, rests_on(views, c[a]), c[a]));
    }
}

proof fn lemma_deeper(views: Seq<ViewV>, n: Seq<char>, d: nat)
    requires
        low(views, n, d),
    ensures
        low(views, n, d + 1),
    decreases d,
{
    match name_pos(view_names(views), n, 0) {
        None => {},
        Some(i) => {
            let names = query_names(views[i].query);
            assert forall|k: int| 0 <= k < names.len() implies low(views, #[trigger] names[k], d) by {
                assert(low(views, names[k], (d - 1) as nat));
                lemma_deeper(views, names[k], (d - 1) as nat);
            }
        },
    }
}

/// The expansion of views never runs out of depth: where no view rests on itself, a
/// query yields the same with any allowance above the number of views.
pub proof fn law_views_always_expand(w: WorldV, q: SelectV, more: nat)
    requires
        acyclic(w.store.views),
        hides_none(w.store.views),
    ensures
        query_of(w, w.store.views.len() + more, q) == query_of(w, w.store.views.len(), q),
    decreases more,
{
    if more > 0 {
        let views = w.store.views;
        let d = (views.len() + more - 1) as nat;
        law_views_always_expand(w, q, (more - 1) as nat);
        assert(all_low(views, query_names(q), d)) by {
            assert forall|k: int| 0 <= k < query_names(q).len() implies low(
                views,
                #[trigger] query_names(q)[k],
                d,
            ) by {
                lemma_all_low(views, query_names(q)[k]);
                lemma_low_on(views, query_names(q)[k], views.len(), (more - 1) as nat);
            }
        }
        lemma_query(w, d, q);
    }
}

proof fn lemma_low_on(views: Seq<ViewV>, n: Seq<char>, d: nat, more: nat)
    requires
        low(views, n, d),
    ensures
        low(views, n, d + more),
    decreases more,
{
    if more > 0 {
        lemma_low_on(views, n, d, (more - 1) as nat);
        lemma_deeper(views, n, (d + more - 1) as nat);
    }
}

} // verus!
