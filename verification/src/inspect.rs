//! Questions about the shape of expressions and queries.
use vstd::prelude::*;
use crate::catalog::opt_text;
use crate::sorting::{sort_keys_view, SortKey};
use crate::sql::{
    boxed_view, exprs_view, items_view, keys_view, lemma_agg_arg, lemma_boxed, lemma_expr_lists,
    lemma_from, lemma_from_parts, lemma_select_lists, opt_expr_view, whens_view, AggArg, AggArgV,
    Expr, ExprV, FromClause, FromV, ItemV, KeyV, OrderKey, SelItem, SelectStmt, SelectV,
};
use crate::text::{names_match, same_name};

verus! {

// ---- subqueries ----------------------------------------------------------------------------------

/// Whether an expression holds a subquery anywhere.
pub open spec fn has_subquery(e: ExprV) -> bool
    decreases e, 0int,
{
    match e {
        ExprV::ScalarSubquery(_) | ExprV::Exists { .. } | ExprV::InSubquery { .. } => true,
        ExprV::Cast { e, .. } | ExprV::Unary { e, .. } | ExprV::IsNull { e, .. } => has_subquery(
            *e,
        ),
        ExprV::Binary { l, r, .. } => has_subquery(*l) || has_subquery(*r),
        ExprV::Like { e, pattern, escape, .. } => has_subquery(*e) || has_subquery(*pattern)
            || opt_subquery(escape),
        ExprV::InList { e, list, .. } => has_subquery(*e) || any_subquery(list, 0),
        ExprV::Between { e, lo, hi, .. } => has_subquery(*e) || has_subquery(*lo) || has_subquery(
            *hi,
        ),
        ExprV::Case { operand, whens, els } => opt_subquery(operand) || whens_subquery(whens, 0)
            || opt_subquery(els),
        ExprV::Func { args, .. } => any_subquery(args, 0),
        ExprV::Aggregate { arg, sep, .. } => (match arg {
            AggArgV::Expr(x) => has_subquery(*x),
            AggArgV::Star => false,
        }) || opt_subquery(sep),
        _ => false,
    }
}

pub open spec fn opt_subquery(o: Option<Box<ExprV>>) -> bool
    decreases o, 0int,
{
    match o {
        Some(e) => has_subquery(*e),
        None => false,
    }
}

/// Whether any expression from `i` on holds a subquery.
pub open spec fn any_subquery(list: Seq<ExprV>, i: int) -> bool
    decreases list, list.len() - i,
{
    if i < 0 || i >= list.len() {
        false
    } else {
        has_subquery(list[i]) || any_subquery(list, i + 1)
    }
}

pub open spec fn whens_subquery(whens: Seq<(ExprV, ExprV)>, i: int) -> bool
    decreases whens, whens.len() - i,
{
    if i < 0 || i >= whens.len() {
        false
    } else {
        has_subquery(whens[i].0) || has_subquery(whens[i].1) || whens_subquery(whens, i + 1)
    }
}

fn any_has_subquery(list: &Vec<Expr>) -> (r: bool)
    ensures
        r == any_subquery(exprs_view(list@), 0),
    decreases list, 0int,
{
    let ghost lv = exprs_view(list@);
    let mut i: usize = 0;
    while i < list.len()
        invariant
            i <= list.len(),
            lv == exprs_view(list@),
            any_subquery(lv, i as int) == any_subquery(lv, 0),
        decreases list.len() - i,
    {
        assert(lv[i as int] == list@[i as int]@);
        if expr_has_subquery(&list[i]) {
            return true;
        }
        i += 1;
    }
    false
}

fn whens_have_subquery(whens: &Vec<(Expr, Expr)>) -> (r: bool)
    ensures
        r == whens_subquery(whens_view(whens@), 0),
    decreases whens, 0int,
{
    let ghost wv = whens_view(whens@);
    let mut i: usize = 0;
    while i < whens.len()
        invariant
            i <= whens.len(),
            wv == whens_view(whens@),
            whens_subquery(wv, i as int) == whens_subquery(wv, 0),
        decreases whens.len() - i,
    {
        assert(wv[i as int] == (whens@[i as int].0@, whens@[i as int].1@));
        assert(decreases_to!(whens => whens@[i as int]));
        if expr_has_subquery(&whens[i].0) || expr_has_subquery(&whens[i].1) {
            return true;
        }
        i += 1;
    }
    false
}

fn opt_has_subquery(o: &Option<Box<Expr>>) -> (r: bool)
    ensures
        r == opt_subquery(boxed_view(*o)),
    decreases o, 0int,
{
    proof {
        lemma_boxed(*o);
    }
    match o {
        Some(e) => expr_has_subquery(e),
        None => false,
    }
}

/// Whether an expression holds a subquery anywhere.
pub fn expr_has_subquery(e: &Expr) -> (r: bool)
    ensures
        r == has_subquery(e@),
    decreases e, 0int,
{
    proof {
        lemma_expr_lists(*e);
    }
    match e {
        Expr::ScalarSubquery(_) | Expr::Exists { .. } | Expr::InSubquery { .. } => true,
        Expr::Cast { e, .. } => expr_has_subquery(e),
        Expr::Unary { e, .. } => expr_has_subquery(e),
        Expr::IsNull { e, .. } => expr_has_subquery(e),
        Expr::Binary { l, r, .. } => expr_has_subquery(l) || expr_has_subquery(r),
        Expr::Like { e, pattern, escape, .. } => expr_has_subquery(e) || expr_has_subquery(pattern)
            || opt_has_subquery(escape),
        Expr::InList { e, list, .. } => expr_has_subquery(e) || any_has_subquery(list),
        Expr::Between { e, lo, hi, .. } => expr_has_subquery(e) || expr_has_subquery(lo)
            || expr_has_subquery(hi),
        Expr::Case { operand, whens, els } => opt_has_subquery(operand) || whens_have_subquery(
            whens,
        ) || opt_has_subquery(els),
        Expr::Func { args, .. } => any_has_subquery(args),
        Expr::Aggregate { arg, sep, .. } => {
            proof {
                lemma_agg_arg(*arg);
            }
            let inner = match arg {
                AggArg::Expr(x) => expr_has_subquery(x),
                AggArg::Star => false,
            };
            inner || opt_has_subquery(sep)
        },
        _ => false,
    }
}

// ---- aggregates ----------------------------------------------------------------------------------

/// Whether an expression holds an aggregate call anywhere.
pub open spec fn has_aggregate(e: ExprV) -> bool
    decreases e, 0int,
{
    match e {
        ExprV::Aggregate { .. } => true,
        ExprV::Cast { e, .. } | ExprV::Unary { e, .. } | ExprV::IsNull { e, .. } => has_aggregate(
            *e,
        ),
        ExprV::Binary { l, r, .. } => has_aggregate(*l) || has_aggregate(*r),
        ExprV::Like { e, pattern, .. } => has_aggregate(*e) || has_aggregate(*pattern),
        ExprV::Func { args, .. } => any_aggregate(args, 0),
        ExprV::InList { e, list, .. } => has_aggregate(*e) || any_aggregate(list, 0),
        ExprV::Between { e, lo, hi, .. } => has_aggregate(*e) || has_aggregate(*lo)
            || has_aggregate(*hi),
        ExprV::Case { operand, whens, els } => opt_aggregate(operand) || whens_aggregate(whens, 0)
            || opt_aggregate(els),
        _ => false,
    }
}

pub open spec fn opt_aggregate(o: Option<Box<ExprV>>) -> bool
    decreases o, 0int,
{
    match o {
        Some(e) => has_aggregate(*e),
        None => false,
    }
}

pub open spec fn any_aggregate(list: Seq<ExprV>, i: int) -> bool
    decreases list, list.len() - i,
{
    if i < 0 || i >= list.len() {
        false
    } else {
        has_aggregate(list[i]) || any_aggregate(list, i + 1)
    }
}

pub open spec fn whens_aggregate(whens: Seq<(ExprV, ExprV)>, i: int) -> bool
    decreases whens, whens.len() - i,
{
    if i < 0 || i >= whens.len() {
        false
    } else {
        has_aggregate(whens[i].0) || has_aggregate(whens[i].1) || whens_aggregate(whens, i + 1)
    }
}

fn any_has_aggregate(list: &Vec<Expr>) -> (r: bool)
    ensures
        r == any_aggregate(exprs_view(list@), 0),
    decreases list, 0int,
{
    let ghost lv = exprs_view(list@);
    let mut i: usize = 0;
    while i < list.len()
        invariant
            i <= list.len(),
            lv == exprs_view(list@),
            any_aggregate(lv, i as int) == any_aggregate(lv, 0),
        decreases list.len() - i,
    {
        assert(lv[i as int] == list@[i as int]@);
        if expr_has_aggregate(&list[i]) {
            return true;
        }
        i += 1;
    }
    false
}

fn whens_have_aggregate(whens: &Vec<(Expr, Expr)>) -> (r: bool)
    ensures
        r == whens_aggregate(whens_view(whens@), 0),
    decreases whens, 0int,
{
    let ghost wv = whens_view(whens@);
    let mut i: usize = 0;
    while i < whens.len()
        invariant
            i <= whens.len(),
            wv == whens_view(whens@),
            whens_aggregate(wv, i as int) == whens_aggregate(wv, 0),
        decreases whens.len() - i,
    {
        assert(wv[i as int] == (whens@[i as int].0@, whens@[i as int].1@));
        assert(decreases_to!(whens => whens@[i as int]));
        if expr_has_aggregate(&whens[i].0) || expr_has_aggregate(&whens[i].1) {
            return true;
        }
        i += 1;
    }
    false
}

fn opt_has_aggregate(o: &Option<Box<Expr>>) -> (r: bool)
    ensures
        r == opt_aggregate(boxed_view(*o)),
    decreases o, 0int,
{
    proof {
        lemma_boxed(*o);
    }
    match o {
        Some(e) => expr_has_aggregate(e),
        None => false,
    }
}

/// Whether an expression holds an aggregate call anywhere.
pub fn expr_has_aggregate(e: &Expr) -> (r: bool)
    ensures
        r == has_aggregate(e@),
    decreases e, 0int,
{
    proof {
        lemma_expr_lists(*e);
    }
    match e {
        Expr::Aggregate { .. } => true,
        Expr::Cast { e, .. } => expr_has_aggregate(e),
        Expr::Unary { e, .. } => expr_has_aggregate(e),
        Expr::IsNull { e, .. } => expr_has_aggregate(e),
        Expr::Binary { l, r, .. } => expr_has_aggregate(l) || expr_has_aggregate(r),
        Expr::Like { e, pattern, .. } => expr_has_aggregate(e) || expr_has_aggregate(pattern),
        Expr::Func { args, .. } => any_has_aggregate(args),
        Expr::InList { e, list, .. } => expr_has_aggregate(e) || any_has_aggregate(list),
        Expr::Between { e, lo, hi, .. } => expr_has_aggregate(e) || expr_has_aggregate(lo)
            || expr_has_aggregate(hi),
        Expr::Case { operand, whens, els } => opt_has_aggregate(operand) || whens_have_aggregate(
            whens,
        ) || opt_has_aggregate(els),
        _ => false,
    }
}

// ---- queries -------------------------------------------------------------------------------------

/// Whether a select item from `i` on holds a subquery.
pub open spec fn items_subquery(items: Seq<ItemV>, i: int) -> bool
    decreases items.len() - i,
{
    if i < 0 || i >= items.len() {
        false
    } else {
        (match items[i] {
            ItemV::Expr { expr, .. } => has_subquery(expr),
            ItemV::Star { .. } => false,
        }) || items_subquery(items, i + 1)
    }
}

pub open spec fn keys_subquery(keys: Seq<KeyV>, i: int) -> bool
    decreases keys.len() - i,
{
    if i < 0 || i >= keys.len() {
        false
    } else {
        has_subquery(keys[i].expr) || keys_subquery(keys, i + 1)
    }
}

pub open spec fn filter_subquery(f: Option<ExprV>) -> bool {
    match f {
        Some(e) => has_subquery(e),
        None => false,
    }
}

/// Whether a clause of a query holds a subquery.
pub open spec fn query_subquery(s: SelectV) -> bool {
    items_subquery(s.items, 0) || filter_subquery(s.filter) || any_subquery(s.group_by, 0)
        || filter_subquery(s.having) || keys_subquery(s.order_by, 0)
}

/// Whether a query reads more than one plain table, or holds a subquery.
pub open spec fn relational(s: SelectV) -> bool {
    s.with.len() > 0 || s.distinct || s.set_ops.len() > 0 || (match s.from {
        Some(FromV::Join { .. }) | Some(FromV::Derived { .. }) => true,
        _ => false,
    }) || query_subquery(s)
}

/// Whether any select item from `i` on folds an aggregate.
pub open spec fn items_aggregate(items: Seq<ItemV>, i: int) -> bool
    decreases items.len() - i,
{
    if i < 0 || i >= items.len() {
        false
    } else {
        (match items[i] {
            ItemV::Expr { expr, .. } => has_aggregate(expr),
            ItemV::Star { .. } => false,
        }) || items_aggregate(items, i + 1)
    }
}

/// Whether a query is aggregated: grouped, with a `HAVING`, or folding.
pub open spec fn aggregated(
    items: Seq<ItemV>,
    group_by: Seq<ExprV>,
    having: Option<ExprV>,
) -> bool {
    group_by.len() > 0 || having is Some || items_aggregate(items, 0)
}

fn opt_expr_has_subquery(o: &Option<Expr>) -> (r: bool)
    ensures
        r == filter_subquery(opt_expr_view(*o)),
{
    match o {
        Some(e) => expr_has_subquery(e),
        None => false,
    }
}

/// Whether a clause of a query holds a subquery.
pub fn select_has_subquery(sel: &SelectStmt) -> (r: bool)
    ensures
        r == query_subquery(sel@),
{
    proof {
        lemma_select_lists(*sel);
    }
    let ghost iv = items_view(sel.items@);
    let mut i: usize = 0;
    while i < sel.items.len()
        invariant
            i <= sel.items.len(),
            iv == items_view(sel.items@),
            sel@.items == iv,
            items_subquery(iv, i as int) == items_subquery(iv, 0),
        decreases sel.items.len() - i,
    {
        assert(iv[i as int] == sel.items@[i as int]@);
        match &sel.items[i] {
            SelItem::Expr { expr, .. } => if expr_has_subquery(expr) {
                return true;
            },
            SelItem::Star { .. } => {},
        }
        i += 1;
    }
    if opt_expr_has_subquery(&sel.filter) || any_has_subquery(&sel.group_by)
        || opt_expr_has_subquery(&sel.having) {
        return true;
    }
    let ghost kv = keys_view(sel.order_by@);
    let mut k: usize = 0;
    while k < sel.order_by.len()
        invariant
            k <= sel.order_by.len(),
            kv == keys_view(sel.order_by@),
            sel@.order_by == kv,
            keys_subquery(kv, k as int) == keys_subquery(kv, 0),
        decreases sel.order_by.len() - k,
    {
        assert(kv[k as int] == crate::sql::key_view(sel.order_by@[k as int]));
        if expr_has_subquery(&sel.order_by[k].expr) {
            return true;
        }
        k += 1;
    }
    false
}

/// Whether a query needs the executor for several sources.
pub fn needs_relational(sel: &SelectStmt) -> (r: bool)
    ensures
        r == relational(sel@),
{
    proof {
        lemma_select_lists(*sel);
        lemma_from(sel.from);
        if sel.from is Some {
            lemma_from_parts(sel.from->Some_0);
        }
    }
    let several = match &sel.from {
        Some(FromClause::Join { .. }) => true,
        Some(FromClause::Derived { .. }) => true,
        _ => false,
    };
    sel.with.len() > 0 || sel.distinct || sel.set_ops.len() > 0 || several || select_has_subquery(
        sel,
    )
}

/// Whether a query is aggregated.
pub fn is_aggregated(items: &Vec<SelItem>, group_by: &Vec<Expr>, having: &Option<Expr>) -> (r: bool)
    ensures
        r == aggregated(items_view(items@), exprs_view(group_by@), opt_expr_view(*having)),
{
    if group_by.len() > 0 || having.is_some() {
        return true;
    }
    let ghost iv = items_view(items@);
    let mut i: usize = 0;
    while i < items.len()
        invariant
            i <= items.len(),
            iv == items_view(items@),
            items_aggregate(iv, i as int) == items_aggregate(iv, 0),
        decreases items.len() - i,
    {
        assert(iv[i as int] == items@[i as int]@);
        match &items[i] {
            SelItem::Expr { expr, .. } => if expr_has_aggregate(expr) {
                return true;
            },
            SelItem::Star { .. } => {},
        }
        i += 1;
    }
    false
}

// ---- aliases in ORDER BY ---------------------------------------------------------------------

/// The expression that an output alias from item `i` on stands for.
pub open spec fn alias_target(items: Seq<ItemV>, name: Seq<char>, i: int) -> Option<ExprV>
    decreases items.len() - i,
{
    if i < 0 || i >= items.len() {
        None
    } else {
        match items[i] {
            ItemV::Expr { expr, alias: Some(a) } => if same_name(a, name) {
                Some(expr)
            } else {
                alias_target(items, name, i + 1)
            },
            _ => alias_target(items, name, i + 1),
        }
    }
}

/// An order key's expression: a bare column that names an output alias is that
/// item's expression.
pub open spec fn dealiased(items: Seq<ItemV>, e: ExprV) -> ExprV {
    match e {
        ExprV::Column(n) => match alias_target(items, n, 0) {
            Some(x) => x,
            None => e,
        },
        _ => e,
    }
}

pub open spec fn dealiased_keys(items: Seq<ItemV>, keys: Seq<KeyV>) -> Seq<KeyV> {
    Seq::new(keys.len(), |i: int| KeyV { expr: dealiased(items, keys[i].expr), ..keys[i] })
}

pub fn resolve_alias<'a>(items: &'a Vec<SelItem>, expr: &'a Expr) -> (r: &'a Expr)
    ensures
        r@ == dealiased(items_view(items@), expr@),
{
    match expr {
        Expr::Column(name) => {
            let ghost iv = items_view(items@);
            let mut i: usize = 0;
            while i < items.len()
                invariant
                    i <= items.len(),
                    iv == items_view(items@),
                    expr@ == ExprV::Column(name@),
                    alias_target(iv, name@, i as int) == alias_target(iv, name@, 0),
                decreases items.len() - i,
            {
                assert(iv[i as int] == items@[i as int]@);
                match &items[i] {
                    SelItem::Expr { expr: e, alias } => {
                        assert(iv[i as int] == (ItemV::Expr {
                            expr: e@,
                            alias: opt_text(*alias),
                        }));
                        match alias {
                            Some(a) => if names_match(a, name) {
                                return e;
                            },
                            None => {},
                        }
                    },
                    SelItem::Star { .. } => {},
                }
                i += 1;
            }
            expr
        },
        _ => expr,
    }
}

/// The order keys of a query, aliases resolved.
pub fn resolved_order_keys<'a>(items: &'a Vec<SelItem>, keys: &'a Vec<OrderKey>) -> (r: Vec<
    SortKey<'a>,
>)
    ensures
        sort_keys_view(r@) == dealiased_keys(items_view(items@), keys_view(keys@)),
{
    let ghost iv = items_view(items@);
    let ghost kv = keys_view(keys@);
    let mut out: Vec<SortKey<'a>> = Vec::new();
    let mut i: usize = 0;
    while i < keys.len()
        invariant
            i <= keys.len(),
            iv == items_view(items@),
            kv == keys_view(keys@),
            out.len() == i,
            forall|k: int|
                0 <= k < i ==> (#[trigger] out@[k]).expr@ == dealiased(iv, kv[k].expr)
                    && out@[k].asc == kv[k].asc && out@[k].nulls_first == kv[k].nulls_first,
        decreases keys.len() - i,
    {
        assert(kv[i as int] == crate::sql::key_view(keys@[i as int]));
        let e = resolve_alias(items, &keys[i].expr);
        out.push(SortKey { expr: e, asc: keys[i].asc, nulls_first: keys[i].nulls_first });
        i += 1;
    }
    assert(sort_keys_view(out@) =~= dealiased_keys(iv, kv));
    out
}

} // verus!
