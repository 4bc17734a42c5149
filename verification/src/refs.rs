//! The relations a query names.
use vstd::prelude::*;
use crate::catalog::strings_view;
use crate::sql::{
    boxed_view, cte_view, ctes_view, exprs_view, items_view, key_view, keys_view, lemma_agg_arg,
    lemma_boxed, lemma_expr_lists, lemma_from, lemma_from_parts, lemma_opt_expr, lemma_select_lists,
    opt_expr_view, opt_from_view, set_op_view, set_ops_view, whens_view, AggArg, AggArgV, CteDef,
    CteV, Expr, ExprV, FromClause, FromV, ItemV, KeyV, OrderKey, SelItem, SelectStmt, SelectV,
    SetOpPart, SetOpV,
};
use crate::text::{names_match, same_name};

verus! {

/// The relations that an expression names in its subqueries.
pub open spec fn expr_names(e: ExprV) -> Seq<Seq<char>>
    decreases e, 0int,
{
    match e {
        ExprV::ScalarSubquery(q) => query_names(*q),
        ExprV::Exists { query, .. } => query_names(*query),
        ExprV::InSubquery { e, query, .. } => expr_names(*e) + query_names(*query),
        ExprV::Binary { l, r, .. } => expr_names(*l) + expr_names(*r),
        ExprV::Unary { e, .. } => expr_names(*e),
        ExprV::IsNull { e, .. } => expr_names(*e),
        ExprV::Cast { e, .. } => expr_names(*e),
        ExprV::Like { e, pattern, escape, .. } => expr_names(*e) + expr_names(*pattern) + box_names(
            escape,
        ),
        ExprV::InList { e, list, .. } => expr_names(*e) + exprs_names(list, list.len() as int),
        ExprV::Between { e, lo, hi, .. } => expr_names(*e) + expr_names(*lo) + expr_names(*hi),
        ExprV::Case { operand, whens, els } => box_names(operand) + whens_names(
            whens,
            whens.len() as int,
        ) + box_names(els),
        ExprV::Func { args, .. } => exprs_names(args, args.len() as int),
        ExprV::Aggregate { arg, sep, .. } => (match arg {
            AggArgV::Expr(x) => expr_names(*x),
            AggArgV::Star => Seq::empty(),
        }) + box_names(sep),
        _ => Seq::empty(),
    }
}

pub open spec fn box_names(o: Option<Box<ExprV>>) -> Seq<Seq<char>>
    decreases o, 0int,
{
    match o {
        Some(e) => expr_names(*e),
        None => Seq::empty(),
    }
}

pub open spec fn opt_names(o: Option<ExprV>) -> Seq<Seq<char>>
    decreases o, 0int,
{
    match o {
        Some(e) => expr_names(e),
        None => Seq::empty(),
    }
}

pub open spec fn source_names(o: Option<FromV>) -> Seq<Seq<char>>
    decreases o, 0int,
{
    match o {
        Some(f) => from_names(f),
        None => Seq::empty(),
    }
}

/// The relations that a source names.
pub open spec fn from_names(f: FromV) -> Seq<Seq<char>>
    decreases f, 0int,
{
    match f {
        FromV::Table { name, .. } => seq![name],
        FromV::Derived { query, .. } => query_names(*query),
        FromV::Join { left, right, on, .. } => from_names(*left) + from_names(*right) + box_names(
            on,
        ),
    }
}

pub open spec fn exprs_names(v: Seq<ExprV>, n: int) -> Seq<Seq<char>>
    decreases v, n,
{
    if n <= 0 || n > v.len() {
        Seq::empty()
    } else {
        exprs_names(v, n - 1) + expr_names(v[n - 1])
    }
}

pub open spec fn whens_names(v: Seq<(ExprV, ExprV)>, n: int) -> Seq<Seq<char>>
    decreases v, n,
{
    if n <= 0 || n > v.len() {
        Seq::empty()
    } else {
        whens_names(v, n - 1) + (expr_names(v[n - 1].0) + expr_names(v[n - 1].1))
    }
}

pub open spec fn ctes_names(v: Seq<CteV>, n: int) -> Seq<Seq<char>>
    decreases v, n,
{
    if n <= 0 || n > v.len() {
        Seq::empty()
    } else {
        ctes_names(v, n - 1) + query_names(*v[n - 1].query)
    }
}

pub open spec fn items_names(v: Seq<ItemV>, n: int) -> Seq<Seq<char>>
    decreases v, n,
{
    if n <= 0 || n > v.len() {
        Seq::empty()
    } else {
        items_names(v, n - 1) + (match v[n - 1] {
            ItemV::Expr { expr, .. } => expr_names(expr),
            ItemV::Star { .. } => Seq::empty(),
        })
    }
}

pub open spec fn keys_names(v: Seq<KeyV>, n: int) -> Seq<Seq<char>>
    decreases v, n,
{
    if n <= 0 || n > v.len() {
        Seq::empty()
    } else {
        keys_names(v, n - 1) + expr_names(v[n - 1].expr)
    }
}

pub open spec fn arms_names(v: Seq<SetOpV>, n: int) -> Seq<Seq<char>>
    decreases v, n,
{
    if n <= 0 || n > v.len() {
        Seq::empty()
    } else {
        arms_names(v, n - 1) + query_names(*v[n - 1].query)
    }
}

/// The relations that a query names, in all its parts.
pub open spec fn query_names(q: SelectV) -> Seq<Seq<char>>
    decreases q, 0int,
{
    ctes_names(q.with, q.with.len() as int) + source_names(q.from) + items_names(
        q.items,
        q.items.len() as int,
    ) + opt_names(q.filter) + exprs_names(q.group_by, q.group_by.len() as int) + opt_names(q.having)
        + keys_names(q.order_by, q.order_by.len() as int) + arms_names(
        q.set_ops,
        q.set_ops.len() as int,
    )
}

pub open spec fn bound_by(ctes: Seq<CteV>, name: Seq<char>) -> bool {
    exists|k: int| 0 <= k < ctes.len() && same_name(#[trigger] ctes[k].name, name)
}

pub open spec fn unbound_from(names: Seq<Seq<char>>, ctes: Seq<CteV>, i: int, acc: Seq<Seq<char>>) -> Seq<
    Seq<char>,
>
    decreases names.len() - i,
{
    if i < 0 || i >= names.len() {
        acc
    } else if bound_by(ctes, names[i]) {
        unbound_from(names, ctes, i + 1, acc)
    } else {
        unbound_from(names, ctes, i + 1, acc.push(names[i]))
    }
}

/// The relations outside a query that it names: not those of its own `WITH`.
pub open spec fn outer_names(q: SelectV) -> Seq<Seq<char>> {
    unbound_from(query_names(q), q.with, 0, Seq::empty())
}

proof fn lemma_joined(o: Seq<Seq<char>>, a: Seq<Seq<char>>, b: Seq<Seq<char>>)
    ensures
        o + a + b == o + (a + b),
{
    assert(o + a + b =~= o + (a + b));
}

fn collect_exprs(v: &Vec<Expr>, out: &mut Vec<String>)
    ensures
        strings_view(final(out)@) == strings_view(old(out)@) + exprs_names(exprs_view(v@), v@.len() as int),
    decreases v, 0int,
{
    let ghost vv = exprs_view(v@);
    let ghost o0 = strings_view(out@);
    let mut i: usize = 0;
    assert(o0 + exprs_names(vv, 0) =~= o0);
    while i < v.len()
        invariant
            i <= v.len(),
            vv == exprs_view(v@),
            o0 == strings_view(old(out)@),
            strings_view(out@) == o0 + exprs_names(vv, i as int),
        decreases v.len() - i,
    {
        assert(vv[i as int] == v@[i as int]@);
        collect_expr_refs(&v[i], out);
        assert(strings_view(out@) =~= o0 + exprs_names(vv, i + 1));
        i += 1;
    }
}

fn collect_whens(v: &Vec<(Expr, Expr)>, out: &mut Vec<String>)
    ensures
        strings_view(final(out)@) == strings_view(old(out)@) + whens_names(whens_view(v@), v@.len() as int),
    decreases v, 0int,
{
    let ghost vv = whens_view(v@);
    let ghost o0 = strings_view(out@);
    let mut i: usize = 0;
    assert(o0 + whens_names(vv, 0) =~= o0);
    while i < v.len()
        invariant
            i <= v.len(),
            vv == whens_view(v@),
            o0 == strings_view(old(out)@),
            strings_view(out@) == o0 + whens_names(vv, i as int),
        decreases v.len() - i,
    {
        assert(vv[i as int] == (v@[i as int].0@, v@[i as int].1@));
        assert(decreases_to!(v => v@[i as int]));
        collect_expr_refs(&v[i].0, out);
        collect_expr_refs(&v[i].1, out);
        assert(strings_view(out@) =~= o0 + whens_names(vv, i + 1));
        i += 1;
    }
}

fn collect_ctes(v: &Vec<CteDef>, out: &mut Vec<String>)
    ensures
        strings_view(final(out)@) == strings_view(old(out)@) + ctes_names(ctes_view(v@), v@.len() as int),
    decreases v, 0int,
{
    let ghost vv = ctes_view(v@);
    let ghost o0 = strings_view(out@);
    let mut i: usize = 0;
    assert(o0 + ctes_names(vv, 0) =~= o0);
    while i < v.len()
        invariant
            i <= v.len(),
            vv == ctes_view(v@),
            o0 == strings_view(old(out)@),
            strings_view(out@) == o0 + ctes_names(vv, i as int),
        decreases v.len() - i,
    {
        assert(vv[i as int] == cte_view(v@[i as int]));
        assert(decreases_to!(v => v@[i as int]));
        collect_select_refs(&v[i].query, out);
        assert(strings_view(out@) =~= o0 + ctes_names(vv, i + 1));
        i += 1;
    }
}

fn collect_items(v: &Vec<SelItem>, out: &mut Vec<String>)
    ensures
        strings_view(final(out)@) == strings_view(old(out)@) + items_names(items_view(v@), v@.len() as int),
    decreases v, 0int,
{
    let ghost vv = items_view(v@);
    let ghost o0 = strings_view(out@);
    let mut i: usize = 0;
    assert(o0 + items_names(vv, 0) =~= o0);
    while i < v.len()
        invariant
            i <= v.len(),
            vv == items_view(v@),
            o0 == strings_view(old(out)@),
            strings_view(out@) == o0 + items_names(vv, i as int),
        decreases v.len() - i,
    {
        assert(vv[i as int] == v@[i as int]@);
        assert(decreases_to!(v => v@[i as int]));
        if let SelItem::Expr { expr, .. } = &v[i] {
            collect_expr_refs(expr, out);
        }
        assert(strings_view(out@) =~= o0 + items_names(vv, i + 1));
        i += 1;
    }
}

fn collect_keys(v: &Vec<OrderKey>, out: &mut Vec<String>)
    ensures
        strings_view(final(out)@) == strings_view(old(out)@) + keys_names(keys_view(v@), v@.len() as int),
    decreases v, 0int,
{
    let ghost vv = keys_view(v@);
    let ghost o0 = strings_view(out@);
    let mut i: usize = 0;
    assert(o0 + keys_names(vv, 0) =~= o0);
    while i < v.len()
        invariant
            i <= v.len(),
            vv == keys_view(v@),
            o0 == strings_view(old(out)@),
            strings_view(out@) == o0 + keys_names(vv, i as int),
        decreases v.len() - i,
    {
        assert(vv[i as int] == key_view(v@[i as int]));
        assert(decreases_to!(v => v@[i as int]));
        collect_expr_refs(&v[i].expr, out);
        assert(strings_view(out@) =~= o0 + keys_names(vv, i + 1));
        i += 1;
    }
}

fn collect_arms(v: &Vec<SetOpPart>, out: &mut Vec<String>)
    ensures
        strings_view(final(out)@) == strings_view(old(out)@) + arms_names(set_ops_view(v@), v@.len() as int),
    decreases v, 0int,
{
    let ghost vv = set_ops_view(v@);
    let ghost o0 = strings_view(out@);
    let mut i: usize = 0;
    assert(o0 + arms_names(vv, 0) =~= o0);
    while i < v.len()
        invariant
            i <= v.len(),
            vv == set_ops_view(v@),
            o0 == strings_view(old(out)@),
            strings_view(out@) == o0 + arms_names(vv, i as int),
        decreases v.len() - i,
    {
        assert(vv[i as int] == set_op_view(v@[i as int]));
        assert(decreases_to!(v => v@[i as int]));
        collect_select_refs(&v[i].query, out);
        assert(strings_view(out@) =~= o0 + arms_names(vv, i + 1));
        i += 1;
    }
}

fn collect_box(o: &Option<Box<Expr>>, out: &mut Vec<String>)
    ensures
        strings_view(final(out)@) == strings_view(old(out)@) + box_names(boxed_view(*o)),
    decreases o, 0int,
{
    proof {
        lemma_boxed(*o);
    }
    match o {
        Some(e) => collect_expr_refs(e, out),
        None => {
            assert(strings_view(out@) + Seq::<Seq<char>>::empty() =~= strings_view(out@));
        },
    }
}

fn collect_opt(o: &Option<Expr>, out: &mut Vec<String>)
    ensures
        strings_view(final(out)@) == strings_view(old(out)@) + opt_names(opt_expr_view(*o)),
    decreases o, 0int,
{
    proof {
        lemma_opt_expr(*o);
    }
    match o {
        Some(e) => collect_expr_refs(e, out),
        None => {
            assert(strings_view(out@) + Seq::<Seq<char>>::empty() =~= strings_view(out@));
        },
    }
}

fn collect_source(o: &Option<FromClause>, out: &mut Vec<String>)
    ensures
        strings_view(final(out)@) == strings_view(old(out)@) + source_names(opt_from_view(*o)),
    decreases o, 0int,
{
    proof {
        lemma_from(*o);
    }
    match o {
        Some(e) => collect_from_refs(e, out),
        None => {
            assert(strings_view(out@) + Seq::<Seq<char>>::empty() =~= strings_view(out@));
        },
    }
}

fn collect_from_refs(f: &FromClause, out: &mut Vec<String>)
    ensures
        strings_view(final(out)@) == strings_view(old(out)@) + from_names(f@),
    decreases f, 0int,
{
    let ghost o0 = strings_view(out@);
    proof {
        lemma_from_parts(*f);
    }
    match f {
        FromClause::Table { name, .. } => {
            let n = name.clone();
            out.push(n);
            assert(strings_view(out@) =~= o0 + seq![name@]);
        },
        FromClause::Derived { query, .. } => {
            collect_select_refs(query, out);
        },
        FromClause::Join { left, right, on, .. } => {
            collect_from_refs(left, out);
            collect_from_refs(right, out);
            collect_box(on, out);
            assert(strings_view(out@) =~= o0 + from_names(f@));
        },
    }
}

fn collect_expr_refs(e: &Expr, out: &mut Vec<String>)
    ensures
        strings_view(final(out)@) == strings_view(old(out)@) + expr_names(e@),
    decreases e, 0int,
{
    let ghost o0 = strings_view(out@);
    proof {
        lemma_expr_lists(*e);
    }
    match e {
        Expr::ScalarSubquery(q) => {
            collect_select_refs(q, out);
        },
        Expr::Exists { query, .. } => {
            collect_select_refs(query, out);
        },
        Expr::InSubquery { e, query, .. } => {
            collect_expr_refs(e, out);
            collect_select_refs(query, out);
        },
        Expr::Binary { l, r, .. } => {
            collect_expr_refs(l, out);
            collect_expr_refs(r, out);
        },
        Expr::Unary { e, .. } => {
            collect_expr_refs(e, out);
        },
        Expr::IsNull { e, .. } => {
            collect_expr_refs(e, out);
        },
        Expr::Cast { e, .. } => {
            collect_expr_refs(e, out);
        },
        Expr::Like { e, pattern, escape, .. } => {
            collect_expr_refs(e, out);
            collect_expr_refs(pattern, out);
            collect_box(escape, out);
        },
        Expr::InList { e, list, .. } => {
            collect_expr_refs(e, out);
            collect_exprs(list, out);
        },
        Expr::Between { e, lo, hi, .. } => {
            collect_expr_refs(e, out);
            collect_expr_refs(lo, out);
            collect_expr_refs(hi, out);
        },
        Expr::Case { operand, whens, els } => {
            collect_box(operand, out);
            collect_whens(whens, out);
            collect_box(els, out);
        },
        Expr::Func { args, .. } => {
            collect_exprs(args, out);
        },
        Expr::Aggregate { arg, sep, .. } => {
            proof {
                lemma_agg_arg(*arg);
            }
            if let AggArg::Expr(x) = arg {
                collect_expr_refs(x, out);
            }
            collect_box(sep, out);
        },
        _ => {},
    }
    assert(strings_view(out@) =~= o0 + expr_names(e@));
}

fn collect_select_refs(sel: &SelectStmt, out: &mut Vec<String>)
    ensures
        strings_view(final(out)@) == strings_view(old(out)@) + query_names(sel@),
    decreases sel, 0int,
{
    let ghost o0 = strings_view(out@);
    proof {
        lemma_select_lists(*sel);
    }
    let ghost q = sel@;
    collect_ctes(&sel.with, out);
    let ghost n0 = ctes_names(q.with, q.with.len() as int);
    collect_source(&sel.from, out);
    let ghost p1 = source_names(q.from);
    let ghost n1 = n0 + p1;
    proof {
        lemma_joined(o0, n0, p1);
    }
    collect_items(&sel.items, out);
    let ghost p2 = items_names(q.items, q.items.len() as int);
    let ghost n2 = n1 + p2;
    proof {
        lemma_joined(o0, n1, p2);
    }
    collect_opt(&sel.filter, out);
    let ghost p3 = opt_names(q.filter);
    let ghost n3 = n2 + p3;
    proof {
        lemma_joined(o0, n2, p3);
    }
    collect_exprs(&sel.group_by, out);
    let ghost p4 = exprs_names(q.group_by, q.group_by.len() as int);
    let ghost n4 = n3 + p4;
    proof {
        lemma_joined(o0, n3, p4);
    }
    collect_opt(&sel.having, out);
    let ghost p5 = opt_names(q.having);
    let ghost n5 = n4 + p5;
    proof {
        lemma_joined(o0, n4, p5);
    }
    collect_keys(&sel.order_by, out);
    let ghost p6 = keys_names(q.order_by, q.order_by.len() as int);
    let ghost n6 = n5 + p6;
    proof {
        lemma_joined(o0, n5, p6);
    }
    collect_arms(&sel.set_ops, out);
    let ghost p7 = arms_names(q.set_ops, q.set_ops.len() as int);
    let ghost n7 = n6 + p7;
    proof {
        lemma_joined(o0, n6, p7);
    }
    assert(query_names(q) == n7);
}

fn is_bound(ctes: &Vec<CteDef>, name: &str) -> (r: bool)
    ensures
        r == bound_by(ctes_view(ctes@), name@),
{
    let ghost cv = ctes_view(ctes@);
    let mut i: usize = 0;
    while i < ctes.len()
        invariant
            i <= ctes.len(),
            cv == ctes_view(ctes@),
            forall|k: int| 0 <= k < i ==> !same_name(#[trigger] cv[k].name, name@),
        decreases ctes.len() - i,
    {
        assert(cv[i as int] == cte_view(ctes@[i as int]));
        if names_match(&ctes[i].name, name) {
            assert(same_name(cv[i as int].name, name@));
            return true;
        }
        i += 1;
    }
    false
}

/// The relations outside a query that it names.
pub fn referenced_relations(sel: &SelectStmt) -> (r: Vec<String>)
    ensures
        strings_view(r@) == outer_names(sel@),
{
    let mut all: Vec<String> = Vec::new();
    assert(strings_view(all@) =~= Seq::<Seq<char>>::empty());
    collect_select_refs(sel, &mut all);
    proof {
        lemma_select_lists(*sel);
        assert(Seq::<Seq<char>>::empty() + query_names(sel@) =~= query_names(sel@));
    }
    let ghost nv = query_names(sel@);
    let mut out: Vec<String> = Vec::new();
    assert(strings_view(out@) =~= Seq::<Seq<char>>::empty());
    let mut i: usize = 0;
    while i < all.len()
        invariant
            i <= all.len(),
            nv == strings_view(all@),
            sel@.with == ctes_view(sel.with@),
            unbound_from(nv, sel@.with, i as int, strings_view(out@)) == unbound_from(
                nv,
                sel@.with,
                0,
                Seq::empty(),
            ),
        decreases all.len() - i,
    {
        assert(nv[i as int] == all@[i as int]@);
        if !is_bound(&sel.with, &all[i]) {
            let ghost before = strings_view(out@);
            let n = all[i].clone();
            out.push(n);
            assert(strings_view(out@) =~= before.push(nv[i as int]));
        }
        i += 1;
    }
    out
}

} // verus!
