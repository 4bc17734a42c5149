//! Building expressions out of parts.
use vstd::prelude::*;
use crate::sql::{
    exprs_view, lemma_agg_arg, lemma_boxed, lemma_expr_lists, whens_view, AggArg, AggArgV, AggFunc,
    BinOp, CastTarget, Expr, ExprV, SelectStmt, UnOp,
};

verus! {

pub fn make_binary(op: BinOp, l: Expr, r: Expr) -> (e: Expr)
    ensures
        e@ == (ExprV::Binary { op, l: Box::new(l@), r: Box::new(r@) }),
{
    Expr::Binary { op, l: Box::new(l), r: Box::new(r) }
}

pub fn make_unary(op: UnOp, x: Expr) -> (e: Expr)
    ensures
        e@ == (ExprV::Unary { op, e: Box::new(x@) }),
{
    Expr::Unary { op, e: Box::new(x) }
}

pub fn make_is_null(x: Expr, negated: bool) -> (e: Expr)
    ensures
        e@ == (ExprV::IsNull { e: Box::new(x@), negated }),
{
    Expr::IsNull { e: Box::new(x), negated }
}

pub fn make_cast(x: Expr, target: CastTarget) -> (e: Expr)
    ensures
        e@ == (ExprV::Cast { e: Box::new(x@), target }),
{
    Expr::Cast { e: Box::new(x), target }
}

pub fn make_between(x: Expr, lo: Expr, hi: Expr, negated: bool) -> (e: Expr)
    ensures
        e@ == (ExprV::Between {
            e: Box::new(x@),
            lo: Box::new(lo@),
            hi: Box::new(hi@),
            negated,
        }),
{
    Expr::Between { e: Box::new(x), lo: Box::new(lo), hi: Box::new(hi), negated }
}

pub fn make_like(
    x: Expr,
    pattern: Expr,
    escape: Option<Expr>,
    negated: bool,
    insensitive: bool,
) -> (e: Expr)
    ensures
        e@ == (ExprV::Like {
            e: Box::new(x@),
            pattern: Box::new(pattern@),
            escape: match escape {
                Some(c) => Some(Box::new(c@)),
                None => None,
            },
            negated,
            insensitive,
        }),
{
    let esc = match escape {
        Some(c) => Some(Box::new(c)),
        None => None,
    };
    proof {
        lemma_boxed(esc);
    }
    Expr::Like { e: Box::new(x), pattern: Box::new(pattern), escape: esc, negated, insensitive }
}

pub fn make_in_list(x: Expr, list: Vec<Expr>, negated: bool) -> (e: Expr)
    ensures
        e@ == (ExprV::InList { e: Box::new(x@), list: exprs_view(list@), negated }),
{
    let out = Expr::InList { e: Box::new(x), list, negated };
    proof {
        lemma_expr_lists(out);
    }
    out
}

pub fn make_in_query(x: Expr, query: SelectStmt, negated: bool) -> (e: Expr)
    ensures
        e@ == (ExprV::InSubquery { e: Box::new(x@), query: Box::new(query@), negated }),
{
    Expr::InSubquery { e: Box::new(x), query: Box::new(query), negated }
}

pub fn make_scalar(query: SelectStmt) -> (e: Expr)
    ensures
        e@ == ExprV::ScalarSubquery(Box::new(query@)),
{
    Expr::ScalarSubquery(Box::new(query))
}

pub fn make_exists(query: SelectStmt, negated: bool) -> (e: Expr)
    ensures
        e@ == (ExprV::Exists { query: Box::new(query@), negated }),
{
    Expr::Exists { query: Box::new(query), negated }
}

pub fn make_case(operand: Option<Expr>, whens: Vec<(Expr, Expr)>, els: Option<Expr>) -> (e: Expr)
    ensures
        e@ == (ExprV::Case {
            operand: match operand {
                Some(c) => Some(Box::new(c@)),
                None => None,
            },
            whens: whens_view(whens@),
            els: match els {
                Some(c) => Some(Box::new(c@)),
                None => None,
            },
        }),
{
    let o = match operand {
        Some(c) => Some(Box::new(c)),
        None => None,
    };
    let y = match els {
        Some(c) => Some(Box::new(c)),
        None => None,
    };
    let out = Expr::Case { operand: o, whens, els: y };
    proof {
        lemma_boxed(o);
        lemma_boxed(y);
        lemma_expr_lists(out);
    }
    out
}

pub fn make_call(name: String, args: Vec<Expr>) -> (e: Expr)
    ensures
        e@ == (ExprV::Func { name: name@, args: exprs_view(args@) }),
{
    let out = Expr::Func { name, args };
    proof {
        lemma_expr_lists(out);
    }
    out
}

pub fn make_call2(name: String, a: Expr, b: Expr) -> (e: Expr)
    ensures
        e@ == (ExprV::Func { name: name@, args: seq![a@, b@] }),
{
    let ghost pair = seq![a@, b@];
    let mut args: Vec<Expr> = Vec::new();
    args.push(a);
    args.push(b);
    assert(exprs_view(args@) =~= pair);
    make_call(name, args)
}

/// An aggregate call; without an argument it folds rows.
pub fn make_aggregate(func: AggFunc, arg: Option<Expr>, distinct: bool, sep: Option<Expr>) -> (e:
    Expr)
    ensures
        e@ == (ExprV::Aggregate {
            func,
            arg: match arg {
                Some(c) => AggArgV::Expr(Box::new(c@)),
                None => AggArgV::Star,
            },
            distinct,
            sep: match sep {
                Some(c) => Some(Box::new(c@)),
                None => None,
            },
        }),
{
    let a = match arg {
        Some(c) => AggArg::Expr(Box::new(c)),
        None => AggArg::Star,
    };
    let s = match sep {
        Some(c) => Some(Box::new(c)),
        None => None,
    };
    proof {
        lemma_agg_arg(a);
        lemma_boxed(s);
    }
    Expr::Aggregate { func, arg: a, distinct, sep: s }
}

} // verus!
