//! Parsing expressions and queries.
use vstd::prelude::*;
use crate::asks::{Reals, Stop, StopV};
use crate::catalog::strings_view;
use crate::env::sql_stop;
use crate::grammar::{
    aggregate_body, aggregate_named, and_rest, arms_read_from, between_tail, boundary_word,
    call_body, call_mark, case_body, cast_body, cast_rest, clause_word, compare_tail, concat_op,
    concat_rest, ctes_read_from, distance_op, distance_rest, draws, exists_body, exprs_from,
    extract_body, found, in_tail, items_from, joins_from, joins_text, keys_from, kw, like_tail,
    negates, null_tail, onto, or_rest, p_alias, p_and, p_cast, p_clause, p_concat, p_core, p_count,
    p_direction, p_distance, p_expr, p_from, p_group_by, p_item, p_join_condition, p_join_kind,
    p_not, p_opt_from, p_order_by, p_primary, p_product, p_relation, p_select, p_source,
    p_source_alias, p_sum, p_unary, p_window, p_with, product_op, product_rest, relation_op,
    relation_tail, stored_expr, sum_op, sum_rest, sym, tok, whens_from, PS, Parsed,
};
use crate::lex::{lex, Sym, Tok, TokV};
use crate::making::{
    make_aggregate, make_between, make_binary, make_call, make_call2, make_case, make_cast,
    make_exists, make_in_list, make_in_query, make_is_null, make_like, make_scalar, make_unary,
};
use crate::parser::{expr_at, exprs_at, opt_expr_at, opt_text_at, plain_at, went, whens_at, Parser};
use crate::sql::{
    boxed_view, cte_view, ctes_view, exprs_view, items_view, key_view, keys_view, lemma_boxed,
    lemma_from, lemma_from_parts, lemma_opt_expr, lemma_select_lists, opt_expr_view, opt_from_view,
    set_op_view, set_ops_view, whens_view, AggFunc, BinOp, CteDef, CteV, Expr, ExprV, FromClause,
    FromV, ItemV, JoinKind, KeyV, OrderKey, SelItem, SelectStmt, SelectV, SetOp, SetOpPart, SetOpV,
    UnOp,
};
use crate::text::{concat2, concat3, from_chars, lower_chars, names_match, owned};

verus! {

pub open spec fn select_at(r: Result<SelectStmt, Stop>, f: PS) -> Parsed<SelectV> {
    match r {
        Ok(v) => Ok((v@, f)),
        Err(s) => Err(s@),
    }
}

pub open spec fn from_at(r: Result<FromClause, Stop>, f: PS) -> Parsed<FromV> {
    match r {
        Ok(v) => Ok((v@, f)),
        Err(s) => Err(s@),
    }
}

pub open spec fn opt_from_at(r: Result<Option<FromClause>, Stop>, f: PS) -> Parsed<Option<FromV>> {
    match r {
        Ok(v) => Ok((opt_from_view(v), f)),
        Err(s) => Err(s@),
    }
}

pub open spec fn item_at(r: Result<SelItem, Stop>, f: PS) -> Parsed<ItemV> {
    match r {
        Ok(v) => Ok((v@, f)),
        Err(s) => Err(s@),
    }
}

pub open spec fn items_at(r: Result<Vec<SelItem>, Stop>, f: PS) -> Parsed<Seq<ItemV>> {
    match r {
        Ok(v) => Ok((items_view(v@), f)),
        Err(s) => Err(s@),
    }
}

pub open spec fn keys_at(r: Result<Vec<OrderKey>, Stop>, f: PS) -> Parsed<Seq<KeyV>> {
    match r {
        Ok(v) => Ok((keys_view(v@), f)),
        Err(s) => Err(s@),
    }
}

pub open spec fn ctes_at(r: Result<Vec<CteDef>, Stop>, f: PS) -> Parsed<Seq<CteV>> {
    match r {
        Ok(v) => Ok((ctes_view(v@), f)),
        Err(s) => Err(s@),
    }
}

pub open spec fn arms_at(r: Result<Vec<SetOpPart>, Stop>, f: PS) -> Parsed<Seq<SetOpV>> {
    match r {
        Ok(v) => Ok((set_ops_view(v@), f)),
        Err(s) => Err(s@),
    }
}

pub open spec fn condition_at(
    r: Result<(Option<Box<Expr>>, Vec<String>), Stop>,
    f: PS,
) -> Parsed<(Option<Box<ExprV>>, Seq<Seq<char>>)> {
    match r {
        Ok((o, u)) => Ok(((boxed_view(o), strings_view(u@)), f)),
        Err(s) => Err(s@),
    }
}

pub open spec fn window_at(r: Result<(Option<Expr>, Option<Expr>), Stop>, f: PS) -> Parsed<
    (Option<ExprV>, Option<ExprV>),
> {
    match r {
        Ok((l, o)) => Ok(((opt_expr_view(l), opt_expr_view(o)), f)),
        Err(s) => Err(s@),
    }
}

/// The aggregate a word names.
pub fn agg_func(w: &str) -> (r: Option<AggFunc>)
    ensures
        r == aggregate_named(w@),
{
    if names_match(w, "count") {
        Some(AggFunc::Count)
    } else if names_match(w, "sum") {
        Some(AggFunc::Sum)
    } else if names_match(w, "min") {
        Some(AggFunc::Min)
    } else if names_match(w, "max") {
        Some(AggFunc::Max)
    } else if names_match(w, "avg") {
        Some(AggFunc::Avg)
    } else if names_match(w, "json_agg") || names_match(w, "jsonb_agg") {
        Some(AggFunc::JsonAgg)
    } else if names_match(w, "group_concat") || names_match(w, "string_agg") {
        Some(AggFunc::GroupConcat)
    } else {
        None
    }
}

/// Whether a word is no output alias.
pub fn is_clause_kw(w: &str) -> (r: bool)
    ensures
        r == clause_word(w@),
{
    names_match(w, "from") || names_match(w, "where") || names_match(w, "order") || names_match(
        w,
        "limit",
    ) || names_match(w, "offset") || names_match(w, "group") || names_match(w, "having")
        || names_match(w, "as") || names_match(w, "and") || names_match(w, "or") || names_match(
        w,
        "is",
    ) || names_match(w, "like") || names_match(w, "ilike") || names_match(w, "asc") || names_match(
        w,
        "desc",
    ) || names_match(w, "nulls") || names_match(w, "returning") || names_match(w, "on")
        || names_match(w, "between") || names_match(w, "union") || names_match(w, "intersect")
        || names_match(w, "except")
}

/// Whether a word is no alias of a source.
pub fn is_from_boundary_kw(w: &str) -> (r: bool)
    ensures
        r == boundary_word(w@),
{
    names_match(w, "join") || names_match(w, "inner") || names_match(w, "left") || names_match(
        w,
        "right",
    ) || names_match(w, "full") || names_match(w, "cross") || names_match(w, "on") || names_match(
        w,
        "using",
    ) || names_match(w, "where") || names_match(w, "group") || names_match(w, "order")
        || names_match(w, "limit") || names_match(w, "offset") || names_match(w, "having")
        || names_match(w, "union") || names_match(w, "intersect") || names_match(w, "except")
        || names_match(w, "as")
}

fn draws_at(w: &str) -> (r: bool)
    ensures
        r == draws(w@),
{
    names_match(w, "random") || names_match(w, "gen_random_uuid") || names_match(
        w,
        "uuid_generate_v4",
    )
}

fn relation_operator(t: &Tok) -> (r: Option<BinOp>)
    ensures
        r == relation_op(t@),
{
    match t {
        Tok::Sym(Sym::Eq) => Some(BinOp::Eq),
        Tok::Sym(Sym::Ne) => Some(BinOp::Ne),
        Tok::Sym(Sym::Lt) => Some(BinOp::Lt),
        Tok::Sym(Sym::Le) => Some(BinOp::Le),
        Tok::Sym(Sym::Gt) => Some(BinOp::Gt),
        Tok::Sym(Sym::Ge) => Some(BinOp::Ge),
        _ => None,
    }
}

fn distance_operator(t: &Tok) -> (r: Option<BinOp>)
    ensures
        r == distance_op(t@),
{
    match t {
        Tok::Sym(Sym::VecL2) => Some(BinOp::VecL2),
        Tok::Sym(Sym::VecCosine) => Some(BinOp::VecCosine),
        Tok::Sym(Sym::VecIp) => Some(BinOp::VecIp),
        _ => None,
    }
}

fn sum_operator(t: &Tok) -> (r: Option<BinOp>)
    ensures
        r == sum_op(t@),
{
    match t {
        Tok::Sym(Sym::Plus) => Some(BinOp::Add),
        Tok::Sym(Sym::Minus) => Some(BinOp::Sub),
        _ => None,
    }
}

fn product_operator(t: &Tok) -> (r: Option<BinOp>)
    ensures
        r == product_op(t@),
{
    match t {
        Tok::Sym(Sym::Star) => Some(BinOp::Mul),
        Tok::Sym(Sym::Slash) => Some(BinOp::Div),
        Tok::Sym(Sym::Percent) => Some(BinOp::Mod),
        _ => None,
    }
}

/// The operator that joins two texts or reads a document, if the token is one.
fn text_operator(t: &Tok) -> (r: Option<Sym>)
    ensures
        r is Some == joins_text(t@),
        r is Some ==> t@ == TokV::Sym(r->0),
{
    match t {
        Tok::Sym(Sym::Concat) => Some(Sym::Concat),
        Tok::Sym(Sym::Arrow) => Some(Sym::Arrow),
        Tok::Sym(Sym::ArrowText) => Some(Sym::ArrowText),
        _ => None,
    }
}

fn join_text(op: Sym, l: Expr, r: Expr) -> (e: Expr)
    requires
        joins_text(TokV::Sym(op)),
    ensures
        concat_op(TokV::Sym(op), l@, r@) == Some(e@),
{
    if op == Sym::Concat {
        make_binary(BinOp::Concat, l, r)
    } else if op == Sym::Arrow {
        make_call2(owned("json_get"), l, r)
    } else {
        make_call2(owned("json_get_text"), l, r)
    }
}

impl<'a> Parser<'a> {
    fn null_tail(&mut self, left: Expr) -> (r: Result<Expr, Stop>)
        requires
            old(self).wf(),
        ensures
            expr_at(r, final(self).st()) == null_tail(old(self).x(), old(self).st(), left@),
            r is Ok ==> went(*old(self), *final(self)),
    {
        let negated = self.eat_kw("not");
        self.expect_kw("null")?;
        Ok(make_is_null(left, negated))
    }

    /// Whether a `NOT` stands here that belongs to the operator behind it.
    fn negated_ahead(&self) -> (r: bool)
        requires
            self.wf(),
        ensures
            r == negates(self.x(), self.st()),
    {
        self.is_kw("not") && (self.kw_ahead(1, "like") || self.kw_ahead(1, "ilike")
            || self.kw_ahead(1, "in") || self.kw_ahead(1, "between"))
    }

    pub fn expr(&mut self) -> (r: Result<Expr, Stop>)
        requires
            old(self).wf(),
        ensures
            expr_at(r, final(self).st()) == p_expr(old(self).x(), old(self).st()),
            r is Ok ==> went(*old(self), *final(self)),
        decreases old(self).toks.len() - old(self).pos, 100int,
    {
        let ghost x = self.x();
        let ghost s0 = self.st();
        let mut left = self.and_expr()?;
        loop
            invariant
                went(*old(self), *self),
                x == self.x(),
                x == old(self).x(),
                s0 == old(self).st(),
                or_rest(x, self.st(), left@) == p_expr(x, s0),
            decreases self.toks.len() - self.pos,
        {
            if !self.is_kw("or") {
                return Ok(left);
            }
            let op = BinOp::Or;
            self.bump();
            let right = self.and_expr()?;
            left = make_binary(op, left, right);
        }
    }

    pub fn and_expr(&mut self) -> (r: Result<Expr, Stop>)
        requires
            old(self).wf(),
        ensures
            expr_at(r, final(self).st()) == p_and(old(self).x(), old(self).st()),
            r is Ok ==> went(*old(self), *final(self)),
        decreases old(self).toks.len() - old(self).pos, 98int,
    {
        let ghost x = self.x();
        let ghost s0 = self.st();
        let mut left = self.not_expr()?;
        loop
            invariant
                went(*old(self), *self),
                x == self.x(),
                x == old(self).x(),
                s0 == old(self).st(),
                and_rest(x, self.st(), left@) == p_and(x, s0),
            decreases self.toks.len() - self.pos,
        {
            if !self.is_kw("and") {
                return Ok(left);
            }
            let op = BinOp::And;
            self.bump();
            let right = self.not_expr()?;
            left = make_binary(op, left, right);
        }
    }

    pub fn not_expr(&mut self) -> (r: Result<Expr, Stop>)
        requires
            old(self).wf(),
        ensures
            expr_at(r, final(self).st()) == p_not(old(self).x(), old(self).st()),
            r is Ok ==> went(*old(self), *final(self)),
        decreases old(self).toks.len() - old(self).pos, 96int,
    {
        let ghost x = self.x();
        let ghost s0 = self.st();
        if self.eat_kw("not") {
            let e = self.not_expr()?;
            Ok(make_unary(UnOp::Not, e))
        } else {
            self.relation_expr()
        }
    }

    /// A comparison, or one operand alone.
    pub fn relation_expr(&mut self) -> (r: Result<Expr, Stop>)
        requires
            old(self).wf(),
        ensures
            expr_at(r, final(self).st()) == p_relation(old(self).x(), old(self).st()),
            r is Ok ==> went(*old(self), *final(self)),
        decreases old(self).toks.len() - old(self).pos, 95int,
    {
        let ghost x = self.x();
        let ghost s0 = self.st();
        let left = self.vecdist_expr()?;
        let ghost mid = self.st();
        assert(onto(s0, mid) == mid);
        assert(p_distance(x, s0) == Ok::<(ExprV, PS), StopV>((left@, mid)));
        assert(p_relation(x, s0) == relation_tail(x, mid, left@));
        self.relation_tail(left)
    }

    #[verifier::rlimit(40)]
    fn relation_tail(&mut self, left: Expr) -> (r: Result<Expr, Stop>)
        requires
            old(self).wf(),
        ensures
            expr_at(r, final(self).st()) == relation_tail(old(self).x(), old(self).st(), left@),
            r is Ok ==> went(*old(self), *final(self)),
        decreases old(self).toks.len() - old(self).pos, 94int,
    {
        let ghost x = self.x();
        let ghost s0 = self.st();
        if self.eat_kw("is") {
            return self.null_tail(left);
        }
        let negated = self.negated_ahead();
        if negated {
            self.bump();
        }
        self.compare_tail(left, negated)
    }

    #[verifier::rlimit(40)]
    fn compare_tail(&mut self, left: Expr, negated: bool) -> (r: Result<Expr, Stop>)
        requires
            old(self).wf(),
        ensures
            expr_at(r, final(self).st()) == compare_tail(old(self).x(), old(self).st(), left@, negated),
            r is Ok ==> went(*old(self), *final(self)),
        decreases old(self).toks.len() - old(self).pos, 93int,
    {
        let ghost x = self.x();
        let ghost s0 = self.st();
        if self.is_kw("like") || self.is_kw("ilike") {
            return self.like_tail(left, negated);
        }
        if self.eat_kw("in") {
            return self.in_tail(left, negated);
        }
        if self.eat_kw("between") {
            return self.between_tail(left, negated);
        }
        let op = match relation_operator(self.peek()) {
            Some(op) => op,
            None => {
                return Ok(left);
            },
        };
        self.bump();
        let right = self.vecdist_expr()?;
        Ok(make_binary(op, left, right))
    }

    fn like_tail(&mut self, left: Expr, negated: bool) -> (r: Result<Expr, Stop>)
        requires
            old(self).wf(),
            kw(old(self).x(), old(self).st(), "like"@) || kw(old(self).x(), old(self).st(), "ilike"@),
        ensures
            expr_at(r, final(self).st()) == like_tail(old(self).x(), old(self).st(), left@, negated),
            r is Ok ==> went(*old(self), *final(self)),
        decreases old(self).toks.len() - old(self).pos, 92int,
    {
        let ghost x = self.x();
        let ghost s0 = self.st();
        let insensitive = self.is_kw("ilike");
        self.bump();
        let pattern = self.vecdist_expr()?;
        let escape = if self.eat_kw("escape") {
            let c = self.vecdist_expr()?;
            Some(c)
        } else {
            None
        };
        Ok(make_like(left, pattern, escape, negated, insensitive))
    }

    fn in_tail(&mut self, left: Expr, negated: bool) -> (r: Result<Expr, Stop>)
        requires
            old(self).wf(),
        ensures
            expr_at(r, final(self).st()) == in_tail(old(self).x(), old(self).st(), left@, negated),
            r is Ok ==> went(*old(self), *final(self)),
        decreases old(self).toks.len() - old(self).pos, 102int,
    {
        let ghost x = self.x();
        let ghost s0 = self.st();
        self.expect(Sym::LParen)?;
        if self.is_kw("select") || self.is_kw("with") {
            let query = self.select()?;
            self.expect(Sym::RParen)?;
            return Ok(make_in_query(left, query, negated));
        }
        let list: Vec<Expr> = if self.at(Sym::RParen) {
            Vec::new()
        } else {
            self.expr_list()?
        };
        self.expect(Sym::RParen)?;
        assert(list@.len() == 0 ==> exprs_view(list@) =~= Seq::<ExprV>::empty());
        Ok(make_in_list(left, list, negated))
    }

    fn between_tail(&mut self, left: Expr, negated: bool) -> (r: Result<Expr, Stop>)
        requires
            old(self).wf(),
        ensures
            expr_at(r, final(self).st()) == between_tail(old(self).x(), old(self).st(), left@, negated),
            r is Ok ==> went(*old(self), *final(self)),
        decreases old(self).toks.len() - old(self).pos, 102int,
    {
        let ghost x = self.x();
        let ghost s0 = self.st();
        let lo = self.vecdist_expr()?;
        if !self.is_kw("and") {
            return Err(self.unexpected("expected keyword and, found "));
        }
        self.bump();
        let hi = self.vecdist_expr()?;
        Ok(make_between(left, lo, hi, negated))
    }

    pub fn vecdist_expr(&mut self) -> (r: Result<Expr, Stop>)
        requires
            old(self).wf(),
        ensures
            expr_at(r, final(self).st()) == p_distance(old(self).x(), old(self).st()),
            r is Ok ==> went(*old(self), *final(self)),
        decreases old(self).toks.len() - old(self).pos, 92int,
    {
        let ghost x = self.x();
        let ghost s0 = self.st();
        let mut left = self.concat_expr()?;
        loop
            invariant
                went(*old(self), *self),
                x == self.x(),
                x == old(self).x(),
                s0 == old(self).st(),
                distance_rest(x, self.st(), left@) == p_distance(x, s0),
            decreases self.toks.len() - self.pos,
        {
            let op = match distance_operator(self.peek()) {
                Some(op) => op,
                None => {
                    return Ok(left);
                },
            };
            self.bump();
            let right = self.concat_expr()?;
            left = make_binary(op, left, right);
        }
    }

    pub fn concat_expr(&mut self) -> (r: Result<Expr, Stop>)
        requires
            old(self).wf(),
        ensures
            expr_at(r, final(self).st()) == p_concat(old(self).x(), old(self).st()),
            r is Ok ==> went(*old(self), *final(self)),
        decreases old(self).toks.len() - old(self).pos, 90int,
    {
        let ghost x = self.x();
        let ghost s0 = self.st();
        let mut left = self.add_expr()?;
        loop
            invariant
                went(*old(self), *self),
                x == self.x(),
                x == old(self).x(),
                s0 == old(self).st(),
                concat_rest(x, self.st(), left@) == p_concat(x, s0),
            decreases self.toks.len() - self.pos,
        {
            let op = match text_operator(self.peek()) {
                Some(op) => op,
                None => {
                    return Ok(left);
                },
            };
            self.bump();
            let right = self.add_expr()?;
            left = join_text(op, left, right);
        }
    }

    pub fn add_expr(&mut self) -> (r: Result<Expr, Stop>)
        requires
            old(self).wf(),
        ensures
            expr_at(r, final(self).st()) == p_sum(old(self).x(), old(self).st()),
            r is Ok ==> went(*old(self), *final(self)),
        decreases old(self).toks.len() - old(self).pos, 88int,
    {
        let ghost x = self.x();
        let ghost s0 = self.st();
        let mut left = self.mul_expr()?;
        loop
            invariant
                went(*old(self), *self),
                x == self.x(),
                x == old(self).x(),
                s0 == old(self).st(),
                sum_rest(x, self.st(), left@) == p_sum(x, s0),
            decreases self.toks.len() - self.pos,
        {
            let op = match sum_operator(self.peek()) {
                Some(op) => op,
                None => {
                    return Ok(left);
                },
            };
            self.bump();
            let right = self.mul_expr()?;
            left = make_binary(op, left, right);
        }
    }

    pub fn mul_expr(&mut self) -> (r: Result<Expr, Stop>)
        requires
            old(self).wf(),
        ensures
            expr_at(r, final(self).st()) == p_product(old(self).x(), old(self).st()),
            r is Ok ==> went(*old(self), *final(self)),
        decreases old(self).toks.len() - old(self).pos, 86int,
    {
        let ghost x = self.x();
        let ghost s0 = self.st();
        let mut left = self.unary_expr()?;
        loop
            invariant
                went(*old(self), *self),
                x == self.x(),
                x == old(self).x(),
                s0 == old(self).st(),
                product_rest(x, self.st(), left@) == p_product(x, s0),
            decreases self.toks.len() - self.pos,
        {
            let op = match product_operator(self.peek()) {
                Some(op) => op,
                None => {
                    return Ok(left);
                },
            };
            self.bump();
            let right = self.unary_expr()?;
            left = make_binary(op, left, right);
        }
    }

    pub fn unary_expr(&mut self) -> (r: Result<Expr, Stop>)
        requires
            old(self).wf(),
        ensures
            expr_at(r, final(self).st()) == p_unary(old(self).x(), old(self).st()),
            r is Ok ==> went(*old(self), *final(self)),
        decreases old(self).toks.len() - old(self).pos, 84int,
    {
        let ghost x = self.x();
        let ghost s0 = self.st();
        if self.skip(Sym::Minus) {
            let e = self.unary_expr()?;
            Ok(make_unary(UnOp::Neg, e))
        } else if self.skip(Sym::Plus) {
            self.unary_expr()
        } else {
            self.cast_expr()
        }
    }

    pub fn cast_expr(&mut self) -> (r: Result<Expr, Stop>)
        requires
            old(self).wf(),
        ensures
            expr_at(r, final(self).st()) == p_cast(old(self).x(), old(self).st()),
            r is Ok ==> went(*old(self), *final(self)),
        decreases old(self).toks.len() - old(self).pos, 83int,
    {
        let ghost x = self.x();
        let ghost s0 = self.st();
        let mut e = self.primary()?;
        loop
            invariant
                went(*old(self), *self),
                x == self.x(),
                x == old(self).x(),
                s0 == old(self).st(),
                cast_rest(x, self.st(), e@) == p_cast(x, s0),
            decreases self.toks.len() - self.pos,
        {
            if !self.skip(Sym::DColon) {
                return Ok(e);
            }
            let target = self.parse_cast_type()?;
            e = make_cast(e, target);
        }
    }

    /// Expressions separated by commas.
    pub fn expr_list(&mut self) -> (r: Result<Vec<Expr>, Stop>)
        requires
            old(self).wf(),
        ensures
            exprs_at(r, final(self).st()) == exprs_from(old(self).x(), old(self).st(), Seq::empty()),
            r is Ok ==> went(*old(self), *final(self)),
        decreases old(self).toks.len() - old(self).pos, 101int,
    {
        let ghost x = self.x();
        let ghost s0 = self.st();
        let mut out: Vec<Expr> = Vec::new();
        assert(exprs_view(out@) =~= Seq::<ExprV>::empty());
        loop
            invariant
                went(*old(self), *self),
                x == self.x(),
                x == old(self).x(),
                s0 == old(self).st(),
                exprs_from(x, self.st(), exprs_view(out@)) == exprs_from(x, s0, Seq::empty()),
            decreases self.toks.len() - self.pos,
        {
            let ghost before = exprs_view(out@);
            let e = self.expr()?;
            let ghost ev = e@;
            out.push(e);
            assert(exprs_view(out@) =~= before.push(ev));
            if !self.skip(Sym::Comma) {
                return Ok(out);
            }
        }
    }

    /// A literal, a parameter, a name, a call, or something in brackets.
    #[verifier::rlimit(60)]
    pub fn primary(&mut self) -> (r: Result<Expr, Stop>)
        requires
            old(self).wf(),
        ensures
            expr_at(r, final(self).st()) == p_primary(old(self).x(), old(self).st()),
            r is Ok ==> went(*old(self), *final(self)),
        decreases old(self).toks.len() - old(self).pos, 81int,
    {
        let ghost x = self.x();
        let ghost s0 = self.st();
        let w: String = match self.peek() {
            Tok::Int(n) => {
                let e = Expr::Int(*n);
                self.bump();
                return Ok(e);
            },
            Tok::Real(b) => {
                let e = Expr::Real(*b);
                self.bump();
                return Ok(e);
            },
            Tok::Str(t) => {
                let e = Expr::Str(t.clone());
                self.bump();
                return Ok(e);
            },
            Tok::NumParam(_) => {
                return Ok(self.param());
            },
            Tok::NamedParam(_) => {
                return Ok(self.param());
            },
            Tok::Sym(Sym::Param) => {
                return Ok(self.param());
            },
            Tok::Sym(Sym::LParen) => {
                return self.parenthesised();
            },
            Tok::Sym(Sym::LBracket) => {
                return self.vector_literal();
            },
            Tok::Word(w) => w.clone(),
            _ => {
                return Err(self.unexpected("unexpected token in expression: "));
            },
        };
        self.word_expr(w)
    }

    fn parenthesised(&mut self) -> (r: Result<Expr, Stop>)
        requires
            old(self).wf(),
            sym(old(self).x(), old(self).st(), Sym::LParen),
        ensures
            expr_at(r, final(self).st()) == p_primary(old(self).x(), old(self).st()),
            r is Ok ==> went(*old(self), *final(self)),
        decreases old(self).toks.len() - old(self).pos, 80int,
    {
        let ghost x = self.x();
        let ghost s0 = self.st();
        self.bump();
        if self.is_kw("select") || self.is_kw("with") {
            let q = self.select()?;
            self.expect(Sym::RParen)?;
            return Ok(make_scalar(q));
        }
        let e = self.expr()?;
        self.expect(Sym::RParen)?;
        Ok(e)
    }

    /// What a word begins.
    #[verifier::rlimit(60)]
    fn word_expr(&mut self, w: String) -> (r: Result<Expr, Stop>)
        requires
            old(self).wf(),
            tok(old(self).x(), old(self).st()) == TokV::Word(w@),
        ensures
            expr_at(r, final(self).st()) == p_primary(old(self).x(), old(self).st()),
            r is Ok ==> went(*old(self), *final(self)),
        decreases old(self).toks.len() - old(self).pos, 80int,
    {
        let ghost x = self.x();
        let ghost s0 = self.st();
        let at: usize = self.pos;
        self.bump();
        if names_match(&w, "null") {
            return Ok(Expr::Null);
        }
        if names_match(&w, "true") {
            return Ok(Expr::Int(1));
        }
        if names_match(&w, "false") {
            return Ok(Expr::Int(0));
        }
        if names_match(&w, "default") {
            return Ok(Expr::Default);
        }
        if names_match(&w, "case") {
            return self.case_expr();
        }
        if self.at(Sym::LParen) {
            self.bump();
            if names_match(&w, "cast") {
                return self.cast_call();
            }
            if names_match(&w, "extract") {
                return self.extract_call();
            }
            if names_match(&w, "exists") {
                return self.exists_expr();
            }
            return match agg_func(&w) {
                Some(f) => self.aggregate_call(f),
                None => {
                    let mark: i64 = self.mark_of(at);
                    self.func_call(w, mark)
                },
            };
        }
        if self.skip(Sym::Dot) {
            let col = self.ident()?;
            if names_match(&w, "excluded") {
                return Ok(Expr::Excluded(col));
            }
            if self.skip(Sym::LParen) {
                let mark: i64 = self.mark_of(at);
                return self.func_call(concat3(&w, ".", &col), mark);
            }
            return Ok(Expr::Qualified(w, col));
        }
        Ok(Expr::Column(w))
    }

    fn mark_of(&self, pos: usize) -> (r: i64)
        ensures
            r == call_mark(self.x(), pos as nat),
    {
        let p: i64 = #[verifier::truncate]
        (pos as i64);
        if self.stored && p >= 0 {
            i64::MIN + p
        } else {
            p
        }
    }

    fn whens(&mut self) -> (r: Result<Vec<(Expr, Expr)>, Stop>)
        requires
            old(self).wf(),
        ensures
            whens_at(r, final(self).st()) == whens_from(old(self).x(), old(self).st(), Seq::empty()),
            r is Ok ==> went(*old(self), *final(self)),
        decreases old(self).toks.len() - old(self).pos, 101int,
    {
        let ghost x = self.x();
        let ghost s0 = self.st();
        let mut out: Vec<(Expr, Expr)> = Vec::new();
        assert(whens_view(out@) =~= Seq::<(ExprV, ExprV)>::empty());
        loop
            invariant
                went(*old(self), *self),
                x == self.x(),
                x == old(self).x(),
                s0 == old(self).st(),
                whens_from(x, self.st(), whens_view(out@)) == whens_from(x, s0, Seq::empty()),
            decreases self.toks.len() - self.pos,
        {
            if !self.eat_kw("when") {
                return Ok(out);
            }
            let ghost before = whens_view(out@);
            let c = self.expr()?;
            if !self.is_kw("then") {
                return Err(self.unexpected("expected keyword then, found "));
            }
            self.bump();
            let t = self.expr()?;
            let ghost pv = (c@, t@);
            out.push((c, t));
            assert(whens_view(out@) =~= before.push(pv));
        }
    }

    fn case_expr(&mut self) -> (r: Result<Expr, Stop>)
        requires
            old(self).wf(),
        ensures
            expr_at(r, final(self).st()) == case_body(old(self).x(), old(self).st()),
            r is Ok ==> went(*old(self), *final(self)),
        decreases old(self).toks.len() - old(self).pos, 105int,
    {
        let ghost x = self.x();
        let ghost s0 = self.st();
        let operand = if self.is_kw("when") {
            None
        } else {
            let o = self.expr()?;
            Some(o)
        };
        let whens = self.whens()?;
        assert(whens_view(whens@).len() == whens.len());
        if whens.len() == 0 {
            return Err(sql_stop(owned("CASE requires at least one WHEN")));
        }
        let els = if self.eat_kw("else") {
            let y = self.expr()?;
            Some(y)
        } else {
            None
        };
        self.expect_kw("end")?;
        Ok(make_case(operand, whens, els))
    }

    fn cast_call(&mut self) -> (r: Result<Expr, Stop>)
        requires
            old(self).wf(),
        ensures
            expr_at(r, final(self).st()) == cast_body(old(self).x(), old(self).st()),
            r is Ok ==> went(*old(self), *final(self)),
        decreases old(self).toks.len() - old(self).pos, 105int,
    {
        let ghost x = self.x();
        let ghost s0 = self.st();
        let e = self.expr()?;
        self.expect_kw("as")?;
        let target = self.parse_cast_type()?;
        self.expect(Sym::RParen)?;
        Ok(make_cast(e, target))
    }

    fn extract_call(&mut self) -> (r: Result<Expr, Stop>)
        requires
            old(self).wf(),
        ensures
            expr_at(r, final(self).st()) == extract_body(old(self).x(), old(self).st()),
            r is Ok ==> went(*old(self), *final(self)),
        decreases old(self).toks.len() - old(self).pos, 105int,
    {
        let ghost x = self.x();
        let ghost s0 = self.st();
        let field = self.ident()?;
        self.expect_kw("from")?;
        let source = self.expr()?;
        self.expect(Sym::RParen)?;
        let f = Expr::Str(from_chars(&lower_chars(&field)));
        Ok(make_call2(owned("extract"), f, source))
    }

    fn exists_expr(&mut self) -> (r: Result<Expr, Stop>)
        requires
            old(self).wf(),
        ensures
            expr_at(r, final(self).st()) == exists_body(old(self).x(), old(self).st()),
            r is Ok ==> went(*old(self), *final(self)),
        decreases old(self).toks.len() - old(self).pos, 235int,
    {
        let ghost x = self.x();
        let ghost s0 = self.st();
        let query = self.select()?;
        self.expect(Sym::RParen)?;
        Ok(make_exists(query, false))
    }

    fn func_call(&mut self, name: String, mark: i64) -> (r: Result<Expr, Stop>)
        requires
            old(self).wf(),
        ensures
            expr_at(r, final(self).st()) == call_body(old(self).x(), old(self).st(), name@, mark),
            r is Ok ==> went(*old(self), *final(self)),
        decreases old(self).toks.len() - old(self).pos, 105int,
    {
        let ghost x = self.x();
        let ghost s0 = self.st();
        let args: Vec<Expr> = if self.at(Sym::RParen) {
            Vec::new()
        } else if self.at(Sym::Star) {
            self.bump();
            Vec::new()
        } else {
            self.expr_list()?
        };
        self.expect(Sym::RParen)?;
        assert(args@.len() == 0 ==> exprs_view(args@) =~= Seq::<ExprV>::empty());
        let all = if draws_at(&name) {
            let mut rest = args;
            let ghost rv = exprs_view(rest@);
            rest.insert(0, Expr::Int(mark));
            assert(exprs_view(rest@) =~= seq![ExprV::Int(mark)] + rv);
            rest
        } else {
            args
        };
        Ok(make_call(name, all))
    }

    fn aggregate_call(&mut self, func: AggFunc) -> (r: Result<Expr, Stop>)
        requires
            old(self).wf(),
        ensures
            expr_at(r, final(self).st()) == aggregate_body(old(self).x(), old(self).st(), func),
            r is Ok ==> went(*old(self), *final(self)),
        decreases old(self).toks.len() - old(self).pos, 105int,
    {
        let ghost x = self.x();
        let ghost s0 = self.st();
        let distinct = self.eat_kw("distinct");
        let _ = self.eat_kw("all");
        let arg = if self.at(Sym::Star) {
            self.bump();
            None
        } else {
            let e = self.expr()?;
            Some(e)
        };
        let sep = if self.skip(Sym::Comma) {
            let e = self.expr()?;
            Some(e)
        } else {
            None
        };
        self.expect(Sym::RParen)?;
        Ok(make_aggregate(func, arg, distinct, sep))
    }

    fn opt_alias(&mut self) -> (r: Result<Option<String>, Stop>)
        requires
            old(self).wf(),
        ensures
            opt_text_at(r, final(self).st()) == p_alias(old(self).x(), old(self).st()),
            r is Ok ==> went(*old(self), *final(self)),
    {
        if self.eat_kw("as") {
            let a = self.ident()?;
            return Ok(Some(a));
        }
        let w = match self.peek() {
            Tok::Word(w) => if is_clause_kw(w) {
                return Ok(None);
            } else {
                w.clone()
            },
            _ => {
                return Ok(None);
            },
        };
        self.bump();
        Ok(Some(w))
    }

    fn parse_from_alias(&mut self) -> (r: Result<Option<String>, Stop>)
        requires
            old(self).wf(),
        ensures
            opt_text_at(r, final(self).st()) == p_source_alias(old(self).x(), old(self).st()),
            r is Ok ==> went(*old(self), *final(self)),
    {
        if self.eat_kw("as") {
            let a = self.ident()?;
            return Ok(Some(a));
        }
        let w = match self.peek() {
            Tok::Word(w) => if is_from_boundary_kw(w) {
                return Ok(None);
            } else {
                w.clone()
            },
            _ => {
                return Ok(None);
            },
        };
        self.bump();
        Ok(Some(w))
    }

    pub fn select_item(&mut self) -> (r: Result<SelItem, Stop>)
        requires
            old(self).wf(),
        ensures
            item_at(r, final(self).st()) == p_item(old(self).x(), old(self).st()),
            r is Ok ==> went(*old(self), *final(self)),
        decreases old(self).toks.len() - old(self).pos, 101int,
    {
        let ghost x = self.x();
        let ghost s0 = self.st();
        if self.skip(Sym::Star) {
            return Ok(SelItem::Star { qualifier: None });
        }
        let qualified = match self.peek() {
            Tok::Word(w) => if self.sym_ahead(1, Sym::Dot) && self.sym_ahead(2, Sym::Star) {
                Some(w.clone())
            } else {
                None
            },
            _ => None,
        };
        match qualified {
            Some(w) => {
                self.bump();
                self.bump();
                self.bump();
                return Ok(SelItem::Star { qualifier: Some(w) });
            },
            None => {},
        }
        let expr = self.expr()?;
        let alias = self.opt_alias()?;
        Ok(SelItem::Expr { expr, alias })
    }

    pub fn select_items(&mut self) -> (r: Result<Vec<SelItem>, Stop>)
        requires
            old(self).wf(),
        ensures
            items_at(r, final(self).st()) == items_from(old(self).x(), old(self).st(), Seq::empty()),
            r is Ok ==> went(*old(self), *final(self)),
        decreases old(self).toks.len() - old(self).pos, 102int,
    {
        let ghost x = self.x();
        let ghost s0 = self.st();
        let mut out: Vec<SelItem> = Vec::new();
        assert(items_view(out@) =~= Seq::<ItemV>::empty());
        loop
            invariant
                went(*old(self), *self),
                x == self.x(),
                x == old(self).x(),
                s0 == old(self).st(),
                items_from(x, self.st(), items_view(out@)) == items_from(x, s0, Seq::empty()),
            decreases self.toks.len() - self.pos,
        {
            let ghost before = items_view(out@);
            let i = self.select_item()?;
            let ghost iv = i@;
            out.push(i);
            assert(items_view(out@) =~= before.push(iv));
            if !self.skip(Sym::Comma) {
                return Ok(out);
            }
        }
    }

    /// An optional clause: a keyword and an expression.
    pub fn opt_clause(&mut self, k: &str) -> (r: Result<Option<Expr>, Stop>)
        requires
            old(self).wf(),
        ensures
            opt_expr_at(r, final(self).st()) == p_clause(old(self).x(), old(self).st(), k@),
            r is Ok ==> went(*old(self), *final(self)),
        decreases old(self).toks.len() - old(self).pos, 101int,
    {
        let ghost x = self.x();
        let ghost s0 = self.st();
        if self.eat_kw(k) {
            let e = self.expr()?;
            let out = Some(e);
            proof {
                lemma_opt_expr(out);
            }
            Ok(out)
        } else {
            Ok(None)
        }
    }

    fn parse_group_by(&mut self) -> (r: Result<Vec<Expr>, Stop>)
        requires
            old(self).wf(),
        ensures
            exprs_at(r, final(self).st()) == p_group_by(old(self).x(), old(self).st()),
            r is Ok ==> went(*old(self), *final(self)),
        decreases old(self).toks.len() - old(self).pos, 102int,
    {
        let ghost x = self.x();
        let ghost s0 = self.st();
        if self.eat_kw("group") {
            self.expect_kw("by")?;
            self.expr_list()
        } else {
            let out: Vec<Expr> = Vec::new();
            assert(exprs_view(out@) =~= Seq::<ExprV>::empty());
            Ok(out)
        }
    }

    /// The direction of an order key, and where its `NULL`s go.
    fn direction(&mut self) -> (r: Result<(bool, bool), Stop>)
        requires
            old(self).wf(),
        ensures
            plain_at(r, final(self).st()) == p_direction(old(self).x(), old(self).st()),
            r is Ok ==> went(*old(self), *final(self)),
    {
        let asc = if self.eat_kw("desc") {
            false
        } else {
            let _ = self.eat_kw("asc");
            true
        };
        if self.eat_kw("nulls") {
            if self.eat_kw("first") {
                Ok((asc, true))
            } else {
                self.expect_kw("last")?;
                Ok((asc, false))
            }
        } else {
            Ok((asc, asc))
        }
    }

    fn order_keys(&mut self) -> (r: Result<Vec<OrderKey>, Stop>)
        requires
            old(self).wf(),
        ensures
            keys_at(r, final(self).st()) == keys_from(old(self).x(), old(self).st(), Seq::empty()),
            r is Ok ==> went(*old(self), *final(self)),
        decreases old(self).toks.len() - old(self).pos, 102int,
    {
        let ghost x = self.x();
        let ghost s0 = self.st();
        let mut out: Vec<OrderKey> = Vec::new();
        assert(keys_view(out@) =~= Seq::<KeyV>::empty());
        loop
            invariant
                went(*old(self), *self),
                x == self.x(),
                x == old(self).x(),
                s0 == old(self).st(),
                keys_from(x, self.st(), keys_view(out@)) == keys_from(x, s0, Seq::empty()),
            decreases self.toks.len() - self.pos,
        {
            let ghost before = keys_view(out@);
            let expr = self.expr()?;
            let (asc, nulls_first) = self.direction()?;
            let k = OrderKey { expr, asc, nulls_first };
            let ghost kv = key_view(k);
            out.push(k);
            assert(keys_view(out@) =~= before.push(kv));
            if !self.skip(Sym::Comma) {
                return Ok(out);
            }
        }
    }

    fn parse_order_by(&mut self) -> (r: Result<Vec<OrderKey>, Stop>)
        requires
            old(self).wf(),
        ensures
            keys_at(r, final(self).st()) == p_order_by(old(self).x(), old(self).st()),
            r is Ok ==> went(*old(self), *final(self)),
        decreases old(self).toks.len() - old(self).pos, 103int,
    {
        let ghost x = self.x();
        let ghost s0 = self.st();
        if self.eat_kw("order") {
            self.expect_kw("by")?;
            self.order_keys()
        } else {
            let out: Vec<OrderKey> = Vec::new();
            assert(keys_view(out@) =~= Seq::<KeyV>::empty());
            Ok(out)
        }
    }

    fn limit_value(&mut self, what: &str) -> (r: Result<Expr, Stop>)
        requires
            old(self).wf(),
        ensures
            expr_at(r, final(self).st()) == p_count(old(self).x(), old(self).st(), what@),
            r is Ok ==> went(*old(self), *final(self)),
    {
        let param = match self.peek() {
            Tok::NumParam(_) => true,
            Tok::NamedParam(_) => true,
            Tok::Sym(Sym::Param) => true,
            _ => false,
        };
        if param {
            return Ok(self.param());
        }
        let neg = self.skip(Sym::Minus);
        let n: i64 = match self.peek() {
            Tok::Int(n) => *n,
            _ => {
                return Err(
                    self.unexpected(
                        &concat2(what, " expects an integer or parameter, found "),
                    ),
                );
            },
        };
        self.bump();
        if neg && n != i64::MIN {
            Ok(Expr::Int(-n))
        } else {
            Ok(Expr::Int(n))
        }
    }

    fn parse_limit_offset(&mut self) -> (r: Result<(Option<Expr>, Option<Expr>), Stop>)
        requires
            old(self).wf(),
        ensures
            window_at(r, final(self).st()) == p_window(
                old(self).x(),
                old(self).st(),
                None,
                None,
            ),
            r is Ok ==> went(*old(self), *final(self)),
    {
        let ghost x = self.x();
        let ghost s0 = self.st();
        let mut limit: Option<Expr> = None;
        let mut offset: Option<Expr> = None;
        loop
            invariant
                went(*old(self), *self),
                x == self.x(),
                x == old(self).x(),
                s0 == old(self).st(),
                p_window(x, self.st(), opt_expr_view(limit), opt_expr_view(offset)) == p_window(
                    x,
                    s0,
                    None,
                    None,
                ),
            decreases self.toks.len() - self.pos,
        {
            if limit.is_none() && self.is_kw("limit") {
                self.bump();
                if !self.eat_kw("all") {
                    let e = self.limit_value("LIMIT")?;
                    limit = Some(e);
                    proof {
                        lemma_opt_expr(limit);
                    }
                }
            } else if offset.is_none() && self.is_kw("offset") {
                self.bump();
                let e = self.limit_value("OFFSET")?;
                offset = Some(e);
                proof {
                    lemma_opt_expr(offset);
                }
                let _ = self.eat_either("row", "rows");
            } else {
                return Ok((limit, offset));
            }
        }
    }

    fn parse_join_kind(&mut self) -> (r: Result<Option<JoinKind>, Stop>)
        requires
            old(self).wf(),
        ensures
            plain_at(r, final(self).st()) == p_join_kind(old(self).x(), old(self).st()),
            r is Ok ==> went(*old(self), *final(self)),
    {
        if self.eat_kw("join") {
            if self.eat_kw("inner") {
                let _ = self.eat_kw("join");
            }
            return Ok(Some(JoinKind::Inner));
        }
        if self.is_kw("inner") && self.kw_ahead(1, "join") {
            self.bump();
            self.bump();
            return Ok(Some(JoinKind::Inner));
        }
        if self.eat_kw("cross") {
            self.expect_kw("join")?;
            return Ok(Some(JoinKind::Cross));
        }
        let kind = if self.is_kw("left") {
            JoinKind::Left
        } else if self.is_kw("right") {
            JoinKind::Right
        } else if self.is_kw("full") {
            JoinKind::Full
        } else {
            return Ok(None);
        };
        self.bump();
        let _ = self.eat_kw("outer");
        self.expect_kw("join")?;
        Ok(Some(kind))
    }

    fn parse_join_condition(&mut self) -> (r: Result<(Option<Box<Expr>>, Vec<String>), Stop>)
        requires
            old(self).wf(),
        ensures
            condition_at(r, final(self).st()) == p_join_condition(old(self).x(), old(self).st()),
            r is Ok ==> went(*old(self), *final(self)),
        decreases old(self).toks.len() - old(self).pos, 101int,
    {
        let ghost x = self.x();
        let ghost s0 = self.st();
        if self.eat_kw("on") {
            let e = self.expr()?;
            let on = Some(Box::new(e));
            proof {
                lemma_boxed(on);
            }
            let using: Vec<String> = Vec::new();
            assert(strings_view(using@) =~= Seq::<Seq<char>>::empty());
            Ok((on, using))
        } else if self.eat_kw("using") {
            let n = self.paren_ident_list()?;
            Ok((None, n))
        } else {
            Err(sql_stop(owned("JOIN requires an ON or USING clause")))
        }
    }

    #[verifier::rlimit(40)]
    pub fn parse_from(&mut self) -> (r: Result<FromClause, Stop>)
        requires
            old(self).wf(),
        ensures
            from_at(r, final(self).st()) == p_from(old(self).x(), old(self).st()),
            r is Ok ==> went(*old(self), *final(self)),
        decreases old(self).toks.len() - old(self).pos, 212int,
    {
        let ghost x = self.x();
        let ghost s0 = self.st();
        let mut left = self.parse_from_item()?;
        loop
            invariant
                went(*old(self), *self),
                x == self.x(),
                x == old(self).x(),
                s0 == old(self).st(),
                joins_from(x, self.st(), left@) == p_from(x, s0),
            decreases self.toks.len() - self.pos,
        {
            let ghost here = self.st();
            match self.parse_join_kind()? {
                Some(kind) => {
                    let right = self.parse_from_item()?;
                    let (on, using): (Option<Box<Expr>>, Vec<String>) = if kind == JoinKind::Cross {
                        let none: Vec<String> = Vec::new();
                        assert(strings_view(none@) =~= Seq::<Seq<char>>::empty());
                        (None, none)
                    } else {
                        self.parse_join_condition()?
                    };
                    left = FromClause::Join {
                        left: Box::new(left),
                        right: Box::new(right),
                        kind,
                        on,
                        using,
                    };
                    proof {
                        lemma_from_parts(left);
                    }
                },
                None => {
                    if !self.skip(Sym::Comma) {
                        return Ok(left);
                    }
                    let right = self.parse_from_item()?;
                    let none: Vec<String> = Vec::new();
                    assert(strings_view(none@) =~= Seq::<Seq<char>>::empty());
                    left = FromClause::Join {
                        left: Box::new(left),
                        right: Box::new(right),
                        kind: JoinKind::Cross,
                        on: None,
                        using: none,
                    };
                    proof {
                        lemma_from_parts(left);
                    }
                },
            }
        }
    }

    fn parse_from_item(&mut self) -> (r: Result<FromClause, Stop>)
        requires
            old(self).wf(),
        ensures
            from_at(r, final(self).st()) == p_source(old(self).x(), old(self).st()),
            r is Ok ==> went(*old(self), *final(self)),
        decreases old(self).toks.len() - old(self).pos, 210int,
    {
        let ghost x = self.x();
        let ghost s0 = self.st();
        if self.skip(Sym::LParen) {
            if self.is_kw("select") || self.is_kw("with") {
                let query = self.select()?;
                self.expect(Sym::RParen)?;
                return match self.parse_from_alias()? {
                    Some(alias) => {
                        let out = FromClause::Derived { query: Box::new(query), alias };
                        proof {
                            lemma_from_parts(out);
                        }
                        Ok(out)
                    },
                    None => Err(
                        sql_stop(
                            owned("a derived table (subquery) in FROM requires an alias"),
                        ),
                    ),
                };
            }
            let inner = self.parse_from()?;
            self.expect(Sym::RParen)?;
            return Ok(inner);
        }
        let at: u64 = self.pos as u64;
        let name = self.ident()?;
        let alias = self.parse_from_alias()?;
        let out = FromClause::Table { name, alias, at };
        proof {
            lemma_from_parts(out);
        }
        Ok(out)
    }

    pub fn opt_from(&mut self, k: &str) -> (r: Result<Option<FromClause>, Stop>)
        requires
            old(self).wf(),
        ensures
            opt_from_at(r, final(self).st()) == p_opt_from(old(self).x(), old(self).st(), k@),
            r is Ok ==> went(*old(self), *final(self)),
        decreases old(self).toks.len() - old(self).pos, 213int,
    {
        let ghost x = self.x();
        let ghost s0 = self.st();
        if self.eat_kw(k) {
            let f = self.parse_from()?;
            let out = Some(f);
            proof {
                lemma_from(out);
            }
            Ok(out)
        } else {
            Ok(None)
        }
    }

    #[verifier::rlimit(40)]
    fn select_core(&mut self) -> (r: Result<SelectStmt, Stop>)
        requires
            old(self).wf(),
        ensures
            select_at(r, final(self).st()) == p_core(old(self).x(), old(self).st()),
            r is Ok ==> went(*old(self), *final(self)),
        decreases old(self).toks.len() - old(self).pos, 214int,
    {
        let ghost x = self.x();
        let ghost s0 = self.st();
        self.expect_kw("select")?;
        let _ = self.eat_kw("all");
        let distinct = self.eat_kw("distinct");
        let items = self.select_items()?;
        let from = self.opt_from("from")?;
        let filter = self.opt_clause("where")?;
        let group_by = self.parse_group_by()?;
        let having = self.opt_clause("having")?;
        let with: Vec<CteDef> = Vec::new();
        let set_ops: Vec<SetOpPart> = Vec::new();
        let order_by: Vec<OrderKey> = Vec::new();
        assert(ctes_view(with@) =~= Seq::<CteV>::empty());
        assert(set_ops_view(set_ops@) =~= Seq::<SetOpV>::empty());
        assert(keys_view(order_by@) =~= Seq::<KeyV>::empty());
        let out = SelectStmt {
            with,
            distinct,
            items,
            from,
            filter,
            group_by,
            having,
            set_ops,
            order_by,
            limit: None,
            offset: None,
        };
        proof {
            lemma_select_lists(out);
            lemma_opt_expr(out.limit);
            lemma_opt_expr(out.offset);
        }
        Ok(out)
    }

    #[verifier::rlimit(40)]
    fn cte_list(&mut self) -> (r: Result<Vec<CteDef>, Stop>)
        requires
            old(self).wf(),
        ensures
            ctes_at(r, final(self).st()) == ctes_read_from(old(self).x(), old(self).st(), Seq::empty()),
            r is Ok ==> went(*old(self), *final(self)),
        decreases old(self).toks.len() - old(self).pos, 221int,
    {
        let ghost x = self.x();
        let ghost s0 = self.st();
        let mut out: Vec<CteDef> = Vec::new();
        assert(ctes_view(out@) =~= Seq::<CteV>::empty());
        loop
            invariant
                went(*old(self), *self),
                x == self.x(),
                x == old(self).x(),
                s0 == old(self).st(),
                ctes_read_from(x, self.st(), ctes_view(out@)) == ctes_read_from(
                    x,
                    s0,
                    Seq::empty(),
                ),
            decreases self.toks.len() - self.pos,
        {
            let ghost before = ctes_view(out@);
            let name = self.ident()?;
            if self.at(Sym::LParen) {
                let _ = self.paren_ident_list()?;
            }
            self.expect_kw("as")?;
            self.expect(Sym::LParen)?;
            let query = self.select()?;
            self.expect(Sym::RParen)?;
            let c = CteDef { name, query: Box::new(query) };
            let ghost cv = cte_view(c);
            out.push(c);
            assert(ctes_view(out@) =~= before.push(cv));
            if !self.skip(Sym::Comma) {
                return Ok(out);
            }
        }
    }

    fn parse_with(&mut self) -> (r: Result<Vec<CteDef>, Stop>)
        requires
            old(self).wf(),
        ensures
            ctes_at(r, final(self).st()) == p_with(old(self).x(), old(self).st()),
            r is Ok ==> went(*old(self), *final(self)),
        decreases old(self).toks.len() - old(self).pos, 222int,
    {
        let ghost x = self.x();
        let ghost s0 = self.st();
        if !self.eat_kw("with") {
            let out: Vec<CteDef> = Vec::new();
            assert(ctes_view(out@) =~= Seq::<CteV>::empty());
            return Ok(out);
        }
        let _ = self.eat_kw("recursive");
        self.cte_list()
    }

    #[verifier::rlimit(40)]
    fn arms(&mut self) -> (r: Result<Vec<SetOpPart>, Stop>)
        requires
            old(self).wf(),
        ensures
            arms_at(r, final(self).st()) == arms_read_from(old(self).x(), old(self).st(), Seq::empty()),
            r is Ok ==> went(*old(self), *final(self)),
        decreases old(self).toks.len() - old(self).pos, 223int,
    {
        let ghost x = self.x();
        let ghost s0 = self.st();
        let mut out: Vec<SetOpPart> = Vec::new();
        assert(set_ops_view(out@) =~= Seq::<SetOpV>::empty());
        loop
            invariant
                went(*old(self), *self),
                x == self.x(),
                x == old(self).x(),
                s0 == old(self).st(),
                arms_read_from(x, self.st(), set_ops_view(out@)) == arms_read_from(
                    x,
                    s0,
                    Seq::empty(),
                ),
            decreases self.toks.len() - self.pos,
        {
            let ghost before = set_ops_view(out@);
            let op = if self.is_kw("union") {
                SetOp::Union
            } else if self.is_kw("intersect") {
                SetOp::Intersect
            } else if self.is_kw("except") {
                SetOp::Except
            } else {
                return Ok(out);
            };
            self.bump();
            let all = self.eat_kw("all");
            let _ = self.eat_kw("distinct");
            let part = if self.skip(Sym::LParen) {
                let q = self.select()?;
                self.expect(Sym::RParen)?;
                q
            } else {
                self.select_core()?
            };
            let a = SetOpPart { op, all, query: Box::new(part) };
            let ghost av = set_op_view(a);
            out.push(a);
            assert(set_ops_view(out@) =~= before.push(av));
        }
    }

    /// A whole query.
    #[verifier::rlimit(40)]
    pub fn select(&mut self) -> (r: Result<SelectStmt, Stop>)
        requires
            old(self).wf(),
        ensures
            select_at(r, final(self).st()) == p_select(old(self).x(), old(self).st()),
            r is Ok ==> went(*old(self), *final(self)),
        decreases old(self).toks.len() - old(self).pos, 230int,
    {
        let ghost x = self.x();
        let ghost s0 = self.st();
        let with = self.parse_with()?;
        let core = self.select_core()?;
        let set_ops = self.arms()?;
        let order_by = self.parse_order_by()?;
        let (limit, offset) = self.parse_limit_offset()?;
        proof {
            lemma_select_lists(core);
        }
        let out = SelectStmt {
            with,
            distinct: core.distinct,
            items: core.items,
            from: core.from,
            filter: core.filter,
            group_by: core.group_by,
            having: core.having,
            set_ops,
            order_by,
            limit,
            offset,
        };
        proof {
            lemma_select_lists(out);
        }
        Ok(out)
    }

}

/// Parse an expression kept with a table.
pub fn parse_expr(sql: &str, reals: &Reals) -> (r: Result<Expr, Stop>)
    ensures
        stored_expr(sql@, reals@) == (match r {
            Ok(e) => Ok(e@),
            Err(s) => Err(s@),
        }),
{
    let toks = lex(sql, reals)?;
    let mut p = Parser::new(toks, sql, reals, true);
    let e = p.expr()?;
    if !p.at(Sym::Eof) {
        return Err(sql_stop(owned("trailing tokens after expression")));
    }
    Ok(e)
}

} // verus!
