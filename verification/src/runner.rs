//! Running whole queries: sources, subqueries, common table expressions and set
//! operations, down to the cores.
use vstd::prelude::*;
use crate::asks::{Stop, StopV};
use crate::catalog::clone_opt_string;
use crate::env::{place_in, sql_fail, sql_stop, within, Env, IN_VIEW};
use crate::eval::{cell, cell_at};
use crate::inspect::{needs_relational, relational};
use crate::query::{set_result, ResultSet, ResultV};
use crate::relation::{
    clone_rows, combine_set_op, combined, join, joined, relation_result, Relation, RelationV,
};
use crate::relational::{
    apply_output_order_limit, as_relation, core_over, cte_named, cte_rels_view, find_cte, finished,
    relation_from_result, retag, retagged, run_core, scan_table, table_relation, Clauses, ClausesV,
    Cte, CteRelV, World, WorldV,
};
use crate::select::{constant_query, constant_select, single_table_select, table_query};
use crate::sql::{
    boxed_view, cte_view, ctes_view, exprs_view, items_view, lemma_agg_arg, lemma_boxed,
    lemma_expr_lists, lemma_from, lemma_from_parts, lemma_opt_expr, lemma_select_lists,
    opt_expr_view, set_op_view, set_ops_view, whens_view, AggArg, AggArgV, CteDef, CteV, Expr,
    ExprV, FromClause, FromV, ItemV, SelItem, SelectStmt, SelectV, SetOpPart, SetOpV,
};
use crate::store::{name_pos, table_named, view_names};
use crate::text::{bool_int, concat2, int_of_bool, owned};
use crate::value::{row_view, rows_view, RowV, Value, ValueV};

verus! {

// ---- what queries yield --------------------------------------------------------------------------

/// What a query yields: its common table expressions, its leading core, the set
/// operations folded in, then the outer order and window.
pub open spec fn query_of(w: WorldV, depth: nat, q: SelectV) -> Result<ResultV, StopV>
    decreases depth, q, 1int,
{
    match ctes_from(w, depth, q.with, 0, Seq::empty()) {
        Err(e) => Err(e),
        Ok(ctes) => if q.set_ops.len() == 0 {
            core_of(w, depth, q, ctes, true)
        } else {
            match core_of(w, depth, q, ctes, false) {
                Err(e) => Err(e),
                Ok(first) => match arms_from(w, depth, q.set_ops, ctes, 0, first) {
                    Err(e) => Err(e),
                    Ok(all) => finished(all, q, w.env),
                },
            }
        },
    }
}

/// The common table expressions from `i` on, materialised, behind `acc`.
pub open spec fn ctes_from(
    w: WorldV,
    depth: nat,
    with: Seq<CteV>,
    i: int,
    acc: Seq<CteRelV>,
) -> Result<Seq<CteRelV>, StopV>
    decreases depth, with, with.len() - i,
{
    if i < 0 || i >= with.len() {
        Ok(acc)
    } else {
        match query_of(w, depth, *with[i].query) {
            Err(e) => Err(e),
            Ok(r) => ctes_from(
                w,
                depth,
                with,
                i + 1,
                acc.push(CteRelV { name: with[i].name, rel: as_relation(with[i].name, r) }),
            ),
        }
    }
}

/// The arms of a set operation from `i` on, combined with what came before.
pub open spec fn arms_from(
    w: WorldV,
    depth: nat,
    arms: Seq<SetOpV>,
    ctes: Seq<CteRelV>,
    i: int,
    acc: ResultV,
) -> Result<ResultV, StopV>
    decreases depth, arms, arms.len() - i,
{
    if i < 0 || i >= arms.len() {
        Ok(acc)
    } else {
        match core_of(w, depth, *arms[i].query, ctes, true) {
            Err(e) => Err(e),
            Ok(r) => match combined(acc, r, arms[i].op, arms[i].all) {
                Err(e) => Err(e),
                Ok(next) => arms_from(w, depth, arms, ctes, i + 1, next),
            },
        }
    }
}

/// One core: its source, its clauses with subqueries folded, then its stages.
pub open spec fn core_of(
    w: WorldV,
    depth: nat,
    q: SelectV,
    ctes: Seq<CteRelV>,
    tail: bool,
) -> Result<ResultV, StopV>
    decreases depth, q, 0int,
{
    let source = match q.from {
        None => Ok(RelationV { cols: Seq::empty(), rows: seq![Seq::empty()] }),
        Some(f) => source_of(w, depth, f, ctes),
    };
    match source {
        Err(e) => Err(e),
        Ok(rel) => match folded_opt(w, depth, q.filter) {
            Err(e) => Err(e),
            Ok(filter) => match folded_items(w, depth, q.items, 0, Seq::empty()) {
                Err(e) => Err(e),
                Ok(items) => match folded_list(w, depth, q.group_by, 0, Seq::empty()) {
                    Err(e) => Err(e),
                    Ok(group_by) => match folded_opt(w, depth, q.having) {
                        Err(e) => Err(e),
                        Ok(having) => core_over(
                            rel,
                            ClausesV { filter, items, group_by, having },
                            q,
                            tail,
                            w.env,
                        ),
                    },
                },
            },
        },
    }
}

/// The inside of a view, for a use of it.
pub open spec fn used_at(w: WorldV, at: u64) -> WorldV {
    WorldV { env: within(w.env, IN_VIEW, at), ..w }
}

/// What a source holds.
pub open spec fn source_of(w: WorldV, depth: nat, f: FromV, ctes: Seq<CteRelV>) -> Result<
    RelationV,
    StopV,
>
    decreases depth, f, 0int,
{
    match f {
        FromV::Table { name, alias, at } => {
            let src = match alias {
                Some(a) => a,
                None => name,
            };
            match cte_named(ctes, name, ctes.len() as int) {
                Some(rel) => Ok(RelationV { cols: retagged(rel.cols, src), rows: rel.rows }),
                None => match table_named(w.store, name) {
                    Some(t) => table_relation(w, t, src),
                    None => match name_pos(view_names(w.store.views), name, 0) {
                        None => Err(sql_fail("no such table: "@ + name)),
                        Some(v) => if depth == 0 {
                            Err(sql_fail("view nesting is too deep: "@ + name))
                        } else {
                            match query_of(used_at(w, at), (depth - 1) as nat, w.store.views[v].query) {
                                Err(e) => Err(e),
                                Ok(r) => Ok(as_relation(src, r)),
                            }
                        },
                    },
                },
            }
        },
        FromV::Derived { query, alias } => match query_of(w, depth, *query) {
            Err(e) => Err(e),
            Ok(r) => Ok(as_relation(alias, r)),
        },
        FromV::Join { left, right, kind, on, using } => match source_of(w, depth, *left, ctes) {
            Err(e) => Err(e),
            Ok(l) => match source_of(w, depth, *right, ctes) {
                Err(e) => Err(e),
                Ok(r) => joined(
                    l,
                    r,
                    kind,
                    match on {
                        Some(e) => Some(*e),
                        None => None,
                    },
                    using,
                    w.env,
                ),
            },
        },
    }
}

// ---- folding subqueries --------------------------------------------------------------------------

/// A scalar subquery's value: its single cell, or `NULL` without a row.
pub open spec fn scalar_of(r: ResultV) -> Result<ExprV, StopV> {
    if r.columns.len() != 1 {
        Err(sql_fail("a scalar subquery must return exactly one column"@))
    } else if r.rows.len() == 0 {
        Ok(ExprV::Lit(ValueV::Null))
    } else if r.rows.len() == 1 {
        Ok(ExprV::Lit(last_cell(r.rows[0])))
    } else {
        Err(sql_fail("more than one row returned by a scalar subquery"@))
    }
}

pub open spec fn last_cell(r: RowV) -> ValueV {
    cell(r, r.len() - 1)
}

/// The literals an `IN` subquery stands for.
pub open spec fn members_of(r: ResultV) -> Result<Seq<ExprV>, StopV> {
    if r.columns.len() != 1 {
        Err(sql_fail("a subquery used with IN must return exactly one column"@))
    } else {
        Ok(Seq::new(r.rows.len(), |i: int| ExprV::Lit(last_cell(r.rows[i]))))
    }
}

/// An expression with its subqueries replaced by what they yield.
pub open spec fn folded(w: WorldV, depth: nat, e: ExprV) -> Result<ExprV, StopV>
    decreases depth, e, 0int,
{
    match e {
        ExprV::ScalarSubquery(q) => match query_of(w, depth, *q) {
            Err(s) => Err(s),
            Ok(r) => scalar_of(r),
        },
        ExprV::Exists { query, negated } => match query_of(w, depth, *query) {
            Err(s) => Err(s),
            Ok(r) => Ok(ExprV::Lit(ValueV::Int(bool_int((r.rows.len() > 0) != negated)))),
        },
        ExprV::InSubquery { e, query, negated } => match query_of(w, depth, *query) {
            Err(s) => Err(s),
            Ok(r) => match members_of(r) {
                Err(s) => Err(s),
                Ok(list) => match folded(w, depth, *e) {
                    Err(s) => Err(s),
                    Ok(x) => Ok(ExprV::InList { e: Box::new(x), list, negated }),
                },
            },
        },
        ExprV::Binary { op, l, r } => match folded(w, depth, *l) {
            Err(s) => Err(s),
            Ok(a) => match folded(w, depth, *r) {
                Err(s) => Err(s),
                Ok(b) => Ok(ExprV::Binary { op, l: Box::new(a), r: Box::new(b) }),
            },
        },
        ExprV::Unary { op, e } => match folded(w, depth, *e) {
            Err(s) => Err(s),
            Ok(x) => Ok(ExprV::Unary { op, e: Box::new(x) }),
        },
        ExprV::IsNull { e, negated } => match folded(w, depth, *e) {
            Err(s) => Err(s),
            Ok(x) => Ok(ExprV::IsNull { e: Box::new(x), negated }),
        },
        ExprV::Like { e, pattern, escape, negated, insensitive } => match folded(w, depth, *e) {
            Err(s) => Err(s),
            Ok(x) => match folded(w, depth, *pattern) {
                Err(s) => Err(s),
                Ok(p) => match folded_box(w, depth, escape) {
                    Err(s) => Err(s),
                    Ok(esc) => Ok(
                        ExprV::Like {
                            e: Box::new(x),
                            pattern: Box::new(p),
                            escape: esc,
                            negated,
                            insensitive,
                        },
                    ),
                },
            },
        },
        ExprV::InList { e, list, negated } => match folded(w, depth, *e) {
            Err(s) => Err(s),
            Ok(x) => match folded_list(w, depth, list, 0, Seq::empty()) {
                Err(s) => Err(s),
                Ok(l) => Ok(ExprV::InList { e: Box::new(x), list: l, negated }),
            },
        },
        ExprV::Between { e, lo, hi, negated } => match folded(w, depth, *e) {
            Err(s) => Err(s),
            Ok(x) => match folded(w, depth, *lo) {
                Err(s) => Err(s),
                Ok(a) => match folded(w, depth, *hi) {
                    Err(s) => Err(s),
                    Ok(b) => Ok(
                        ExprV::Between {
                            e: Box::new(x),
                            lo: Box::new(a),
                            hi: Box::new(b),
                            negated,
                        },
                    ),
                },
            },
        },
        ExprV::Case { operand, whens, els } => match folded_box(w, depth, operand) {
            Err(s) => Err(s),
            Ok(o) => match folded_whens(w, depth, whens, 0, Seq::empty()) {
                Err(s) => Err(s),
                Ok(ws) => match folded_box(w, depth, els) {
                    Err(s) => Err(s),
                    Ok(x) => Ok(ExprV::Case { operand: o, whens: ws, els: x }),
                },
            },
        },
        ExprV::Cast { e, target } => match folded(w, depth, *e) {
            Err(s) => Err(s),
            Ok(x) => Ok(ExprV::Cast { e: Box::new(x), target }),
        },
        ExprV::Func { name, args } => match folded_list(w, depth, args, 0, Seq::empty()) {
            Err(s) => Err(s),
            Ok(l) => Ok(ExprV::Func { name, args: l }),
        },
        ExprV::Aggregate { func, arg, distinct, sep } => {
            let inner = match arg {
                AggArgV::Star => Ok(AggArgV::Star),
                AggArgV::Expr(x) => match folded(w, depth, *x) {
                    Err(s) => Err(s),
                    Ok(y) => Ok(AggArgV::Expr(Box::new(y))),
                },
            };
            match inner {
                Err(s) => Err(s),
                Ok(a) => match folded_box(w, depth, sep) {
                    Err(s) => Err(s),
                    Ok(sp) => Ok(ExprV::Aggregate { func, arg: a, distinct, sep: sp }),
                },
            }
        },
        _ => Ok(e),
    }
}

pub open spec fn folded_box(w: WorldV, depth: nat, o: Option<Box<ExprV>>) -> Result<
    Option<Box<ExprV>>,
    StopV,
>
    decreases depth, o, 0int,
{
    match o {
        None => Ok(None),
        Some(e) => match folded(w, depth, *e) {
            Err(s) => Err(s),
            Ok(x) => Ok(Some(Box::new(x))),
        },
    }
}

pub open spec fn folded_opt(w: WorldV, depth: nat, o: Option<ExprV>) -> Result<Option<ExprV>, StopV>
    decreases depth, o, 0int,
{
    match o {
        None => Ok(None),
        Some(e) => match folded(w, depth, e) {
            Err(s) => Err(s),
            Ok(x) => Ok(Some(x)),
        },
    }
}

/// Expressions from `i` on with their subqueries folded, behind `acc`.
pub open spec fn folded_list(w: WorldV, depth: nat, list: Seq<ExprV>, i: int, acc: Seq<ExprV>) -> Result<
    Seq<ExprV>,
    StopV,
>
    decreases depth, list, list.len() - i,
{
    if i < 0 || i >= list.len() {
        Ok(acc)
    } else {
        match folded(w, depth, list[i]) {
            Err(s) => Err(s),
            Ok(x) => folded_list(w, depth, list, i + 1, acc.push(x)),
        }
    }
}

pub open spec fn folded_whens(
    w: WorldV,
    depth: nat,
    whens: Seq<(ExprV, ExprV)>,
    i: int,
    acc: Seq<(ExprV, ExprV)>,
) -> Result<Seq<(ExprV, ExprV)>, StopV>
    decreases depth, whens, whens.len() - i,
{
    if i < 0 || i >= whens.len() {
        Ok(acc)
    } else {
        match folded(w, depth, whens[i].0) {
            Err(s) => Err(s),
            Ok(c) => match folded(w, depth, whens[i].1) {
                Err(s) => Err(s),
                Ok(r) => folded_whens(w, depth, whens, i + 1, acc.push((c, r))),
            },
        }
    }
}

pub open spec fn folded_items(
    w: WorldV,
    depth: nat,
    items: Seq<ItemV>,
    i: int,
    acc: Seq<ItemV>,
) -> Result<Seq<ItemV>, StopV>
    decreases depth, items, items.len() - i,
{
    if i < 0 || i >= items.len() {
        Ok(acc)
    } else {
        match items[i] {
            ItemV::Star { qualifier } => folded_items(
                w,
                depth,
                items,
                i + 1,
                acc.push(ItemV::Star { qualifier }),
            ),
            ItemV::Expr { expr, alias } => match folded(w, depth, expr) {
                Err(s) => Err(s),
                Ok(x) => folded_items(
                    w,
                    depth,
                    items,
                    i + 1,
                    acc.push(ItemV::Expr { expr: x, alias }),
                ),
            },
        }
    }
}

// ---- running them --------------------------------------------------------------------------------

pub open spec fn expr_result(r: Result<Expr, Stop>) -> Result<ExprV, StopV> {
    match r {
        Ok(e) => Ok(e@),
        Err(s) => Err(s@),
    }
}

pub open spec fn opt_expr_result(r: Result<Option<Expr>, Stop>) -> Result<Option<ExprV>, StopV> {
    match r {
        Ok(o) => Ok(opt_expr_view(o)),
        Err(s) => Err(s@),
    }
}

pub open spec fn box_result(r: Result<Option<Box<Expr>>, Stop>) -> Result<
    Option<Box<ExprV>>,
    StopV,
> {
    match r {
        Ok(o) => Ok(boxed_view(o)),
        Err(s) => Err(s@),
    }
}

pub open spec fn exprs_result(r: Result<Vec<Expr>, Stop>) -> Result<Seq<ExprV>, StopV> {
    match r {
        Ok(v) => Ok(exprs_view(v@)),
        Err(s) => Err(s@),
    }
}

pub open spec fn whens_result(r: Result<Vec<(Expr, Expr)>, Stop>) -> Result<
    Seq<(ExprV, ExprV)>,
    StopV,
> {
    match r {
        Ok(v) => Ok(whens_view(v@)),
        Err(s) => Err(s@),
    }
}

pub open spec fn items_result(r: Result<Vec<SelItem>, Stop>) -> Result<Seq<ItemV>, StopV> {
    match r {
        Ok(v) => Ok(items_view(v@)),
        Err(s) => Err(s@),
    }
}

fn last_value(row: &Vec<Value>) -> (v: Value)
    ensures
        v@ == last_cell(row_view(row@)),
{
    if row.len() == 0 {
        Value::Null
    } else {
        cell_at(row, row.len() - 1)
    }
}

fn scalar_literal(rs: &ResultSet) -> (r: Result<Expr, Stop>)
    ensures
        expr_result(r) == scalar_of(rs@),
{
    if rs.columns.len() != 1 {
        return Err(sql_stop(owned("a scalar subquery must return exactly one column")));
    }
    if rs.rows.len() == 0 {
        Ok(Expr::Lit(Value::Null))
    } else if rs.rows.len() == 1 {
        assert(rs@.rows[0] == row_view(rs.rows@[0]@));
        Ok(Expr::Lit(last_value(&rs.rows[0])))
    } else {
        Err(sql_stop(owned("more than one row returned by a scalar subquery")))
    }
}

fn member_literals(rs: &ResultSet) -> (r: Result<Vec<Expr>, Stop>)
    ensures
        exprs_result(r) == members_of(rs@),
{
    if rs.columns.len() != 1 {
        return Err(sql_stop(owned("a subquery used with IN must return exactly one column")));
    }
    let mut out: Vec<Expr> = Vec::new();
    let mut i: usize = 0;
    while i < rs.rows.len()
        invariant
            i <= rs.rows.len(),
            out.len() == i,
            forall|k: int| 0 <= k < i ==> (#[trigger] out@[k])@ == ExprV::Lit(last_cell(rs@.rows[k])),
        decreases rs.rows.len() - i,
    {
        assert(rs@.rows[i as int] == row_view(rs.rows@[i as int]@));
        let e = Expr::Lit(last_value(&rs.rows[i]));
        out.push(e);
        i += 1;
    }
    assert(exprs_view(out@) =~= Seq::new(rs@.rows.len(), |i: int| ExprV::Lit(last_cell(rs@.rows[i]))));
    Ok(out)
}

/// Run a whole query.
pub fn run_query(w: &World, depth: usize, sel: &SelectStmt) -> (r: Result<ResultSet, Stop>)
    ensures
        set_result(r) == query_of(w@, depth as nat, sel@),
    decreases depth, sel, 1int,
{
    proof {
        lemma_select_lists(*sel);
    }
    let ctes = match run_ctes(w, depth, &sel.with) {
        Ok(c) => c,
        Err(s) => {
            return Err(s);
        },
    };
    if sel.set_ops.len() == 0 {
        return eval_core(w, depth, sel, &ctes, true);
    }
    let first = match eval_core(w, depth, sel, &ctes, false) {
        Ok(r) => r,
        Err(s) => {
            return Err(s);
        },
    };
    match run_arms(w, depth, &sel.set_ops, &ctes, first) {
        Ok(all) => apply_output_order_limit(all, sel, w.env),
        Err(s) => Err(s),
    }
}

fn run_ctes(w: &World, depth: usize, with: &Vec<CteDef>) -> (r: Result<Vec<Cte>, Stop>)
    ensures
        ctes_from(w@, depth as nat, ctes_view(with@), 0, Seq::empty()) == (match r {
            Ok(v) => Ok(cte_rels_view(v@)),
            Err(s) => Err(s@),
        }),
    decreases depth, with, 0int,
{
    let ghost wv = ctes_view(with@);
    let mut out: Vec<Cte> = Vec::new();
    assert(cte_rels_view(out@) =~= Seq::<CteRelV>::empty());
    let mut i: usize = 0;
    while i < with.len()
        invariant
            i <= with.len(),
            wv == ctes_view(with@),
            ctes_from(w@, depth as nat, wv, i as int, cte_rels_view(out@)) == ctes_from(
                w@,
                depth as nat,
                wv,
                0,
                Seq::empty(),
            ),
        decreases with.len() - i,
    {
        assert(wv[i as int] == cte_view(with@[i as int]));
        assert(decreases_to!(with => with@[i as int]));
        match run_query(w, depth, &with[i].query) {
            Err(s) => {
                return Err(s);
            },
            Ok(rs) => {
                let ghost before = cte_rels_view(out@);
                let rel = relation_from_result(&with[i].name, rs);
                let c = Cte { name: with[i].name.clone(), rel };
                let ghost cv = c@;
                out.push(c);
                assert(cte_rels_view(out@) =~= before.push(cv));
            },
        }
        i += 1;
    }
    Ok(out)
}

fn run_arms(w: &World, depth: usize, arms: &Vec<SetOpPart>, ctes: &Vec<Cte>, first: ResultSet) -> (r:
    Result<ResultSet, Stop>)
    ensures
        set_result(r) == arms_from(
            w@,
            depth as nat,
            set_ops_view(arms@),
            cte_rels_view(ctes@),
            0,
            first@,
        ),
    decreases depth, arms, 0int,
{
    let ghost av = set_ops_view(arms@);
    let ghost cv = cte_rels_view(ctes@);
    let ghost fv = first@;
    let mut acc = first;
    let mut i: usize = 0;
    while i < arms.len()
        invariant
            i <= arms.len(),
            av == set_ops_view(arms@),
            cv == cte_rels_view(ctes@),
            fv == first@,
            arms_from(w@, depth as nat, av, cv, i as int, acc@) == arms_from(
                w@,
                depth as nat,
                av,
                cv,
                0,
                fv,
            ),
        decreases arms.len() - i,
    {
        assert(av[i as int] == set_op_view(arms@[i as int]));
        assert(decreases_to!(arms => arms@[i as int]));
        match eval_core(w, depth, &arms[i].query, ctes, true) {
            Err(s) => {
                return Err(s);
            },
            Ok(rhs) => match combine_set_op(acc, rhs, arms[i].op, arms[i].all) {
                Err(s) => {
                    return Err(s);
                },
                Ok(next) => {
                    acc = next;
                },
            },
        }
        i += 1;
    }
    Ok(acc)
}

fn eval_core(w: &World, depth: usize, sel: &SelectStmt, ctes: &Vec<Cte>, tail: bool) -> (r: Result<
    ResultSet,
    Stop,
>)
    ensures
        set_result(r) == core_of(w@, depth as nat, sel@, cte_rels_view(ctes@), tail),
    decreases depth, sel, 0int,
{
    proof {
        lemma_select_lists(*sel);
        lemma_from(sel.from);
    }
    let rel = match &sel.from {
        None => {
            let mut rows: Vec<Vec<Value>> = Vec::new();
            let cols: Vec<crate::eval::RelCol> = Vec::new();
            let none: Vec<Value> = Vec::new();
            assert(row_view(none@) =~= Seq::<ValueV>::empty());
            rows.push(none);
            assert(rows_view(rows@) =~= seq![Seq::<ValueV>::empty()]);
            assert(crate::eval::rel_cols_view(cols@) =~= Seq::<crate::eval::RelColV>::empty());
            Relation { cols, rows }
        },
        Some(f) => match build_from(w, depth, f, ctes) {
            Ok(r) => r,
            Err(s) => {
                return Err(s);
            },
        },
    };
    let filter = match resolve_opt(w, depth, &sel.filter) {
        Ok(x) => x,
        Err(s) => {
            return Err(s);
        },
    };
    let items = match resolve_items(w, depth, &sel.items) {
        Ok(x) => x,
        Err(s) => {
            return Err(s);
        },
    };
    let group_by = match resolve_list(w, depth, &sel.group_by) {
        Ok(x) => x,
        Err(s) => {
            return Err(s);
        },
    };
    let having = match resolve_opt(w, depth, &sel.having) {
        Ok(x) => x,
        Err(s) => {
            return Err(s);
        },
    };
    run_core(&rel, &Clauses { filter, items, group_by, having }, sel, tail, w.env)
}

pub fn build_from(w: &World, depth: usize, f: &FromClause, ctes: &Vec<Cte>) -> (r: Result<
    Relation,
    Stop,
>)
    ensures
        relation_result(r) == source_of(w@, depth as nat, f@, cte_rels_view(ctes@)),
    decreases depth, f, 0int,
{
    proof {
        lemma_from_parts(*f);
    }
    match f {
        FromClause::Table { name, alias, at } => {
            let src: &String = match alias {
                Some(a) => a,
                None => name,
            };
            match find_cte(ctes, name) {
                Some(rel) => {
                    return Ok(
                        Relation { cols: retag(&rel.cols, src), rows: clone_rows(&rel.rows) },
                    );
                },
                None => {},
            }
            match w.store.table(name) {
                Some(t) => {
                    return scan_table(w, t, src);
                },
                None => {},
            }
            match w.store.view_query(name) {
                None => Err(sql_stop(concat2("no such table: ", name))),
                Some(q) => if depth == 0 {
                    Err(sql_stop(concat2("view nesting is too deep: ", name)))
                } else {
                    let place = place_in(w.env, IN_VIEW, *at);
                    let env = Env {
                        reals: w.env.reals,
                        now: w.env.now,
                        params: w.env.params,
                        session: w.env.session,
                        place: place.as_slice(),
                    };
                    let inner = World { store: w.store, sight: w.sight, env: &env };
                    assert(inner@ == used_at(w@, *at));
                    match run_query(&inner, depth - 1, q) {
                        Ok(rs) => Ok(relation_from_result(src, rs)),
                        Err(s) => Err(s),
                    }
                },
            }
        },
        FromClause::Derived { query, alias } => match run_query(w, depth, query) {
            Ok(rs) => Ok(relation_from_result(alias, rs)),
            Err(s) => Err(s),
        },
        FromClause::Join { left, right, kind, on, using } => {
            let l = match build_from(w, depth, left, ctes) {
                Ok(r) => r,
                Err(s) => {
                    return Err(s);
                },
            };
            let r = match build_from(w, depth, right, ctes) {
                Ok(r) => r,
                Err(s) => {
                    return Err(s);
                },
            };
            join(l, r, *kind, on, using, w.env)
        },
    }
}

fn resolve_opt(w: &World, depth: usize, o: &Option<Expr>) -> (r: Result<Option<Expr>, Stop>)
    ensures
        opt_expr_result(r) == folded_opt(w@, depth as nat, opt_expr_view(*o)),
    decreases depth, o, 0int,
{
    proof {
        lemma_opt_expr(*o);
    }
    match o {
        None => Ok(None),
        Some(e) => match resolve_sub(w, depth, e) {
            Ok(x) => {
                let out = Some(x);
                proof {
                    lemma_opt_expr(out);
                }
                Ok(out)
            },
            Err(s) => Err(s),
        },
    }
}

fn resolve_box_opt(w: &World, depth: usize, o: &Option<Box<Expr>>) -> (r: Result<
    Option<Box<Expr>>,
    Stop,
>)
    ensures
        box_result(r) == folded_box(w@, depth as nat, boxed_view(*o)),
    decreases depth, o, 0int,
{
    proof {
        lemma_boxed(*o);
    }
    match o {
        None => Ok(None),
        Some(e) => match resolve_sub(w, depth, e) {
            Ok(x) => {
                let out = Some(Box::new(x));
                proof {
                    lemma_boxed(out);
                }
                Ok(out)
            },
            Err(s) => Err(s),
        },
    }
}

fn resolve_list(w: &World, depth: usize, list: &Vec<Expr>) -> (r: Result<Vec<Expr>, Stop>)
    ensures
        exprs_result(r) == folded_list(w@, depth as nat, exprs_view(list@), 0, Seq::empty()),
    decreases depth, list, 0int,
{
    let ghost lv = exprs_view(list@);
    let mut out: Vec<Expr> = Vec::new();
    assert(exprs_view(out@) =~= Seq::<ExprV>::empty());
    let mut i: usize = 0;
    while i < list.len()
        invariant
            i <= list.len(),
            lv == exprs_view(list@),
            folded_list(w@, depth as nat, lv, i as int, exprs_view(out@)) == folded_list(
                w@,
                depth as nat,
                lv,
                0,
                Seq::empty(),
            ),
        decreases list.len() - i,
    {
        assert(lv[i as int] == list@[i as int]@);
        match resolve_sub(w, depth, &list[i]) {
            Err(s) => {
                return Err(s);
            },
            Ok(x) => {
                let ghost before = exprs_view(out@);
                let ghost xv = x@;
                out.push(x);
                assert(exprs_view(out@) =~= before.push(xv));
            },
        }
        i += 1;
    }
    Ok(out)
}

fn resolve_whens(w: &World, depth: usize, whens: &Vec<(Expr, Expr)>) -> (r: Result<
    Vec<(Expr, Expr)>,
    Stop,
>)
    ensures
        whens_result(r) == folded_whens(w@, depth as nat, whens_view(whens@), 0, Seq::empty()),
    decreases depth, whens, 0int,
{
    let ghost wv = whens_view(whens@);
    let mut out: Vec<(Expr, Expr)> = Vec::new();
    assert(whens_view(out@) =~= Seq::<(ExprV, ExprV)>::empty());
    let mut i: usize = 0;
    while i < whens.len()
        invariant
            i <= whens.len(),
            wv == whens_view(whens@),
            folded_whens(w@, depth as nat, wv, i as int, whens_view(out@)) == folded_whens(
                w@,
                depth as nat,
                wv,
                0,
                Seq::empty(),
            ),
        decreases whens.len() - i,
    {
        assert(wv[i as int] == (whens@[i as int].0@, whens@[i as int].1@));
        assert(decreases_to!(whens => whens@[i as int]));
        let c = match resolve_sub(w, depth, &whens[i].0) {
            Ok(x) => x,
            Err(s) => {
                return Err(s);
            },
        };
        let t = match resolve_sub(w, depth, &whens[i].1) {
            Ok(x) => x,
            Err(s) => {
                return Err(s);
            },
        };
        let ghost before = whens_view(out@);
        let ghost pv = (c@, t@);
        out.push((c, t));
        assert(whens_view(out@) =~= before.push(pv));
        i += 1;
    }
    Ok(out)
}

fn resolve_items(w: &World, depth: usize, items: &Vec<SelItem>) -> (r: Result<Vec<SelItem>, Stop>)
    ensures
        items_result(r) == folded_items(w@, depth as nat, items_view(items@), 0, Seq::empty()),
    decreases depth, items, 0int,
{
    let ghost iv = items_view(items@);
    let mut out: Vec<SelItem> = Vec::new();
    assert(items_view(out@) =~= Seq::<ItemV>::empty());
    let mut i: usize = 0;
    while i < items.len()
        invariant
            i <= items.len(),
            iv == items_view(items@),
            folded_items(w@, depth as nat, iv, i as int, items_view(out@)) == folded_items(
                w@,
                depth as nat,
                iv,
                0,
                Seq::empty(),
            ),
        decreases items.len() - i,
    {
        assert(iv[i as int] == items@[i as int]@);
        let ghost before = items_view(out@);
        assert(decreases_to!(items => items@[i as int]));
        match &items[i] {
            SelItem::Star { qualifier } => {
                let x = SelItem::Star { qualifier: clone_opt_string(qualifier) };
                let ghost xv = x@;
                out.push(x);
                assert(items_view(out@) =~= before.push(xv));
            },
            SelItem::Expr { expr, alias } => match resolve_sub(w, depth, expr) {
                Err(s) => {
                    return Err(s);
                },
                Ok(e) => {
                    let x = SelItem::Expr { expr: e, alias: clone_opt_string(alias) };
                    let ghost xv = x@;
                    out.push(x);
                    assert(items_view(out@) =~= before.push(xv));
                },
            },
        }
        i += 1;
    }
    Ok(out)
}

/// Replace the subqueries of an expression by what they yield.
fn resolve_sub(w: &World, depth: usize, e: &Expr) -> (r: Result<Expr, Stop>)
    ensures
        expr_result(r) == folded(w@, depth as nat, e@),
    decreases depth, e, 1int,
{
    match e {
        Expr::ScalarSubquery(q) => match run_query(w, depth, q) {
            Ok(rs) => scalar_literal(&rs),
            Err(s) => Err(s),
        },
        Expr::Exists { query, negated } => match run_query(w, depth, query) {
            Ok(rs) => {
                assert(rs@.rows.len() == rs.rows.len());
                Ok(Expr::Lit(Value::Int(int_of_bool((rs.rows.len() > 0) != *negated))))
            },
            Err(s) => Err(s),
        },
        Expr::InSubquery { e: x, query, negated } => match run_query(w, depth, query) {
            Err(s) => Err(s),
            Ok(rs) => match member_literals(&rs) {
                Err(s) => Err(s),
                Ok(list) => match resolve_sub(w, depth, x) {
                    Err(s) => Err(s),
                    Ok(y) => {
                        let out = Expr::InList { e: Box::new(y), list, negated: *negated };
                        proof {
                            lemma_expr_lists(out);
                        }
                        Ok(out)
                    },
                },
            },
        },
        _ => resolve_children(w, depth, e),
    }
}

fn resolve_children(w: &World, depth: usize, e: &Expr) -> (r: Result<Expr, Stop>)
    requires
        !(e is ScalarSubquery) && !(e is Exists) && !(e is InSubquery),
    ensures
        expr_result(r) == folded(w@, depth as nat, e@),
    decreases depth, e, 0int,
{
    proof {
        lemma_expr_lists(*e);
    }
    match e {
        Expr::Binary { op, l, r } => {
            let a = match resolve_sub(w, depth, l) {
                Ok(x) => x,
                Err(s) => {
                    return Err(s);
                },
            };
            let b = match resolve_sub(w, depth, r) {
                Ok(x) => x,
                Err(s) => {
                    return Err(s);
                },
            };
            Ok(Expr::Binary { op: *op, l: Box::new(a), r: Box::new(b) })
        },
        Expr::Unary { op, e } => match resolve_sub(w, depth, e) {
            Ok(x) => Ok(Expr::Unary { op: *op, e: Box::new(x) }),
            Err(s) => Err(s),
        },
        Expr::IsNull { e, negated } => match resolve_sub(w, depth, e) {
            Ok(x) => Ok(Expr::IsNull { e: Box::new(x), negated: *negated }),
            Err(s) => Err(s),
        },
        Expr::Like { e, pattern, escape, negated, insensitive } => {
            proof {
                lemma_boxed(*escape);
            }
            let x = match resolve_sub(w, depth, e) {
                Ok(x) => x,
                Err(s) => {
                    return Err(s);
                },
            };
            let p = match resolve_sub(w, depth, pattern) {
                Ok(x) => x,
                Err(s) => {
                    return Err(s);
                },
            };
            let esc = match resolve_box_opt(w, depth, escape) {
                Ok(x) => x,
                Err(s) => {
                    return Err(s);
                },
            };
            proof {
                lemma_boxed(esc);
            }
            Ok(
                Expr::Like {
                    e: Box::new(x),
                    pattern: Box::new(p),
                    escape: esc,
                    negated: *negated,
                    insensitive: *insensitive,
                },
            )
        },
        Expr::InList { e, list, negated } => {
            let x = match resolve_sub(w, depth, e) {
                Ok(x) => x,
                Err(s) => {
                    return Err(s);
                },
            };
            let l = match resolve_list(w, depth, list) {
                Ok(x) => x,
                Err(s) => {
                    return Err(s);
                },
            };
            let out = Expr::InList { e: Box::new(x), list: l, negated: *negated };
            proof {
                lemma_expr_lists(out);
            }
            Ok(out)
        },
        Expr::Between { e, lo, hi, negated } => {
            let x = match resolve_sub(w, depth, e) {
                Ok(x) => x,
                Err(s) => {
                    return Err(s);
                },
            };
            let a = match resolve_sub(w, depth, lo) {
                Ok(x) => x,
                Err(s) => {
                    return Err(s);
                },
            };
            let b = match resolve_sub(w, depth, hi) {
                Ok(x) => x,
                Err(s) => {
                    return Err(s);
                },
            };
            Ok(
                Expr::Between {
                    e: Box::new(x),
                    lo: Box::new(a),
                    hi: Box::new(b),
                    negated: *negated,
                },
            )
        },
        Expr::Case { operand, whens, els } => {
            let o = match resolve_box_opt(w, depth, operand) {
                Ok(x) => x,
                Err(s) => {
                    return Err(s);
                },
            };
            let ws = match resolve_whens(w, depth, whens) {
                Ok(x) => x,
                Err(s) => {
                    return Err(s);
                },
            };
            let x = match resolve_box_opt(w, depth, els) {
                Ok(x) => x,
                Err(s) => {
                    return Err(s);
                },
            };
            let out = Expr::Case { operand: o, whens: ws, els: x };
            proof {
                lemma_expr_lists(out);
            }
            Ok(out)
        },
        Expr::Cast { e, target } => match resolve_sub(w, depth, e) {
            Ok(x) => Ok(Expr::Cast { e: Box::new(x), target: *target }),
            Err(s) => Err(s),
        },
        Expr::Func { name, args } => match resolve_list(w, depth, args) {
            Ok(l) => {
                let out = Expr::Func { name: name.clone(), args: l };
                proof {
                    lemma_expr_lists(out);
                }
                Ok(out)
            },
            Err(s) => Err(s),
        },
        Expr::Aggregate { func, arg, distinct, sep } => {
            proof {
                lemma_boxed(*sep);
                lemma_agg_arg(*arg);
            }
            let a = match arg {
                AggArg::Star => AggArg::Star,
                AggArg::Expr(x) => match resolve_sub(w, depth, x) {
                    Ok(y) => AggArg::Expr(Box::new(y)),
                    Err(s) => {
                        return Err(s);
                    },
                },
            };
            let sp = match resolve_box_opt(w, depth, sep) {
                Ok(x) => x,
                Err(s) => {
                    return Err(s);
                },
            };
            proof {
                lemma_boxed(sp);
                lemma_agg_arg(a);
            }
            Ok(Expr::Aggregate { func: *func, arg: a, distinct: *distinct, sep: sp })
        },
        Expr::Null => Ok(Expr::Null),
        Expr::Int(i) => Ok(Expr::Int(*i)),
        Expr::Real(b) => Ok(Expr::Real(*b)),
        Expr::Str(s) => Ok(Expr::Str(s.clone())),
        Expr::Vector(v) => {
            let c = v.clone();
            assert(c@ =~= v@);
            Ok(Expr::Vector(c))
        },
        Expr::Lit(v) => Ok(Expr::Lit(v.clone())),
        Expr::Param(i) => Ok(Expr::Param(*i)),
        Expr::Column(n) => Ok(Expr::Column(n.clone())),
        Expr::Excluded(n) => Ok(Expr::Excluded(n.clone())),
        Expr::Default => Ok(Expr::Default),
        Expr::Qualified(t, n) => Ok(Expr::Qualified(t.clone(), n.clone())),
        Expr::ScalarSubquery(_) | Expr::Exists { .. } | Expr::InSubquery { .. } => Ok(Expr::Null),
    }
}

// ---- entry ---------------------------------------------------------------------------------------

/// What a query yields: over one plain table or none, by the short way.
pub open spec fn selected(w: WorldV, q: SelectV) -> Result<ResultV, StopV> {
    if relational(q) {
        query_of(w, w.store.views.len(), q)
    } else {
        match q.from {
            None => constant_query(q, w.env),
            Some(FromV::Table { name, .. }) => if table_named(w.store, name) is None && name_pos(
                view_names(w.store.views),
                name,
                0,
            ) is Some {
                query_of(w, w.store.views.len(), q)
            } else {
                table_query(w.store, q, name, w.sight, w.env)
            },
            _ => query_of(w, w.store.views.len(), q),
        }
    }
}

/// Run a query.
pub fn run_select(w: &World, sel: &SelectStmt) -> (r: Result<ResultSet, Stop>)
    ensures
        set_result(r) == selected(w@, sel@),
{
    proof {
        lemma_from(sel.from);
        if sel.from is Some {
            lemma_from_parts(sel.from->Some_0);
        }
    }
    let depth: usize = w.store.views.len();
    assert(w@.store.views.len() == depth);
    if needs_relational(sel) {
        return run_query(w, depth, sel);
    }
    match &sel.from {
        None => constant_select(sel, w.env),
        Some(FromClause::Table { name, .. }) => if !w.store.has_table(name) && w.store.has_view(
            name,
        ) {
            run_query(w, depth, sel)
        } else {
            single_table_select(w.store, sel, name, &w.sight, w.env)
        },
        _ => run_query(w, depth, sel),
    }
}

} // verus!
