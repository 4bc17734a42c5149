//! The stages of a query: filter, group, order, project, cut.
use vstd::prelude::*;
use crate::asks::{Stop, StopV};
use crate::catalog::opt_text;
use crate::env::{sql_fail, sql_stop, Env, EnvV};
use crate::eval::{ev, eval, group_view, holds, predicate, root_ctx, row_result, CtxV, EvalCtx};
use crate::ieee::{real_to_int, to_int};
use crate::scope::{
    column_name, expr_type_of, in_row, output_name, place_name, place_type, places_view, star_cells,
    star_heads, Scope, ScopeV,
};
use crate::sql::{items_view, lemma_opt_expr, opt_expr_view, Expr, ExprV, ItemV, SelItem};
use crate::text::{concat2, i64_of_text, owned, parse_i64, to_chars, trim_chars, trimmed};
use crate::value::{class_name, row_view, rows_view, ColumnType, RowV, Value, ValueV};

verus! {

/// A query result.
#[derive(Debug)]
pub struct ResultSet {
    pub columns: Vec<String>,
    /// The reported type of each column.
    pub types: Vec<ColumnType>,
    pub rows: Vec<Vec<Value>>,
}

pub struct ResultV {
    pub columns: Seq<Seq<char>>,
    pub types: Seq<ColumnType>,
    pub rows: Seq<RowV>,
}

impl View for ResultSet {
    type V = ResultV;

    open spec fn view(&self) -> ResultV {
        ResultV {
            columns: crate::catalog::strings_view(self.columns@),
            types: self.types@,
            rows: rows_view(self.rows@),
        }
    }
}

pub open spec fn set_result(r: Result<ResultSet, Stop>) -> Result<ResultV, StopV> {
    match r {
        Ok(s) => Ok(s@),
        Err(s) => Err(s@),
    }
}

pub open spec fn rows_result(r: Result<Vec<Vec<Value>>, Stop>) -> Result<Seq<RowV>, StopV> {
    match r {
        Ok(v) => Ok(rows_view(v@)),
        Err(s) => Err(s@),
    }
}

pub open spec fn group_result(r: Result<Vec<&[Value]>, Stop>) -> Result<Seq<RowV>, StopV> {
    match r {
        Ok(v) => Ok(group_view(v@)),
        Err(s) => Err(s@),
    }
}

// ---- filter --------------------------------------------------------------------------------------

/// The rows from `i` on that pass a filter, behind `acc`.
pub open spec fn kept_from(
    rows: Seq<RowV>,
    s: ScopeV,
    filter: Option<ExprV>,
    env: EnvV,
    i: int,
    acc: Seq<RowV>,
) -> Result<Seq<RowV>, StopV>
    decreases rows.len() - i,
{
    if i < 0 || i >= rows.len() {
        Ok(acc)
    } else {
        match holds(filter, in_row(s, rows[i], i), env) {
            Err(e) => Err(e),
            Ok(true) => kept_from(rows, s, filter, env, i + 1, acc.push(rows[i])),
            Ok(false) => kept_from(rows, s, filter, env, i + 1, acc),
        }
    }
}

pub fn keep_rows<'a>(rows: &Vec<&'a [Value]>, scope: &Scope, filter: &Option<Expr>, env: &Env) -> (r:
    Result<Vec<&'a [Value]>, Stop>)
    ensures
        group_result(r) == kept_from(
            group_view(rows@),
            scope@,
            opt_expr_view(*filter),
            env@,
            0,
            Seq::empty(),
        ),
{
    let ghost rv = group_view(rows@);
    let ghost fv = opt_expr_view(*filter);
    let mut out: Vec<&'a [Value]> = Vec::new();
    assert(group_view(out@) =~= Seq::<RowV>::empty());
    let mut i: usize = 0;
    while i < rows.len()
        invariant
            i <= rows.len(),
            rv == group_view(rows@),
            fv == opt_expr_view(*filter),
            kept_from(rv, scope@, fv, env@, i as int, group_view(out@)) == kept_from(
                rv,
                scope@,
                fv,
                env@,
                0,
                Seq::empty(),
            ),
        decreases rows.len() - i,
    {
        let row: &'a [Value] = rows[i];
        assert(rv[i as int] == row_view(row@));
        match predicate(filter, &scope.in_row(row, i), env) {
            Ok(b) => if b {
                let ghost before = group_view(out@);
                out.push(row);
                assert(group_view(out@) =~= before.push(rv[i as int]));
            },
            Err(s) => {
                return Err(s);
            },
        }
        i += 1;
    }
    Ok(out)
}

// ---- column heads ------------------------------------------------------------------------------

pub struct HeadsV {
    pub names: Seq<Seq<char>>,
    pub types: Seq<ColumnType>,
}

/// The output columns of the items from `i` on, behind `acc`.
pub open spec fn heads_from(items: Seq<ItemV>, s: ScopeV, i: int, acc: HeadsV) -> HeadsV
    decreases items.len() - i,
{
    if i < 0 || i >= items.len() {
        acc
    } else {
        match items[i] {
            ItemV::Star { qualifier } => {
                let p = star_heads(s, qualifier);
                heads_from(
                    items,
                    s,
                    i + 1,
                    HeadsV {
                        names: acc.names + Seq::new(p.len(), |k: int| place_name(s, p[k])),
                        types: acc.types + Seq::new(p.len(), |k: int| place_type(s, p[k])),
                    },
                )
            },
            ItemV::Expr { expr, alias } => heads_from(
                items,
                s,
                i + 1,
                HeadsV {
                    names: acc.names.push(output_name(expr, alias, acc.names.len())),
                    types: acc.types.push(expr_type_of(expr, s)),
                },
            ),
        }
    }
}

pub open spec fn no_heads() -> HeadsV {
    HeadsV { names: Seq::empty(), types: Seq::empty() }
}

pub open spec fn heads(items: Seq<ItemV>, s: ScopeV) -> HeadsV {
    heads_from(items, s, 0, no_heads())
}

pub struct Heads {
    pub names: Vec<String>,
    pub types: Vec<ColumnType>,
}

impl View for Heads {
    type V = HeadsV;

    open spec fn view(&self) -> HeadsV {
        HeadsV { names: crate::catalog::strings_view(self.names@), types: self.types@ }
    }
}

fn push_star_heads(scope: &Scope, q: &Option<String>, out: &mut Heads)
    ensures
        final(out)@ == ({
            let p = star_heads(scope@, opt_text(*q));
            HeadsV {
                names: old(out)@.names + Seq::new(p.len(), |k: int| place_name(scope@, p[k])),
                types: old(out)@.types + Seq::new(p.len(), |k: int| place_type(scope@, p[k])),
            }
        }),
{
    let ghost before = out@;
    let ghost p = star_heads(scope@, opt_text(*q));
    let ghost names = Seq::new(p.len(), |k: int| place_name(scope@, p[k]));
    let ghost types = Seq::new(p.len(), |k: int| place_type(scope@, p[k]));
    assert(out@.names =~= before.names + names.take(0));
    assert(out@.types =~= before.types + types.take(0));
    match scope.cols {
        Some(cols) => {
            let places = crate::scope::covered(cols, q);
            let mut i: usize = 0;
            while i < places.len()
                invariant
                    i <= places.len(),
                    scope.cols == Some(cols),
                    p == places_view(places@),
                    forall|k: int| 0 <= k < places.len() ==> places@[k] < cols.len(),
                    names == Seq::new(p.len(), |k: int| place_name(scope@, p[k])),
                    types == Seq::new(p.len(), |k: int| place_type(scope@, p[k])),
                    out@.names == before.names + names.take(i as int),
                    out@.types == before.types + types.take(i as int),
                decreases places.len() - i,
            {
                let ghost here = out@;
                let c = &cols[places[i]];
                proof {
                    assert(p[i as int] == places@[i as int] as int);
                    assert(scope@.cols->Some_0[p[i as int]] == c@);
                    assert(names[i as int] == c.name@);
                    assert(types[i as int] == c.ty);
                }
                out.names.push(c.name.clone());
                out.types.push(c.ty);
                assert(out@.names =~= here.names.push(names[i as int]));
                assert(out@.names =~= before.names + names.take(i + 1));
                assert(out@.types =~= before.types + types.take(i + 1));
                i += 1;
            }
            assert(names.take(i as int) =~= names);
            assert(types.take(i as int) =~= types);
        },
        None => match scope.schema {
            Some(t) => {
                let mut i: usize = 0;
                while i < t.columns.len()
                    invariant
                        i <= t.columns.len(),
                        scope.cols is None,
                        scope.schema == Some(t),
                        p == Seq::new(t@.columns.len(), |k: int| k),
                        names == Seq::new(p.len(), |k: int| place_name(scope@, p[k])),
                        types == Seq::new(p.len(), |k: int| place_type(scope@, p[k])),
                        out@.names == before.names + names.take(i as int),
                        out@.types == before.types + types.take(i as int),
                    decreases t.columns.len() - i,
                {
                    let ghost here = out@;
                    let c = &t.columns[i];
                    proof {
                        assert(t@.columns[i as int] == c@);
                        assert(p[i as int] == i as int);
                        assert(names[i as int] == c.name@);
                        assert(types[i as int] == c.ty);
                    }
                    out.names.push(c.name.clone());
                    out.types.push(c.ty);
                    assert(out@.names =~= here.names.push(names[i as int]));
                    assert(out@.names =~= before.names + names.take(i + 1));
                    assert(out@.types =~= before.types + types.take(i + 1));
                    i += 1;
                }
                assert(names.take(i as int) =~= names);
                assert(types.take(i as int) =~= types);
            },
            None => {
                assert(p =~= Seq::<int>::empty());
                assert(names =~= names.take(0));
                assert(types =~= types.take(0));
            },
        },
    }
}

/// The output columns of a select list.
pub fn output_columns(items: &Vec<SelItem>, scope: &Scope) -> (r: Heads)
    ensures
        r@ == heads(items_view(items@), scope@),
{
    let ghost iv = items_view(items@);
    let mut out = Heads { names: Vec::new(), types: Vec::new() };
    assert(out@.names =~= no_heads().names);
    assert(out@.types =~= no_heads().types);
    let mut i: usize = 0;
    while i < items.len()
        invariant
            i <= items.len(),
            iv == items_view(items@),
            heads_from(iv, scope@, i as int, out@) == heads(iv, scope@),
        decreases items.len() - i,
    {
        assert(iv[i as int] == items@[i as int]@);
        match &items[i] {
            SelItem::Star { qualifier } => {
                push_star_heads(scope, qualifier, &mut out);
            },
            SelItem::Expr { expr, alias } => {
                let ghost before = out@;
                let n = column_name(expr, alias, out.names.len());
                let t = scope.expr_type(expr);
                let ghost nv = n@;
                out.names.push(n);
                out.types.push(t);
                assert(out@.names =~= before.names.push(nv));
                assert(out@.types =~= before.types.push(t));
            },
        }
        i += 1;
    }
    out
}

// ---- projection ----------------------------------------------------------------------------------

/// The output cells of the items from `i` on, behind `acc`. A star stands for the
/// columns it covers, or, with `whole`, for the whole row.
pub open spec fn projected_from(
    items: Seq<ItemV>,
    s: ScopeV,
    whole: bool,
    c: CtxV,
    env: EnvV,
    i: int,
    acc: RowV,
) -> Result<RowV, StopV>
    decreases items.len() - i,
{
    if i < 0 || i >= items.len() {
        Ok(acc)
    } else {
        match items[i] {
            ItemV::Star { qualifier } => match c.row {
                None => Err(sql_fail("SELECT * over an empty group"@)),
                Some(row) => projected_from(
                    items,
                    s,
                    whole,
                    c,
                    env,
                    i + 1,
                    acc + (if whole {
                        row
                    } else {
                        star_cells(s, qualifier, row)
                    }),
                ),
            },
            ItemV::Expr { expr, .. } => match ev(expr, c, env) {
                Ok(v) => projected_from(items, s, whole, c, env, i + 1, acc.push(v)),
                Err(e) => Err(e),
            },
        }
    }
}

pub open spec fn projected(items: Seq<ItemV>, s: ScopeV, whole: bool, c: CtxV, env: EnvV) -> Result<
    RowV,
    StopV,
> {
    projected_from(items, s, whole, c, env, 0, Seq::empty())
}

fn push_row(out: &mut Vec<Value>, row: &[Value])
    ensures
        row_view(final(out)@) == row_view(old(out)@) + row_view(row@),
{
    let ghost before = row_view(out@);
    let ghost rv = row_view(row@);
    let mut i: usize = 0;
    assert(row_view(out@) =~= before + rv.take(0));
    while i < row.len()
        invariant
            i <= row.len(),
            rv == row_view(row@),
            row_view(out@) == before + rv.take(i as int),
        decreases row.len() - i,
    {
        let ghost here = row_view(out@);
        let v = row[i].clone();
        let ghost vv = v@;
        out.push(v);
        proof {
            assert(rv[i as int] == vv);
            assert(row_view(out@) =~= here.push(vv));
            assert(here.push(vv) =~= before + rv.take(i + 1));
        }
        i += 1;
    }
    assert(rv.take(i as int) =~= rv);
}

/// Project one scope through a select list.
pub fn project_items(
    items: &Vec<SelItem>,
    scope: &Scope,
    whole: bool,
    ctx: &EvalCtx,
    env: &Env,
) -> (r: Result<Vec<Value>, Stop>)
    ensures
        row_result(r) == projected(items_view(items@), scope@, whole, ctx@, env@),
{
    let ghost iv = items_view(items@);
    let mut out: Vec<Value> = Vec::new();
    assert(row_view(out@) =~= Seq::<ValueV>::empty());
    let mut i: usize = 0;
    while i < items.len()
        invariant
            i <= items.len(),
            iv == items_view(items@),
            projected_from(iv, scope@, whole, ctx@, env@, i as int, row_view(out@)) == projected(
                iv,
                scope@,
                whole,
                ctx@,
                env@,
            ),
        decreases items.len() - i,
    {
        assert(iv[i as int] == items@[i as int]@);
        match &items[i] {
            SelItem::Star { qualifier } => match ctx.row {
                None => {
                    return Err(sql_stop(owned("SELECT * over an empty group")));
                },
                Some(row) => if whole {
                    push_row(&mut out, row);
                } else {
                    scope.push_star(qualifier, row, &mut out);
                },
            },
            SelItem::Expr { expr, .. } => match eval(expr, ctx, env) {
                Ok(v) => {
                    let ghost before = row_view(out@);
                    let ghost vv = v@;
                    out.push(v);
                    assert(row_view(out@) =~= before.push(vv));
                },
                Err(s) => {
                    return Err(s);
                },
            },
        }
        i += 1;
    }
    Ok(out)
}

/// The projected rows from `i` on, behind `acc`.
pub open spec fn projected_rows_from(
    rows: Seq<RowV>,
    items: Seq<ItemV>,
    s: ScopeV,
    env: EnvV,
    i: int,
    acc: Seq<RowV>,
) -> Result<Seq<RowV>, StopV>
    decreases rows.len() - i,
{
    if i < 0 || i >= rows.len() {
        Ok(acc)
    } else {
        match projected(items, s, false, in_row(s, rows[i], i), env) {
            Ok(r) => projected_rows_from(rows, items, s, env, i + 1, acc.push(r)),
            Err(e) => Err(e),
        }
    }
}

/// Rows through a select list, with their heads.
pub open spec fn projection(items: Seq<ItemV>, s: ScopeV, rows: Seq<RowV>, env: EnvV) -> Result<
    ResultV,
    StopV,
> {
    match projected_rows_from(rows, items, s, env, 0, Seq::empty()) {
        Ok(out) => {
            let h = heads(items, s);
            Ok(ResultV { columns: h.names, types: h.types, rows: out })
        },
        Err(e) => Err(e),
    }
}

pub fn project(items: &Vec<SelItem>, scope: &Scope, rows: &Vec<&[Value]>, env: &Env) -> (r: Result<
    ResultSet,
    Stop,
>)
    ensures
        set_result(r) == projection(items_view(items@), scope@, group_view(rows@), env@),
{
    let ghost iv = items_view(items@);
    let ghost rv = group_view(rows@);
    let h = output_columns(items, scope);
    let mut out: Vec<Vec<Value>> = Vec::new();
    assert(rows_view(out@) =~= Seq::<RowV>::empty());
    let mut i: usize = 0;
    while i < rows.len()
        invariant
            i <= rows.len(),
            iv == items_view(items@),
            rv == group_view(rows@),
            projected_rows_from(rv, iv, scope@, env@, i as int, rows_view(out@))
                == projected_rows_from(rv, iv, scope@, env@, 0, Seq::empty()),
        decreases rows.len() - i,
    {
        assert(rv[i as int] == row_view(rows@[i as int]@));
        match project_items(items, scope, false, &scope.in_row(rows[i], i), env) {
            Ok(v) => {
                let ghost before = rows_view(out@);
                let ghost vv = row_view(v@);
                out.push(v);
                assert(rows_view(out@) =~= before.push(vv));
            },
            Err(s) => {
                return Err(s);
            },
        }
        i += 1;
    }
    Ok(ResultSet { columns: h.names, types: h.types, rows: out })
}

// ---- counts and windows ------------------------------------------------------------------------

/// What a `LIMIT` or `OFFSET` clause counts to; `None` when it is absent or `NULL`.
pub open spec fn count_of(e: Option<ExprV>, env: EnvV) -> Result<Option<i64>, StopV> {
    match e {
        None => Ok(None),
        Some(x) => match ev(x, root_ctx(), env) {
            Err(s) => Err(s),
            Ok(ValueV::Null) => Ok(None),
            Ok(ValueV::Int(n)) => Ok(Some(n)),
            Ok(ValueV::Real(b)) => Ok(Some(real_to_int(b))),
            Ok(ValueV::Text(t)) => match i64_of_text(trimmed(t)) {
                Some(n) => Ok(Some(n)),
                None => Err(sql_fail("LIMIT/OFFSET must be an integer"@)),
            },
            Ok(v) => Err(
                sql_fail("LIMIT/OFFSET must be an integer, found "@ + class_name(v)),
            ),
        },
    }
}

pub open spec fn count_result(r: Result<Option<i64>, Stop>) -> Result<Option<i64>, StopV> {
    match r {
        Ok(o) => Ok(o),
        Err(s) => Err(s@),
    }
}

pub fn eval_count(opt: &Option<Expr>, env: &Env) -> (r: Result<Option<i64>, Stop>)
    ensures
        count_result(r) == count_of(opt_expr_view(*opt), env@),
{
    proof {
        lemma_opt_expr(*opt);
    }
    match opt {
        None => Ok(None),
        Some(e) => {
            let v = match eval(e, &EvalCtx::root(), env) {
                Ok(v) => v,
                Err(s) => {
                    return Err(s);
                },
            };
            match &v {
                Value::Null => Ok(None),
                Value::Int(n) => Ok(Some(*n)),
                Value::Real(b) => Ok(Some(to_int(*b))),
                Value::Text(t) => match parse_i64(&trim_chars(&to_chars(t))) {
                    Some(n) => Ok(Some(n)),
                    None => Err(sql_stop(owned("LIMIT/OFFSET must be an integer"))),
                },
                _ => Err(
                    sql_stop(concat2("LIMIT/OFFSET must be an integer, found ", v.class_name())),
                ),
            }
        },
    }
}

/// Where a window starts: past `offset` elements.
pub open spec fn window_start(n: nat, offset: Option<i64>) -> int {
    match offset {
        Some(o) => if o <= 0 {
            0
        } else if o <= n {
            o as int
        } else {
            n as int
        },
        None => 0,
    }
}

/// Where a window ends: after at most `limit` elements.
pub open spec fn window_end(n: nat, limit: Option<i64>, offset: Option<i64>) -> int {
    let from = window_start(n, offset);
    match limit {
        Some(l) => if l <= 0 {
            from
        } else if from + l <= n {
            from + l
        } else {
            n as int
        },
        None => n as int,
    }
}

/// What is left of a sequence after `OFFSET` and `LIMIT`.
pub open spec fn window<T>(s: Seq<T>, limit: Option<i64>, offset: Option<i64>) -> Seq<T> {
    s.subrange(window_start(s.len(), offset), window_end(s.len(), limit, offset))
}

pub fn window_bounds(n: usize, limit: Option<i64>, offset: Option<i64>) -> (r: (usize, usize))
    ensures
        r.0 == window_start(n as nat, offset),
        r.1 == window_end(n as nat, limit, offset),
        r.0 <= r.1 <= n,
{
    let from: usize = match offset {
        Some(o) => if o <= 0 {
            0
        } else if o as u64 <= n as u64 {
            o as usize
        } else {
            n
        },
        None => 0,
    };
    let to: usize = match limit {
        Some(l) => if l <= 0 {
            from
        } else if l as u64 <= (n - from) as u64 {
            from + l as usize
        } else {
            n
        },
        None => n,
    };
    (from, to)
}

/// The window of some rows.
pub fn apply_offset_limit(rows: Vec<Vec<Value>>, limit: Option<i64>, offset: Option<i64>) -> (r: Vec<
    Vec<Value>,
>)
    ensures
        rows_view(r@) == window(rows_view(rows@), limit, offset),
{
    let ghost rv = rows_view(rows@);
    let (from, to) = window_bounds(rows.len(), limit, offset);
    let mut out = rows;
    out.truncate(to);
    assert(rows_view(out@) =~= rv.take(to as int));
    let kept = out.split_off(from);
    assert(rows_view(kept@) =~= window(rv, limit, offset));
    kept
}

/// The elements at some places.
pub open spec fn picked<T>(s: Seq<T>, places: Seq<int>) -> Seq<T> {
    Seq::new(places.len(), |i: int| s[places[i]])
}

} // verus!
