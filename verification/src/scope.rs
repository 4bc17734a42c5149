//! What a query's names refer to: the columns of its source, their names and types.
use vstd::prelude::*;
use crate::catalog::{column_pos, lemma_column_at, opt_text, SchemaV, TableSchema};
use crate::eval::{
    cell, cell_at, group_view, rel_cols_view, resolve_col, resolved, CtxV, EvalCtx, RelCol, RelColV,
};
use crate::sql::{
    lemma_agg_arg, lemma_expr_lists, AggArg, AggArgV, AggFunc, CastTarget, Expr, ExprV,
};
use crate::text::{
    concat2, from_chars, lower_chars, lower_text, names_match, nat_string, nat_text, owned,
    same_name, spells,
};
use crate::value::{row_view, ColumnType, RowV, Value, ValueV};

verus! {

/// The source of a query: one table, a joined namespace, or neither.
#[derive(Clone, Copy)]
pub struct Scope<'a> {
    pub schema: Option<&'a TableSchema>,
    pub cols: Option<&'a [RelCol]>,
}

pub struct ScopeV {
    pub schema: Option<SchemaV>,
    pub cols: Option<Seq<RelColV>>,
}

impl<'a> View for Scope<'a> {
    type V = ScopeV;

    open spec fn view(&self) -> ScopeV {
        ScopeV {
            schema: match self.schema {
                Some(s) => Some(s@),
                None => None,
            },
            cols: match self.cols {
                Some(c) => Some(rel_cols_view(c@)),
                None => None,
            },
        }
    }
}

/// The scope of one row.
pub open spec fn in_row(s: ScopeV, row: RowV, tick: int) -> CtxV {
    CtxV {
        row: Some(row),
        schema: s.schema,
        group: None,
        excluded: None,
        cols: s.cols,
        tick: tick as u64,
    }
}

/// The scope of a group, its first row standing for it.
pub open spec fn in_group(s: ScopeV, rows: Seq<RowV>, tick: int) -> CtxV {
    CtxV {
        row: if rows.len() > 0 {
            Some(rows[0])
        } else {
            None
        },
        schema: s.schema,
        group: Some(rows),
        excluded: None,
        cols: s.cols,
        tick: tick as u64,
    }
}

impl<'a> Scope<'a> {
    pub fn in_row<'b>(&self, row: &'b [Value], tick: usize) -> (c: EvalCtx<'b>) where 'a: 'b
        ensures
            c@ == in_row(self@, row_view(row@), tick as int),
    {
        EvalCtx {
            row: Some(row),
            schema: self.schema,
            group: None,
            excluded: None,
            cols: self.cols,
            tick: tick as u64,
        }
    }

    pub fn in_group<'b>(&self, rows: &'b [&'b [Value]], tick: usize) -> (c: EvalCtx<'b>) where
        'a: 'b,

        ensures
            c@ == in_group(self@, group_view(rows@), tick as int),
    {
        let first: Option<&'b [Value]> = if rows.len() > 0 {
            assert(group_view(rows@)[0] == row_view(rows@[0]@));
            Some(rows[0])
        } else {
            None
        };
        EvalCtx {
            row: first,
            schema: self.schema,
            group: Some(rows),
            excluded: None,
            cols: self.cols,
            tick: tick as u64,
        }
    }
}

// ---- stars ---------------------------------------------------------------------------------------

/// Whether a star covers a namespace column.
pub open spec fn star_covers(q: Option<Seq<char>>, c: RelColV) -> bool {
    match q {
        None => true,
        Some(n) => match c.table {
            Some(t) => same_name(t, n),
            None => false,
        },
    }
}

/// The places of the namespace columns a star covers, from `i` on.
pub open spec fn covered_from(cols: Seq<RelColV>, q: Option<Seq<char>>, i: int, acc: Seq<int>) -> Seq<
    int,
>
    decreases cols.len() - i,
{
    if i < 0 || i >= cols.len() {
        acc
    } else if star_covers(q, cols[i]) {
        covered_from(cols, q, i + 1, acc.push(i))
    } else {
        covered_from(cols, q, i + 1, acc)
    }
}

/// The cells a star stands for: every column of a table, the covered ones of a
/// namespace.
pub open spec fn star_places(s: ScopeV, q: Option<Seq<char>>) -> Seq<int> {
    match s.cols {
        Some(cols) => covered_from(cols, q, 0, Seq::empty()),
        None => match s.schema {
            Some(t) => Seq::new(
                t.columns.len(),
                |i: int|
                    match column_pos(t, t.columns[i].name) {
                        Some(k) => k as int,
                        None => i,
                    },
            ),
            None => Seq::empty(),
        },
    }
}

pub open spec fn place_name(s: ScopeV, i: int) -> Seq<char> {
    match s.cols {
        Some(cols) => cols[i].name,
        None => match s.schema {
            Some(t) => t.columns[i].name,
            None => Seq::empty(),
        },
    }
}

pub open spec fn place_type(s: ScopeV, i: int) -> ColumnType {
    match s.cols {
        Some(cols) => cols[i].ty,
        None => match s.schema {
            Some(t) => t.columns[i].ty,
            None => ColumnType::Text,
        },
    }
}

/// The columns a star heads.
pub open spec fn star_heads(s: ScopeV, q: Option<Seq<char>>) -> Seq<int> {
    match s.cols {
        Some(cols) => covered_from(cols, q, 0, Seq::empty()),
        None => match s.schema {
            Some(t) => Seq::new(t.columns.len(), |i: int| i),
            None => Seq::empty(),
        },
    }
}

pub open spec fn star_cells(s: ScopeV, q: Option<Seq<char>>, row: RowV) -> RowV {
    let p = star_places(s, q);
    Seq::new(p.len(), |i: int| cell(row, p[i]))
}

pub open spec fn places_view(v: Seq<usize>) -> Seq<int> {
    Seq::new(v.len(), |i: int| v[i] as int)
}

pub fn covered(cols: &[RelCol], q: &Option<String>) -> (r: Vec<usize>)
    ensures
        places_view(r@) == covered_from(rel_cols_view(cols@), opt_text(*q), 0, Seq::empty()),
        forall|k: int| 0 <= k < r.len() ==> r@[k] < cols.len(),
{
    let ghost cv = rel_cols_view(cols@);
    let ghost qv = opt_text(*q);
    let mut out: Vec<usize> = Vec::new();
    assert(places_view(out@) =~= Seq::<int>::empty());
    let mut i: usize = 0;
    while i < cols.len()
        invariant
            i <= cols.len(),
            cv == rel_cols_view(cols@),
            qv == opt_text(*q),
            forall|k: int| 0 <= k < out.len() ==> out@[k] < cols.len(),
            covered_from(cv, qv, i as int, places_view(out@)) == covered_from(
                cv,
                qv,
                0,
                Seq::empty(),
            ),
        decreases cols.len() - i,
    {
        assert(cv[i as int] == cols@[i as int]@);
        let hit = match q {
            None => true,
            Some(n) => match &cols[i].table {
                Some(t) => names_match(t, n),
                None => false,
            },
        };
        if hit {
            let ghost before = places_view(out@);
            out.push(i);
            assert(places_view(out@) =~= before.push(i as int));
        }
        i += 1;
    }
    out
}

impl<'a> Scope<'a> {
    /// The cells a star stands for.
    pub fn star_places(&self, q: &Option<String>) -> (r: Vec<usize>)
        ensures
            places_view(r@) == star_places(self@, opt_text(*q)),
    {
        match self.cols {
            Some(cols) => covered(cols, q),
            None => match self.schema {
                Some(t) => {
                    let mut out: Vec<usize> = Vec::new();
                    let mut i: usize = 0;
                    while i < t.columns.len()
                        invariant
                            i <= t.columns.len(),
                            out.len() == i,
                            forall|k: int|
                                0 <= k < i ==> #[trigger] out@[k] as int == (match column_pos(
                                    t@,
                                    t@.columns[k].name,
                                ) {
                                    Some(p) => p as int,
                                    None => k,
                                }),
                        decreases t.columns.len() - i,
                    {
                        assert(t@.columns[i as int] == t.columns@[i as int]@);
                        let p: usize = match t.column_index(&t.columns[i].name) {
                            Some(p) => p,
                            None => i,
                        };
                        out.push(p);
                        i += 1;
                    }
                    assert(places_view(out@) =~= star_places(self@, opt_text(*q)));
                    out
                },
                None => {
                    let out: Vec<usize> = Vec::new();
                    assert(places_view(out@) =~= Seq::<int>::empty());
                    out
                },
            },
        }
    }

    /// The cells of a row that a star stands for, behind `out`.
    pub fn push_star(&self, q: &Option<String>, row: &[Value], out: &mut Vec<Value>)
        ensures
            row_view(final(out)@) == row_view(old(out)@) + star_cells(
                self@,
                opt_text(*q),
                row_view(row@),
            ),
    {
        let ghost before = row_view(out@);
        let ghost all = star_cells(self@, opt_text(*q), row_view(row@));
        let places = self.star_places(q);
        let ghost pv = places_view(places@);
        let mut i: usize = 0;
        assert(row_view(out@) =~= before + all.take(0));
        while i < places.len()
            invariant
                i <= places.len(),
                pv == places_view(places@),
                all == star_cells(self@, opt_text(*q), row_view(row@)),
                pv == star_places(self@, opt_text(*q)),
                row_view(out@) == before + all.take(i as int),
            decreases places.len() - i,
        {
            assert(pv[i as int] == places@[i as int] as int);
            let v = cell_at(row, places[i]);
            let ghost here = row_view(out@);
            let ghost vv = v@;
            out.push(v);
            proof {
                assert(all[i as int] == vv);
                assert(row_view(out@) =~= here.push(vv));
                assert(here.push(vv) =~= before + all.take(i + 1));
            }
            i += 1;
        }
        assert(all.take(i as int) =~= all);
    }
}

// ---- names and types ----------------------------------------------------------------------------

pub open spec fn agg_word(f: AggFunc) -> Seq<char> {
    match f {
        AggFunc::Count => "count"@,
        AggFunc::Sum => "sum"@,
        AggFunc::Min => "min"@,
        AggFunc::Max => "max"@,
        AggFunc::Avg => "avg"@,
        AggFunc::JsonAgg => "json_agg"@,
        AggFunc::GroupConcat => "group_concat"@,
    }
}

pub fn agg_name(f: AggFunc) -> (r: String)
    ensures
        r@ == agg_word(f),
{
    match f {
        AggFunc::Count => owned("count"),
        AggFunc::Sum => owned("sum"),
        AggFunc::Min => owned("min"),
        AggFunc::Max => owned("max"),
        AggFunc::Avg => owned("avg"),
        AggFunc::JsonAgg => owned("json_agg"),
        AggFunc::GroupConcat => owned("group_concat"),
    }
}

/// The name of an unaliased output column: a column's or function's own, else by
/// position.
pub open spec fn default_name(e: ExprV, idx: nat) -> Seq<char>
    decreases e,
{
    match e {
        ExprV::Column(c) => c,
        ExprV::Qualified(_, c) => c,
        ExprV::Aggregate { func, .. } => agg_word(func),
        ExprV::Func { name, .. } => lower_text(name),
        ExprV::Cast { e, .. } => default_name(*e, idx),
        _ => "col"@ + nat_text(ordinal(idx)),
    }
}

/// A place counted from one, as far as it can be counted.
pub open spec fn ordinal(idx: nat) -> nat {
    if idx < u64::MAX {
        idx + 1
    } else {
        idx
    }
}

pub open spec fn output_name(e: ExprV, alias: Option<Seq<char>>, idx: nat) -> Seq<char> {
    match alias {
        Some(a) => a,
        None => default_name(e, idx),
    }
}

fn unaliased_name(expr: &Expr, idx: usize) -> (r: String)
    ensures
        r@ == default_name(expr@, idx as nat),
    decreases expr,
{
    proof {
        lemma_expr_lists(*expr);
    }
    match expr {
        Expr::Column(c) => c.clone(),
        Expr::Qualified(_, c) => c.clone(),
        Expr::Aggregate { func, .. } => agg_name(*func),
        Expr::Func { name, .. } => from_chars(&lower_chars(name)),
        Expr::Cast { e, .. } => unaliased_name(e, idx),
        _ => {
            let at: u64 = idx as u64;
            let n = nat_string(
                if at < u64::MAX {
                    at + 1
                } else {
                    at
                },
            );
            concat2("col", &n)
        },
    }
}

/// The name of an output column.
pub fn column_name(expr: &Expr, alias: &Option<String>, idx: usize) -> (r: String)
    ensures
        r@ == output_name(expr@, opt_text(*alias), idx as nat),
{
    match alias {
        Some(a) => a.clone(),
        None => unaliased_name(expr, idx),
    }
}

/// The column type of a value.
pub open spec fn literal_type(v: ValueV) -> ColumnType {
    match v {
        ValueV::Int(_) => ColumnType::Integer,
        ValueV::Real(_) => ColumnType::Real,
        ValueV::Blob(_) => ColumnType::Blob,
        ValueV::Vector(x) => ColumnType::Vector(x.len() as u32),
        _ => ColumnType::Text,
    }
}

pub fn lit_type(v: &Value) -> (r: ColumnType)
    ensures
        r == literal_type(v@),
{
    match v {
        Value::Int(_) => ColumnType::Integer,
        Value::Real(_) => ColumnType::Real,
        Value::Blob(_) => ColumnType::Blob,
        Value::Vector(x) => ColumnType::Vector(
            #[verifier::truncate]
            (x.len() as u32),
        ),
        _ => ColumnType::Text,
    }
}

/// The column type of a scalar function's result.
pub open spec fn func_result(w: Seq<char>) -> ColumnType {
    if w == "length"@ || w == "char_length"@ || w == "character_length"@ || w == "abs"@ || w
        == "instr"@ || w == "strpos"@ || w == "sign"@ || w == "extract"@ || w == "unixepoch"@ {
        ColumnType::Integer
    } else if w == "sqrt"@ || w == "exp"@ || w == "ln"@ || w == "log"@ || w == "log10"@ || w
        == "power"@ || w == "pow"@ || w == "pi"@ || w == "random"@ || w == "ceil"@ || w
        == "ceiling"@ || w == "floor"@ || w == "trunc"@ || w == "round"@ {
        ColumnType::Real
    } else {
        ColumnType::Text
    }
}

pub fn func_type(name: &str) -> (r: ColumnType)
    ensures
        r == func_result(lower_text(name@)),
{
    let w = lower_chars(name);
    if spells(&w, "length") || spells(&w, "char_length") || spells(&w, "character_length")
        || spells(&w, "abs") || spells(&w, "instr") || spells(&w, "strpos") || spells(&w, "sign")
        || spells(&w, "extract") || spells(&w, "unixepoch") {
        ColumnType::Integer
    } else if spells(&w, "sqrt") || spells(&w, "exp") || spells(&w, "ln") || spells(&w, "log")
        || spells(&w, "log10") || spells(&w, "power") || spells(&w, "pow") || spells(&w, "pi")
        || spells(&w, "random") || spells(&w, "ceil") || spells(&w, "ceiling") || spells(
        &w,
        "floor",
    ) || spells(&w, "trunc") || spells(&w, "round") {
        ColumnType::Real
    } else {
        ColumnType::Text
    }
}

pub open spec fn cast_result(t: CastTarget) -> ColumnType {
    match t {
        CastTarget::Int | CastTarget::Bool => ColumnType::Integer,
        CastTarget::Real => ColumnType::Real,
        CastTarget::Text | CastTarget::Passthrough => ColumnType::Text,
    }
}

pub fn cast_column_type(t: CastTarget) -> (r: ColumnType)
    ensures
        r == cast_result(t),
{
    match t {
        CastTarget::Int | CastTarget::Bool => ColumnType::Integer,
        CastTarget::Real => ColumnType::Real,
        CastTarget::Text | CastTarget::Passthrough => ColumnType::Text,
    }
}

/// The type of a column that a name refers to; text where it refers to none.
pub open spec fn name_type(s: ScopeV, table: Option<Seq<char>>, name: Seq<char>) -> ColumnType {
    match s.cols {
        Some(cols) => match resolved(cols, table, name) {
            Ok(i) => cols[i as int].ty,
            Err(_) => ColumnType::Text,
        },
        None => match s.schema {
            Some(t) => match column_pos(t, name) {
                Some(i) => t.columns[i as int].ty,
                None => ColumnType::Text,
            },
            None => ColumnType::Text,
        },
    }
}

/// The type a projected expression reports. Over a table, a sum is real only when
/// its argument is, and otherwise an integer; over a namespace it has its
/// argument's type.
pub open spec fn expr_type_of(e: ExprV, s: ScopeV) -> ColumnType
    decreases e,
{
    match e {
        ExprV::Int(_) => ColumnType::Integer,
        ExprV::Real(_) => ColumnType::Real,
        ExprV::Str(_) => ColumnType::Text,
        ExprV::Vector(v) => ColumnType::Vector(v.len() as u32),
        ExprV::Lit(v) => literal_type(v),
        ExprV::Binary { op, .. } => if op.metric() is Some {
            ColumnType::Real
        } else {
            ColumnType::Text
        },
        ExprV::Column(n) => name_type(s, None, n),
        ExprV::Qualified(t, n) => name_type(s, Some(t), n),
        ExprV::Cast { e, target } => if target == CastTarget::Passthrough {
            expr_type_of(*e, s)
        } else {
            cast_result(target)
        },
        ExprV::Func { name, .. } => func_result(lower_text(name)),
        ExprV::Aggregate { func, arg, .. } => if s.cols is None && s.schema is None {
            ColumnType::Text
        } else {
            match func {
                AggFunc::Count => ColumnType::Integer,
                AggFunc::Avg => ColumnType::Real,
                AggFunc::JsonAgg | AggFunc::GroupConcat => ColumnType::Text,
                AggFunc::Sum => match arg {
                    AggArgV::Star => ColumnType::Integer,
                    AggArgV::Expr(x) => {
                        let t = expr_type_of(*x, s);
                        if s.cols is None && t != ColumnType::Real {
                            ColumnType::Integer
                        } else {
                            t
                        }
                    },
                },
                AggFunc::Min | AggFunc::Max => match arg {
                    AggArgV::Star => if s.cols is None {
                        ColumnType::Text
                    } else {
                        ColumnType::Integer
                    },
                    AggArgV::Expr(x) => expr_type_of(*x, s),
                },
            }
        },
        _ => ColumnType::Text,
    }
}

impl<'a> Scope<'a> {
    fn name_type(&self, table: Option<&str>, name: &str) -> (r: ColumnType)
        ensures
            r == name_type(self@, crate::eval::opt_str(table), name@),
    {
        match self.cols {
            Some(cols) => {
                let ghost cv = rel_cols_view(cols@);
                match resolve_col(cols, table, name) {
                    Ok(i) => {
                        assert(cv[i as int] == cols@[i as int]@);
                        cols[i].ty
                    },
                    Err(_) => ColumnType::Text,
                }
            },
            None => match self.schema {
                Some(t) => {
                    proof {
                        assert(t@.columns.len() == t.columns.len());
                        lemma_column_at(t@.columns, name@, 0);
                    }
                    match t.column_index(name) {
                        Some(i) => {
                            assert(t@.columns[i as int] == t.columns@[i as int]@);
                            t.columns[i].ty
                        },
                        None => ColumnType::Text,
                    }
                },
                None => ColumnType::Text,
            },
        }
    }

    /// The type a projected expression reports.
    pub fn expr_type(&self, expr: &Expr) -> (r: ColumnType)
        ensures
            r == expr_type_of(expr@, self@),
        decreases expr,
    {
        proof {
            lemma_expr_lists(*expr);
        }
        match expr {
            Expr::Int(_) => ColumnType::Integer,
            Expr::Real(_) => ColumnType::Real,
            Expr::Str(_) => ColumnType::Text,
            Expr::Vector(v) => ColumnType::Vector(
                #[verifier::truncate]
                (v.len() as u32),
            ),
            Expr::Lit(v) => lit_type(v),
            Expr::Binary { op, .. } => if op.vec_metric().is_some() {
                ColumnType::Real
            } else {
                ColumnType::Text
            },
            Expr::Column(n) => self.name_type(None, n),
            Expr::Qualified(t, n) => self.name_type(Some(t.as_str()), n),
            Expr::Cast { e, target } => if *target == CastTarget::Passthrough {
                self.expr_type(e)
            } else {
                cast_column_type(*target)
            },
            Expr::Func { name, .. } => func_type(name),
            Expr::Aggregate { func, arg, .. } => {
                proof {
                    lemma_agg_arg(*arg);
                }
                if self.cols.is_none() && self.schema.is_none() {
                    ColumnType::Text
                } else {
                    match func {
                        AggFunc::Count => ColumnType::Integer,
                        AggFunc::Avg => ColumnType::Real,
                        AggFunc::JsonAgg | AggFunc::GroupConcat => ColumnType::Text,
                        AggFunc::Sum => match arg {
                            AggArg::Star => ColumnType::Integer,
                            AggArg::Expr(x) => {
                                let t = self.expr_type(x);
                                let is_real = match t {
                                    ColumnType::Real => true,
                                    _ => false,
                                };
                                if self.cols.is_none() && !is_real {
                                    ColumnType::Integer
                                } else {
                                    t
                                }
                            },
                        },
                        AggFunc::Min | AggFunc::Max => match arg {
                            AggArg::Star => if self.cols.is_none() {
                                ColumnType::Text
                            } else {
                                ColumnType::Integer
                            },
                            AggArg::Expr(x) => self.expr_type(x),
                        },
                    }
                }
            },
            _ => ColumnType::Text,
        }
    }
}

} // verus!
