//! Expression evaluation: what an expression is worth in the scope of a row, a
//! group of rows, or nothing but parameters.
use vstd::prelude::*;
use crate::asks::{bits_of, Ask, AskV, Binary, Reals, RealsV, Stop, StopV};
use crate::catalog::{column_pos, opt_text, SchemaV, TableSchema};
use crate::env::{place_in, sql_fail, sql_stop, within, Env, EnvV, IN_GROUP, Out};
use crate::error::{err, sql_err, EngineError, EngineStatus, ErrorV};
use crate::funcs::{as_number, call_func, called, json_array, json_list, number_value};
use crate::ieee::{int_to_real, real_of_int, Order};
use crate::ops::{
    and3, apply_unary, binary_of, cast_of, cast_value, eval_binary, key_of_value, like_match,
    like_of, not3, three_valued_and, three_valued_not, unary_value, value_key,
};
use crate::sql::{
    exprs_view, lemma_agg_arg, lemma_boxed, lemma_expr_lists, opt_expr_view, whens_view, AggArg,
    AggArgV, AggFunc, BinOp, Expr, ExprV,
};
use crate::text::{
    bool_int, concat2, concat3, from_chars, int_of_bool, names_match, nat_string, nat_text, owned,
    same_chars, same_name, to_chars,
};
use crate::value::{
    rendered, row_view, text_form, text_result, truth, value_eq, value_order, value_result,
    ColumnType, RowV, Value, ValueV,
};

verus! {

// ---- scopes --------------------------------------------------------------------------------

/// A column of a joined namespace: its source, its name and its type.
pub struct RelCol {
    pub table: Option<String>,
    pub name: String,
    pub ty: ColumnType,
}

pub struct RelColV {
    pub table: Option<Seq<char>>,
    pub name: Seq<char>,
    pub ty: ColumnType,
}

impl View for RelCol {
    type V = RelColV;

    open spec fn view(&self) -> RelColV {
        RelColV { table: opt_text(self.table), name: self.name@, ty: self.ty }
    }
}

pub open spec fn rel_cols_view(v: Seq<RelCol>) -> Seq<RelColV> {
    Seq::new(v.len(), |i: int| v[i]@)
}

pub open spec fn group_view(g: Seq<&[Value]>) -> Seq<RowV> {
    Seq::new(g.len(), |i: int| row_view(g[i]@))
}

/// What names and aggregates refer to while an expression is evaluated.
pub struct EvalCtx<'a> {
    pub row: Option<&'a [Value]>,
    pub schema: Option<&'a TableSchema>,
    /// The rows of the current group; aggregates fold over them.
    pub group: Option<&'a [&'a [Value]]>,
    /// The row proposed for insertion, inside an upsert.
    pub excluded: Option<&'a [Value]>,
    /// The joined namespace; where set, names resolve against it.
    pub cols: Option<&'a [RelCol]>,
    /// The ordinal of the row, which tells random draws apart.
    pub tick: u64,
}

pub struct CtxV {
    pub row: Option<RowV>,
    pub schema: Option<SchemaV>,
    pub group: Option<Seq<RowV>>,
    pub excluded: Option<RowV>,
    pub cols: Option<Seq<RelColV>>,
    pub tick: u64,
}

pub open spec fn opt_row(o: Option<&[Value]>) -> Option<RowV> {
    match o {
        Some(r) => Some(row_view(r@)),
        None => None,
    }
}

impl<'a> View for EvalCtx<'a> {
    type V = CtxV;

    open spec fn view(&self) -> CtxV {
        CtxV {
            row: opt_row(self.row),
            schema: match self.schema {
                Some(s) => Some(s@),
                None => None,
            },
            group: match self.group {
                Some(g) => Some(group_view(g@)),
                None => None,
            },
            excluded: opt_row(self.excluded),
            cols: match self.cols {
                Some(c) => Some(rel_cols_view(c@)),
                None => None,
            },
            tick: self.tick,
        }
    }
}

/// The scope of constants and parameters.
pub open spec fn root_ctx() -> CtxV {
    CtxV { row: None, schema: None, group: None, excluded: None, cols: None, tick: 0 }
}

/// The scope of one row of a table.
pub open spec fn row_ctx(row: RowV, schema: SchemaV, tick: u64) -> CtxV {
    CtxV {
        row: Some(row),
        schema: Some(schema),
        group: None,
        excluded: None,
        cols: None,
        tick,
    }
}

/// The scope of one row of a joined namespace.
pub open spec fn rel_ctx(row: RowV, cols: Seq<RelColV>, tick: u64) -> CtxV {
    CtxV { row: Some(row), schema: None, group: None, excluded: None, cols: Some(cols), tick }
}

impl<'a> EvalCtx<'a> {
    pub fn root() -> (c: EvalCtx<'a>)
        ensures
            c@ == root_ctx(),
    {
        EvalCtx { row: None, schema: None, group: None, excluded: None, cols: None, tick: 0 }
    }

    pub fn row(row: &'a [Value], schema: &'a TableSchema, tick: u64) -> (c: EvalCtx<'a>)
        ensures
            c@ == row_ctx(row_view(row@), schema@, tick),
    {
        EvalCtx {
            row: Some(row),
            schema: Some(schema),
            group: None,
            excluded: None,
            cols: None,
            tick,
        }
    }

    pub fn rel(row: &'a [Value], cols: &'a [RelCol], tick: u64) -> (c: EvalCtx<'a>)
        ensures
            c@ == rel_ctx(row_view(row@), rel_cols_view(cols@), tick),
    {
        EvalCtx {
            row: Some(row),
            schema: None,
            group: None,
            excluded: None,
            cols: Some(cols),
            tick,
        }
    }
}

// ---- names -----------------------------------------------------------------------------------

/// Whether a namespace column answers to a name, qualified or not.
pub open spec fn answers(c: RelColV, table: Option<Seq<char>>, name: Seq<char>) -> bool {
    same_name(c.name, name) && match table {
        None => true,
        Some(t) => match c.table {
            Some(ct) => same_name(ct, t),
            None => false,
        },
    }
}

/// A name as it was written.
pub open spec fn written(table: Option<Seq<char>>, name: Seq<char>) -> Seq<char> {
    match table {
        Some(t) => t + "."@ + name,
        None => name,
    }
}

/// The one column from `i` on that answers to a name, `found` being an earlier
/// one; two are ambiguous.
pub open spec fn resolve_from(
    cols: Seq<RelColV>,
    table: Option<Seq<char>>,
    name: Seq<char>,
    i: int,
    found: Option<usize>,
) -> Result<usize, ErrorV>
    decreases cols.len() - i,
{
    if i < 0 || i >= cols.len() {
        match found {
            Some(k) => Ok(k),
            None => Err(sql_err("no such column: "@ + written(table, name))),
        }
    } else if answers(cols[i], table, name) {
        if found is Some {
            Err(sql_err("ambiguous column reference: "@ + written(table, name)))
        } else {
            resolve_from(cols, table, name, i + 1, Some(i as usize))
        }
    } else {
        resolve_from(cols, table, name, i + 1, found)
    }
}

/// The column of a namespace that a name refers to.
pub open spec fn resolved(cols: Seq<RelColV>, table: Option<Seq<char>>, name: Seq<char>) -> Result<
    usize,
    ErrorV,
> {
    resolve_from(cols, table, name, 0, None)
}

fn written_name(table: Option<&str>, name: &str) -> (r: String)
    ensures
        r@ == written(
            match table {
                Some(t) => Some(t@),
                None => None,
            },
            name@,
        ),
{
    match table {
        Some(t) => concat3(t, ".", name),
        None => owned(name),
    }
}

pub open spec fn opt_str(o: Option<&str>) -> Option<Seq<char>> {
    match o {
        Some(t) => Some(t@),
        None => None,
    }
}

/// Resolve a column reference against a namespace.
pub fn resolve_col(cols: &[RelCol], table: Option<&str>, name: &str) -> (r: Result<
    usize,
    EngineError,
>)
    ensures
        match r {
            Ok(i) => resolved(rel_cols_view(cols@), opt_str(table), name@) == Ok::<usize, ErrorV>(i)
                && i < cols.len(),
            Err(e) => resolved(rel_cols_view(cols@), opt_str(table), name@) == Err::<usize, ErrorV>(
                e@,
            ),
        },
{
    let ghost cv = rel_cols_view(cols@);
    let ghost tv = opt_str(table);
    let mut found: Option<usize> = None;
    let mut i: usize = 0;
    while i < cols.len()
        invariant
            i <= cols.len(),
            cv == rel_cols_view(cols@),
            tv == opt_str(table),
            found matches Some(k) ==> k < cols.len(),
            resolve_from(cv, tv, name@, i as int, found) == resolved(cv, tv, name@),
        decreases cols.len() - i,
    {
        let c = &cols[i];
        assert(cv[i as int] == c@);
        let name_ok = names_match(&c.name, name);
        let table_ok = match table {
            None => true,
            Some(t) => match &c.table {
                Some(ct) => names_match(ct, t),
                None => false,
            },
        };
        if name_ok && table_ok {
            if found.is_some() {
                let w = written_name(table, name);
                return Err(EngineError::sql(concat2("ambiguous column reference: ", &w)));
            }
            found = Some(i);
        }
        i += 1;
    }
    match found {
        Some(k) => Ok(k),
        None => {
            let w = written_name(table, name);
            Err(EngineError::sql(concat2("no such column: ", &w)))
        },
    }
}

/// A cell of a row; a row that is too short reads as `NULL` beyond its end.
pub open spec fn cell(row: RowV, i: int) -> ValueV {
    if 0 <= i < row.len() {
        row[i]
    } else {
        ValueV::Null
    }
}

pub fn cell_at(row: &[Value], i: usize) -> (v: Value)
    ensures
        v@ == cell(row_view(row@), i as int),
{
    if i < row.len() {
        row[i].clone()
    } else {
        Value::Null
    }
}

/// The value a column reference has in a scope.
#[verifier::opaque]
pub open spec fn column_value(c: CtxV, table: Option<Seq<char>>, name: Seq<char>) -> Out {
    match c.row {
        None => Err(sql_fail("column "@ + name + " referenced with no row"@)),
        Some(row) => match c.cols {
            Some(cols) => match resolved(cols, table, name) {
                Ok(i) => Ok(cell(row, i as int)),
                Err(e) => Err(StopV::Fail(e)),
            },
            None => match c.schema {
                None => Err(sql_fail("column "@ + name + " referenced with no table"@)),
                Some(s) => match column_pos(s, name) {
                    Some(i) => Ok(cell(row, i as int)),
                    None => Err(sql_fail("no such column: "@ + name)),
                },
            },
        },
    }
}

fn resolve_value(ctx: &EvalCtx, table: Option<&str>, name: &str) -> (r: Result<Value, Stop>)
    ensures
        value_result(r) == column_value(ctx@, opt_str(table), name@),
{
    proof {
        reveal(column_value);
    }
    let row = match ctx.row {
        Some(r) => r,
        None => {
            return Err(sql_stop(concat3("column ", name, " referenced with no row")));
        },
    };
    match ctx.cols {
        Some(cols) => match resolve_col(cols, table, name) {
            Ok(i) => Ok(cell_at(row, i)),
            Err(e) => Err(Stop::Fail(e)),
        },
        None => match ctx.schema {
            None => Err(sql_stop(concat3("column ", name, " referenced with no table"))),
            Some(s) => match s.column_index(name) {
                Some(i) => Ok(cell_at(row, i)),
                None => Err(sql_stop(concat2("no such column: ", name))),
            },
        },
    }
}

/// The value of `excluded.name` in a scope.
#[verifier::opaque]
pub open spec fn excluded_value(c: CtxV, name: Seq<char>) -> Out {
    match c.excluded {
        None => Err(sql_fail("excluded.* is only valid in ON CONFLICT DO UPDATE"@)),
        Some(row) => match c.schema {
            None => Err(sql_fail("excluded.* referenced with no table"@)),
            Some(s) => match column_pos(s, name) {
                Some(i) => Ok(cell(row, i as int)),
                None => Err(sql_fail("no such column: excluded."@ + name)),
            },
        },
    }
}

fn resolve_excluded(ctx: &EvalCtx, name: &str) -> (r: Result<Value, Stop>)
    ensures
        value_result(r) == excluded_value(ctx@, name@),
{
    proof {
        reveal(excluded_value);
    }
    let row = match ctx.excluded {
        Some(r) => r,
        None => {
            return Err(sql_stop(owned("excluded.* is only valid in ON CONFLICT DO UPDATE")));
        },
    };
    match ctx.schema {
        None => Err(sql_stop(owned("excluded.* referenced with no table"))),
        Some(s) => match s.column_index(name) {
            Some(i) => Ok(cell_at(row, i)),
            None => Err(sql_stop(concat2("no such column: excluded.", name))),
        },
    }
}

/// A bound parameter, counted from one.
#[verifier::opaque]
pub open spec fn param_value(params: RowV, i: usize) -> Out {
    if 1 <= i <= params.len() {
        Ok(params[i - 1])
    } else {
        Err(
            StopV::Fail(
                err(EngineStatus::ErrMisuse, "missing bound parameter ?"@ + nat_text(i as nat)),
            ),
        )
    }
}

fn bound_param(params: &[Value], i: usize) -> (r: Result<Value, Stop>)
    ensures
        value_result(r) == param_value(row_view(params@), i),
{
    proof {
        reveal(param_value);
    }
    if 1 <= i && i <= params.len() {
        assert(row_view(params@)[i - 1] == params@[i - 1]@);
        Ok(params[i - 1].clone())
    } else {
        let n = nat_string(i as u64);
        Err(Stop::Fail(EngineError::misuse(concat2("missing bound parameter ?", &n))))
    }
}

// ---- aggregates --------------------------------------------------------------------------------

/// The values that are not `NULL`, from `i` on, behind `acc`.
pub open spec fn known_from(vals: RowV, i: int, acc: RowV) -> RowV
    decreases vals.len() - i,
{
    if i < 0 || i >= vals.len() {
        acc
    } else if vals[i] is Null {
        known_from(vals, i + 1, acc)
    } else {
        known_from(vals, i + 1, acc.push(vals[i]))
    }
}

/// Whether a value with the same key is in a list.
pub open spec fn has_key(vals: RowV, v: ValueV) -> bool {
    exists|k: int| 0 <= k < vals.len() && value_key(#[trigger] vals[k]) == value_key(v)
}

/// The values with a key not seen before, from `i` on, behind `acc`.
pub open spec fn distinct_from(vals: RowV, i: int, acc: RowV) -> RowV
    decreases vals.len() - i,
{
    if i < 0 || i >= vals.len() {
        acc
    } else if has_key(acc, vals[i]) {
        distinct_from(vals, i + 1, acc)
    } else {
        distinct_from(vals, i + 1, acc.push(vals[i]))
    }
}

/// The texts of values from `i` on, separated, behind `acc`.
pub open spec fn separated_from(
    t: RealsV,
    vals: RowV,
    sep: Seq<char>,
    i: int,
    acc: Seq<char>,
) -> Result<Seq<char>, StopV>
    decreases vals.len() - i,
{
    if i < 0 || i >= vals.len() {
        Ok(acc)
    } else {
        match text_form(t, vals[i]) {
            Ok(s) => separated_from(
                t,
                vals,
                sep,
                i + 1,
                (if i > 0 {
                    acc + sep
                } else {
                    acc
                }) + s,
            ),
            Err(e) => Err(e),
        }
    }
}

/// The best of the values from `i` on: `best` gives way to a value that compares
/// to it as `want`.
pub open spec fn best_from(vals: RowV, want: Order, i: int, best: ValueV) -> ValueV
    decreases vals.len() - i,
{
    if i < 0 || i >= vals.len() {
        best
    } else if value_order(vals[i], best) == Some(want) {
        best_from(vals, want, i + 1, vals[i])
    } else {
        best_from(vals, want, i + 1, best)
    }
}

pub open spec fn best_of(vals: RowV, want: Order) -> ValueV {
    if vals.len() == 0 {
        ValueV::Null
    } else {
        best_from(vals, want, 1, vals[0])
    }
}

pub open spec fn all_ints(vals: RowV) -> bool {
    forall|i: int| 0 <= i < vals.len() ==> #[trigger] vals[i] is Int
}

pub open spec fn int_sum(vals: RowV) -> int
    decreases vals.len(),
{
    if vals.len() == 0 {
        0
    } else {
        int_sum(vals.drop_last()) + vals.last()->Int_0
    }
}

/// The values from `i` on as doubles (no number counts as zero), behind `acc`.
pub open spec fn doubles_from(t: RealsV, vals: RowV, i: int, acc: Seq<u64>) -> Result<
    Seq<u64>,
    StopV,
>
    decreases vals.len() - i,
{
    if i < 0 || i >= vals.len() {
        Ok(acc)
    } else {
        match as_number(t, vals[i]) {
            Ok(Some(b)) => doubles_from(t, vals, i + 1, acc.push(b)),
            Ok(None) => doubles_from(t, vals, i + 1, acc.push(0)),
            Err(e) => Err(e),
        }
    }
}

/// The sum of values as doubles.
pub open spec fn double_sum(t: RealsV, vals: RowV) -> Result<u64, StopV> {
    match doubles_from(t, vals, 0, Seq::empty()) {
        Ok(ds) => bits_of(t, AskV::Total(ds)),
        Err(e) => Err(e),
    }
}

pub open spec fn sum_of(t: RealsV, vals: RowV) -> Out {
    if vals.len() == 0 {
        Ok(ValueV::Null)
    } else if all_ints(vals) {
        if i64::MIN <= int_sum(vals) <= i64::MAX {
            Ok(ValueV::Int(int_sum(vals) as i64))
        } else {
            Err(sql_fail("integer out of range"@))
        }
    } else {
        match double_sum(t, vals) {
            Ok(b) => Ok(ValueV::Real(b)),
            Err(e) => Err(e),
        }
    }
}

pub open spec fn avg_of(t: RealsV, vals: RowV) -> Out {
    if vals.len() == 0 {
        Ok(ValueV::Null)
    } else {
        match double_sum(t, vals) {
            Ok(b) => match bits_of(
                t,
                AskV::Apply2(Binary::Over, b, real_of_int(vals.len() as i64)),
            ) {
                Ok(q) => Ok(ValueV::Real(q)),
                Err(e) => Err(e),
            },
            Err(e) => Err(e),
        }
    }
}

/// An aggregate over the values its argument has in the rows of a group.
#[verifier::opaque]
pub open spec fn aggregate_of(
    t: RealsV,
    func: AggFunc,
    distinct: bool,
    sep: Option<Seq<char>>,
    all: RowV,
) -> Out {
    if func == AggFunc::JsonAgg {
        if all.len() == 0 {
            Ok(ValueV::Null)
        } else {
            match json_list(t, all) {
                Ok(s) => Ok(ValueV::Text(s)),
                Err(e) => Err(e),
            }
        }
    } else {
        let known = known_from(all, 0, Seq::empty());
        let vals = if distinct {
            distinct_from(known, 0, Seq::empty())
        } else {
            known
        };
        match func {
            AggFunc::GroupConcat => if vals.len() == 0 {
                Ok(ValueV::Null)
            } else {
                match separated_from(
                    t,
                    vals,
                    match sep {
                        Some(s) => s,
                        None => ","@,
                    },
                    0,
                    Seq::empty(),
                ) {
                    Ok(s) => Ok(ValueV::Text(s)),
                    Err(e) => Err(e),
                }
            },
            AggFunc::Count => Ok(ValueV::Int(vals.len() as i64)),
            AggFunc::Min => Ok(best_of(vals, Order::Less)),
            AggFunc::Max => Ok(best_of(vals, Order::Greater)),
            AggFunc::Sum => sum_of(t, vals),
            _ => avg_of(t, vals),
        }
    }
}

fn known_values(vals: &[Value]) -> (r: Vec<Value>)
    ensures
        row_view(r@) == known_from(row_view(vals@), 0, Seq::empty()),
{
    let ghost vv = row_view(vals@);
    let mut out: Vec<Value> = Vec::new();
    let mut i: usize = 0;
    assert(row_view(out@) =~= Seq::<ValueV>::empty());
    while i < vals.len()
        invariant
            i <= vals.len(),
            vv == row_view(vals@),
            known_from(vv, i as int, row_view(out@)) == known_from(vv, 0, Seq::empty()),
        decreases vals.len() - i,
    {
        assert(vv[i as int] == vals@[i as int]@);
        if !vals[i].is_null() {
            let ghost before = row_view(out@);
            out.push(vals[i].clone());
            assert(row_view(out@) =~= before.push(vv[i as int]));
        }
        i += 1;
    }
    out
}

fn key_among(keys: &Vec<Vec<char>>, k: &[char]) -> (r: bool)
    ensures
        r == exists|i: int| 0 <= i < keys@.len() && #[trigger] keys@[i]@ == k@,
{
    let mut i: usize = 0;
    while i < keys.len()
        invariant
            i <= keys.len(),
            forall|j: int| 0 <= j < i ==> keys@[j]@ != k@,
        decreases keys.len() - i,
    {
        if same_chars(&keys[i], k) {
            return true;
        }
        i += 1;
    }
    false
}

fn distinct_values(vals: &[Value]) -> (r: Vec<Value>)
    ensures
        row_view(r@) == distinct_from(row_view(vals@), 0, Seq::empty()),
{
    let ghost vv = row_view(vals@);
    let mut out: Vec<Value> = Vec::new();
    let mut keys: Vec<Vec<char>> = Vec::new();
    let mut i: usize = 0;
    assert(row_view(out@) =~= Seq::<ValueV>::empty());
    while i < vals.len()
        invariant
            i <= vals.len(),
            vv == row_view(vals@),
            keys.len() == out.len(),
            forall|j: int| 0 <= j < keys.len() ==> #[trigger] keys@[j]@ == value_key(out@[j]@),
            distinct_from(vv, i as int, row_view(out@)) == distinct_from(vv, 0, Seq::empty()),
        decreases vals.len() - i,
    {
        assert(vv[i as int] == vals@[i as int]@);
        let k = key_of_value(&vals[i]);
        let ghost before = row_view(out@);
        let dup = key_among(&keys, &k);
        proof {
            if dup {
                let j = choose|j: int| 0 <= j < keys@.len() && #[trigger] keys@[j]@ == k@;
                assert(value_key(before[j]) == value_key(vv[i as int]));
            } else if has_key(before, vv[i as int]) {
                let j = choose|j: int|
                    0 <= j < before.len() && value_key(#[trigger] before[j]) == value_key(
                        vv[i as int],
                    );
                assert(keys@[j]@ == k@);
            }
        }
        if !dup {
            out.push(vals[i].clone());
            keys.push(k);
            assert(row_view(out@) =~= before.push(vv[i as int]));
        }
        i += 1;
    }
    out
}

fn separate(reals: &Reals, vals: &[Value], sep: &[char]) -> (r: Result<Vec<char>, Stop>)
    ensures
        text_result(r) == separated_from(reals@, row_view(vals@), sep@, 0, Seq::empty()),
{
    let ghost vv = row_view(vals@);
    let mut out: Vec<char> = Vec::new();
    let mut i: usize = 0;
    assert(out@ =~= Seq::<char>::empty());
    while i < vals.len()
        invariant
            i <= vals.len(),
            vv == row_view(vals@),
            separated_from(reals@, vv, sep@, i as int, out@) == separated_from(
                reals@,
                vv,
                sep@,
                0,
                Seq::empty(),
            ),
        decreases vals.len() - i,
    {
        assert(vv[i as int] == vals@[i as int]@);
        match vals[i].text_of(reals) {
            Ok(mut s) => {
                if i > 0 {
                    let mut p = crate::text::slice_chars(sep, 0, sep.len());
                    assert(p@ =~= sep@);
                    out.append(&mut p);
                }
                out.append(&mut s);
            },
            Err(e) => {
                return Err(e);
            },
        }
        i += 1;
    }
    Ok(out)
}

fn best(vals: &[Value], want: Order) -> (r: Value)
    ensures
        r@ == best_of(row_view(vals@), want),
{
    let ghost vv = row_view(vals@);
    if vals.len() == 0 {
        return Value::Null;
    }
    assert(vv[0] == vals@[0]@);
    let mut b = vals[0].clone();
    let mut i: usize = 1;
    while i < vals.len()
        invariant
            1 <= i <= vals.len(),
            vv == row_view(vals@),
            best_from(vv, want, i as int, b@) == best_of(vv, want),
        decreases vals.len() - i,
    {
        assert(vv[i as int] == vals@[i as int]@);
        let take = match vals[i].compare(&b) {
            Some(o) => o == want,
            None => false,
        };
        if take {
            b = vals[i].clone();
        }
        i += 1;
    }
    b
}

fn doubles(reals: &Reals, vals: &[Value]) -> (r: Result<Vec<u64>, Stop>)
    ensures
        match r {
            Ok(d) => doubles_from(reals@, row_view(vals@), 0, Seq::empty()) == Ok::<
                Seq<u64>,
                StopV,
            >(d@),
            Err(e) => doubles_from(reals@, row_view(vals@), 0, Seq::empty()) == Err::<
                Seq<u64>,
                StopV,
            >(e@),
        },
{
    let ghost vv = row_view(vals@);
    let mut out: Vec<u64> = Vec::new();
    let mut i: usize = 0;
    assert(out@ =~= Seq::<u64>::empty());
    while i < vals.len()
        invariant
            i <= vals.len(),
            vv == row_view(vals@),
            doubles_from(reals@, vv, i as int, out@) == doubles_from(reals@, vv, 0, Seq::empty()),
        decreases vals.len() - i,
    {
        assert(vv[i as int] == vals@[i as int]@);
        match number_value(reals, &vals[i]) {
            Ok(Some(b)) => {
                out.push(b);
            },
            Ok(None) => {
                out.push(0);
            },
            Err(e) => {
                return Err(e);
            },
        }
        i += 1;
    }
    Ok(out)
}

fn sum_doubles(reals: &Reals, vals: &[Value]) -> (r: Result<u64, Stop>)
    ensures
        match r {
            Ok(b) => double_sum(reals@, row_view(vals@)) == Ok::<u64, StopV>(b),
            Err(e) => double_sum(reals@, row_view(vals@)) == Err::<u64, StopV>(e@),
        },
{
    match doubles(reals, vals) {
        Ok(d) => reals.bits(Ask::Total(d)),
        Err(e) => Err(e),
    }
}

/// The sum of integers, kept exact in a wider type.
fn sum_ints(vals: &[Value]) -> (r: Option<i128>)
    ensures
        match r {
            Some(n) => all_ints(row_view(vals@)) && n == int_sum(row_view(vals@)),
            None => !all_ints(row_view(vals@)),
        },
{
    let ghost vv = row_view(vals@);
    let mut n: i128 = 0;
    let mut i: usize = 0;
    assert(vv.take(0) =~= Seq::<ValueV>::empty());
    while i < vals.len()
        invariant
            i <= vals.len(),
            vv == row_view(vals@),
            forall|k: int| 0 <= k < i ==> #[trigger] vv[k] is Int,
            n == int_sum(vv.take(i as int)),
            -0x8000_0000_0000_0000 * i <= n <= 0x7fff_ffff_ffff_ffff * i,
        decreases vals.len() - i,
    {
        assert(vv[i as int] == vals@[i as int]@);
        assert(vv.take(i + 1).drop_last() =~= vv.take(i as int));
        match &vals[i] {
            Value::Int(k) => {
                n = n + *k as i128;
            },
            _ => {
                assert(!(vv[i as int] is Int));
                return None;
            },
        }
        i += 1;
    }
    assert(vv.take(i as int) =~= vv);
    Some(n)
}

fn sum(reals: &Reals, vals: &[Value]) -> (r: Result<Value, Stop>)
    ensures
        value_result(r) == sum_of(reals@, row_view(vals@)),
{
    if vals.len() == 0 {
        return Ok(Value::Null);
    }
    match sum_ints(vals) {
        Some(n) => if -9_223_372_036_854_775_808 <= n && n <= 9_223_372_036_854_775_807 {
            Ok(Value::Int(n as i64))
        } else {
            Err(sql_stop(owned("integer out of range")))
        },
        None => match sum_doubles(reals, vals) {
            Ok(b) => Ok(Value::Real(b)),
            Err(e) => Err(e),
        },
    }
}

fn avg(reals: &Reals, vals: &[Value]) -> (r: Result<Value, Stop>)
    ensures
        value_result(r) == avg_of(reals@, row_view(vals@)),
{
    if vals.len() == 0 {
        return Ok(Value::Null);
    }
    match sum_doubles(reals, vals) {
        Ok(b) => {
            let n: i64 = vals.len() as i64;
            match reals.bits(Ask::Apply2(Binary::Over, b, int_to_real(n))) {
                Ok(q) => Ok(Value::Real(q)),
                Err(e) => Err(e),
            }
        },
        Err(e) => Err(e),
    }
}

/// Fold an aggregate over the values its argument has in the rows of a group.
pub fn compute_aggregate(
    reals: &Reals,
    func: AggFunc,
    distinct: bool,
    sep: Option<Vec<char>>,
    all: &[Value],
) -> (r: Result<Value, Stop>)
    ensures
        value_result(r) == aggregate_of(
            reals@,
            func,
            distinct,
            match sep {
                Some(s) => Some(s@),
                None => None,
            },
            row_view(all@),
        ),
{
    proof {
        reveal(aggregate_of);
    }
    if func == AggFunc::JsonAgg {
        if all.len() == 0 {
            return Ok(Value::Null);
        }
        return match json_array(reals, all) {
            Ok(s) => Ok(Value::Text(from_chars(&s))),
            Err(e) => Err(e),
        };
    }
    let known = known_values(all);
    let vals = if distinct {
        distinct_values(&known)
    } else {
        known
    };
    match func {
        AggFunc::GroupConcat => {
            if vals.len() == 0 {
                return Ok(Value::Null);
            }
            let sp = match sep {
                Some(s) => s,
                None => to_chars(","),
            };
            match separate(reals, &vals, &sp) {
                Ok(s) => Ok(Value::Text(from_chars(&s))),
                Err(e) => Err(e),
            }
        },
        AggFunc::Count => Ok(Value::Int(vals.len() as i64)),
        AggFunc::Min => Ok(best(&vals, Order::Less)),
        AggFunc::Max => Ok(best(&vals, Order::Greater)),
        AggFunc::Sum => sum(reals, &vals),
        _ => avg(reals, &vals),
    }
}

// ---- evaluation --------------------------------------------------------------------------------

/// The scope of row `k` of a group, inside an aggregate.
pub open spec fn member_ctx(c: CtxV, row: RowV, k: int) -> CtxV {
    CtxV {
        row: Some(row),
        schema: c.schema,
        group: None,
        excluded: None,
        cols: c.cols,
        tick: k as u64,
    }
}

/// `LIKE` on evaluated operands: texts match, anything else is unknown.
pub open spec fn like_value(
    v: ValueV,
    p: ValueV,
    esc: Option<char>,
    negated: bool,
    insensitive: bool,
) -> ValueV {
    match (v, p) {
        (ValueV::Text(s), ValueV::Text(x)) => ValueV::Int(
            bool_int(like_of(s, x, esc, insensitive) != negated),
        ),
        _ => ValueV::Null,
    }
}

/// The escape character that an evaluated escape operand gives.
pub open spec fn escape_of(t: RealsV, v: ValueV) -> Result<Option<char>, StopV> {
    match text_form(t, v) {
        Ok(s) => Ok(
            if s.len() > 0 {
                Some(s[0])
            } else {
                None
            },
        ),
        Err(e) => Err(e),
    }
}

/// `LIKE` on evaluated operands, the escape operand evaluated too where given.
#[verifier::opaque]
pub open spec fn like_finish(
    t: RealsV,
    v: ValueV,
    p: ValueV,
    esc: Option<ValueV>,
    negated: bool,
    insensitive: bool,
) -> Out {
    match esc {
        None => Ok(like_value(v, p, None, negated, insensitive)),
        Some(ValueV::Null) => Ok(ValueV::Null),
        Some(xv) => match escape_of(t, xv) {
            Ok(c) => Ok(like_value(v, p, c, negated, insensitive)),
            Err(s) => Err(s),
        },
    }
}

/// `BETWEEN` on evaluated operands.
#[verifier::opaque]
pub open spec fn between_value(v: ValueV, lo: ValueV, hi: ValueV, negated: bool) -> ValueV {
    let ge = crate::ops::known3(crate::ops::compare_of(BinOp::Ge, v, lo));
    let le = crate::ops::known3(crate::ops::compare_of(BinOp::Le, v, hi));
    let within = and3(truth(ge), truth(le));
    if negated {
        not3(truth(within))
    } else {
        within
    }
}

/// What an expression is worth in a scope.
pub open spec fn ev(e: ExprV, c: CtxV, env: EnvV) -> Out
    decreases e, 0int,
{
    match e {
        ExprV::Null => Ok(ValueV::Null),
        ExprV::Int(i) => Ok(ValueV::Int(i)),
        ExprV::Real(b) => Ok(ValueV::Real(b)),
        ExprV::Str(s) => Ok(ValueV::Text(s)),
        ExprV::Vector(v) => Ok(ValueV::Vector(v)),
        ExprV::Lit(v) => Ok(v),
        ExprV::Param(i) => param_value(env.params, i),
        ExprV::Column(n) => column_value(c, None, n),
        ExprV::Qualified(t, n) => column_value(c, Some(t), n),
        ExprV::Unary { op, e } => match ev(*e, c, env) {
            Ok(v) => unary_value(op, v),
            Err(x) => Err(x),
        },
        ExprV::IsNull { e, negated } => match ev(*e, c, env) {
            Ok(v) => Ok(ValueV::Int(bool_int((v is Null) != negated))),
            Err(x) => Err(x),
        },
        ExprV::Like { e, pattern, escape, negated, insensitive } => match ev(*e, c, env) {
            Ok(v) => match ev(*pattern, c, env) {
                Ok(p) => match escape {
                    None => like_finish(env.reals, v, p, None, negated, insensitive),
                    Some(x) => match ev(*x, c, env) {
                        Ok(xv) => like_finish(env.reals, v, p, Some(xv), negated, insensitive),
                        Err(s) => Err(s),
                    },
                },
                Err(s) => Err(s),
            },
            Err(s) => Err(s),
        },
        ExprV::InList { e, list, negated } => match ev(*e, c, env) {
            Ok(v) => if v is Null {
                Ok(ValueV::Null)
            } else {
                ev_in(v, list, negated, 0, false, c, env)
            },
            Err(s) => Err(s),
        },
        ExprV::Between { e, lo, hi, negated } => match ev(*e, c, env) {
            Ok(v) => match ev(*lo, c, env) {
                Ok(l) => match ev(*hi, c, env) {
                    Ok(h) => Ok(between_value(v, l, h, negated)),
                    Err(s) => Err(s),
                },
                Err(s) => Err(s),
            },
            Err(s) => Err(s),
        },
        ExprV::Case { operand, whens, els } => match operand {
            Some(x) => match ev(*x, c, env) {
                Ok(v) => match ev_case(Some(v), whens, 0, c, env) {
                    Some(r) => r,
                    None => match els {
                        Some(y) => ev(*y, c, env),
                        None => Ok(ValueV::Null),
                    },
                },
                Err(s) => Err(s),
            },
            None => match ev_case(None, whens, 0, c, env) {
                Some(r) => r,
                None => match els {
                    Some(y) => ev(*y, c, env),
                    None => Ok(ValueV::Null),
                },
            },
        },
        ExprV::Excluded(n) => excluded_value(c, n),
        ExprV::Default => Err(sql_fail("DEFAULT is only valid as an INSERT value"@)),
        ExprV::Binary { op, l, r } => match ev(*l, c, env) {
            Ok(a) => match ev(*r, c, env) {
                Ok(b) => binary_of(env.reals, op, a, b),
                Err(s) => Err(s),
            },
            Err(s) => Err(s),
        },
        ExprV::Cast { e, target } => match ev(*e, c, env) {
            Ok(v) => cast_of(env.reals, v, target),
            Err(s) => Err(s),
        },
        ExprV::Func { name, args } => match ev_list(args, 0, Seq::empty(), c, env) {
            Ok(vals) => called(env, c.tick, name, vals),
            Err(s) => Err(s),
        },
        ExprV::Aggregate { func, arg, distinct, sep } => match c.group {
            None => Err(sql_fail("aggregate function not allowed in this context"@)),
            Some(rows) => {
                let s = match sep {
                    Some(x) => match ev(*x, c, env) {
                        Ok(v) => rendered(env.reals, v),
                        Err(s) => Err(s),
                    },
                    None => Ok(None),
                };
                match s {
                    Err(x) => Err(x),
                    Ok(sp) => match arg {
                        AggArgV::Star => if func == AggFunc::Count {
                            Ok(ValueV::Int(rows.len() as i64))
                        } else {
                            Err(sql_fail("only COUNT(*) takes a star argument"@))
                        },
                        AggArgV::Expr(x) => match ev_rows(
                            *x,
                            rows,
                            0,
                            Seq::empty(),
                            c,
                            within(env, IN_GROUP, c.tick),
                        ) {
                            Ok(vals) => aggregate_of(env.reals, func, distinct, sp, vals),
                            Err(s) => Err(s),
                        },
                    },
                }
            },
        },
        ExprV::ScalarSubquery(_) | ExprV::Exists { .. } | ExprV::InSubquery { .. } => Err(
            sql_fail("subqueries are only supported in SELECT statements"@),
        ),
    }
}

/// Membership in the expressions from `i` on: the first equal one decides, a
/// comparison with `NULL` leaves it unknown.
pub open spec fn ev_in(
    v: ValueV,
    list: Seq<ExprV>,
    negated: bool,
    i: int,
    saw_null: bool,
    c: CtxV,
    env: EnvV,
) -> Out
    decreases list, list.len() - i,
{
    if i < 0 || i >= list.len() {
        if saw_null {
            Ok(ValueV::Null)
        } else {
            Ok(ValueV::Int(bool_int(negated)))
        }
    } else {
        match ev(list[i], c, env) {
            Ok(x) => match value_eq(v, x) {
                Some(true) => Ok(ValueV::Int(bool_int(!negated))),
                Some(false) => ev_in(v, list, negated, i + 1, saw_null, c, env),
                None => ev_in(v, list, negated, i + 1, true, c, env),
            },
            Err(s) => Err(s),
        }
    }
}

/// The branch of a `CASE` that applies, from `i` on; `None` when none does.
pub open spec fn ev_case(
    operand: Option<ValueV>,
    whens: Seq<(ExprV, ExprV)>,
    i: int,
    c: CtxV,
    env: EnvV,
) -> Option<Out>
    decreases whens, whens.len() - i,
{
    if i < 0 || i >= whens.len() {
        None
    } else {
        match ev(whens[i].0, c, env) {
            Ok(v) => {
                let hit = match operand {
                    Some(op) => value_eq(v, op) == Some(true),
                    None => truth(v) == Some(true),
                };
                if hit {
                    Some(ev(whens[i].1, c, env))
                } else {
                    ev_case(operand, whens, i + 1, c, env)
                }
            },
            Err(s) => Some(Err(s)),
        }
    }
}

/// The values of expressions from `i` on, behind `acc`.
pub open spec fn ev_list(list: Seq<ExprV>, i: int, acc: RowV, c: CtxV, env: EnvV) -> Result<
    RowV,
    StopV,
>
    decreases list, list.len() - i,
{
    if i < 0 || i >= list.len() {
        Ok(acc)
    } else {
        match ev(list[i], c, env) {
            Ok(v) => ev_list(list, i + 1, acc.push(v), c, env),
            Err(s) => Err(s),
        }
    }
}

/// The values of an expression in the rows of a group from `i` on, behind `acc`.
pub open spec fn ev_rows(e: ExprV, rows: Seq<RowV>, i: int, acc: RowV, c: CtxV, env: EnvV) -> Result<
    RowV,
    StopV,
>
    decreases e, rows.len() - i + 1,
{
    if i < 0 || i >= rows.len() {
        Ok(acc)
    } else {
        match ev(e, member_ctx(c, rows[i], i), env) {
            Ok(v) => ev_rows(e, rows, i + 1, acc.push(v), c, env),
            Err(s) => Err(s),
        }
    }
}

pub open spec fn row_result(r: Result<Vec<Value>, Stop>) -> Result<RowV, StopV> {
    match r {
        Ok(v) => Ok(row_view(v@)),
        Err(s) => Err(s@),
    }
}

fn eval_like(
    reals: &Reals,
    v: &Value,
    p: &Value,
    esc: Option<Value>,
    negated: bool,
    insensitive: bool,
) -> (r: Result<Value, Stop>)
    ensures
        value_result(r) == like_finish(
            reals@,
            v@,
            p@,
            match esc {
                Some(x) => Some(x@),
                None => None,
            },
            negated,
            insensitive,
        ),
{
    proof {
        reveal(like_finish);
    }
    let c: Option<char> = match &esc {
        None => None,
        Some(x) => {
            if x.is_null() {
                return Ok(Value::Null);
            }
            match x.text_of(reals) {
                Ok(s) => if s.len() > 0 {
                    Some(s[0])
                } else {
                    None
                },
                Err(e) => {
                    return Err(e);
                },
            }
        },
    };
    match (v, p) {
        (Value::Text(s), Value::Text(x)) => {
            let m = like_match(s, x, c, insensitive);
            Ok(Value::Int(int_of_bool(m != negated)))
        },
        _ => Ok(Value::Null),
    }
}

fn eval_between(v: &Value, lo: &Value, hi: &Value, negated: bool, reals: &Reals) -> (r: Value)
    ensures
        r@ == between_value(v@, lo@, hi@, negated),
{
    proof {
        reveal(between_value);
        reveal(crate::ops::binary_of);
    }
    let ge = match eval_binary(reals, BinOp::Ge, v, lo) {
        Ok(x) => x,
        Err(_) => Value::Null,
    };
    let le = match eval_binary(reals, BinOp::Le, v, hi) {
        Ok(x) => x,
        Err(_) => Value::Null,
    };
    let within = three_valued_and(ge.as_bool(), le.as_bool());
    if negated {
        three_valued_not(within.as_bool())
    } else {
        within
    }
}

fn eval_in_list(v: &Value, list: &Vec<Expr>, negated: bool, ctx: &EvalCtx, env: &Env) -> (r: Result<
    Value,
    Stop,
>)
    ensures
        value_result(r) == ev_in(v@, exprs_view(list@), negated, 0, false, ctx@, env@),
    decreases list, 0int,
{
    let ghost lv = exprs_view(list@);
    let mut saw_null = false;
    let mut i: usize = 0;
    while i < list.len()
        invariant
            i <= list.len(),
            lv == exprs_view(list@),
            ev_in(v@, lv, negated, i as int, saw_null, ctx@, env@) == ev_in(
                v@,
                lv,
                negated,
                0,
                false,
                ctx@,
                env@,
            ),
        decreases list.len() - i,
    {
        assert(lv[i as int] == list@[i as int]@);
        match eval(&list[i], ctx, env) {
            Ok(x) => match v.sql_eq(&x) {
                Some(true) => {
                    return Ok(Value::Int(int_of_bool(!negated)));
                },
                Some(false) => {},
                None => {
                    saw_null = true;
                },
            },
            Err(s) => {
                return Err(s);
            },
        }
        i += 1;
    }
    if saw_null {
        Ok(Value::Null)
    } else {
        Ok(Value::Int(int_of_bool(negated)))
    }
}

fn eval_case(
    operand: &Option<Value>,
    whens: &Vec<(Expr, Expr)>,
    ctx: &EvalCtx,
    env: &Env,
) -> (r: Option<Result<Value, Stop>>)
    ensures
        ({
            let spec = ev_case(
                match operand {
                    Some(v) => Some(v@),
                    None => None,
                },
                whens_view(whens@),
                0,
                ctx@,
                env@,
            );
            match r {
                Some(x) => spec == Some(value_result(x)),
                None => spec is None,
            }
        }),
    decreases whens, 0int,
{
    let ghost wv = whens_view(whens@);
    let ghost ov = match operand {
        Some(v) => Some(v@),
        None => None,
    };
    let mut i: usize = 0;
    while i < whens.len()
        invariant
            i <= whens.len(),
            wv == whens_view(whens@),
            ov == (match operand {
                Some(v) => Some(v@),
                None => None::<ValueV>,
            }),
            ev_case(ov, wv, i as int, ctx@, env@) == ev_case(ov, wv, 0, ctx@, env@),
        decreases whens.len() - i,
    {
        assert(wv[i as int] == (whens@[i as int].0@, whens@[i as int].1@));
        assert(decreases_to!(whens => whens@[i as int]));
        match eval(&whens[i].0, ctx, env) {
            Ok(v) => {
                let hit = match operand {
                    Some(op) => match v.sql_eq(op) {
                        Some(b) => b,
                        None => false,
                    },
                    None => match v.as_bool() {
                        Some(b) => b,
                        None => false,
                    },
                };
                if hit {
                    return Some(eval(&whens[i].1, ctx, env));
                }
            },
            Err(s) => {
                return Some(Err(s));
            },
        }
        i += 1;
    }
    None
}

pub fn eval_args(list: &Vec<Expr>, ctx: &EvalCtx, env: &Env) -> (r: Result<Vec<Value>, Stop>)
    ensures
        row_result(r) == ev_list(exprs_view(list@), 0, Seq::empty(), ctx@, env@),
    decreases list, 0int,
{
    let ghost lv = exprs_view(list@);
    let mut out: Vec<Value> = Vec::new();
    let mut i: usize = 0;
    assert(row_view(out@) =~= Seq::<ValueV>::empty());
    while i < list.len()
        invariant
            i <= list.len(),
            lv == exprs_view(list@),
            ev_list(lv, i as int, row_view(out@), ctx@, env@) == ev_list(
                lv,
                0,
                Seq::empty(),
                ctx@,
                env@,
            ),
        decreases list.len() - i,
    {
        assert(lv[i as int] == list@[i as int]@);
        match eval(&list[i], ctx, env) {
            Ok(v) => {
                let ghost before = row_view(out@);
                let ghost vv = v@;
                out.push(v);
                assert(row_view(out@) =~= before.push(vv));
            },
            Err(s) => {
                return Err(s);
            },
        }
        i += 1;
    }
    Ok(out)
}

fn eval_members(e: &Expr, rows: &[&[Value]], ctx: &EvalCtx, env: &Env) -> (r: Result<
    Vec<Value>,
    Stop,
>)
    ensures
        row_result(r) == ev_rows(e@, group_view(rows@), 0, Seq::empty(), ctx@, env@),
    decreases e, 1int,
{
    let ghost rv = group_view(rows@);
    let mut out: Vec<Value> = Vec::new();
    let mut i: usize = 0;
    assert(row_view(out@) =~= Seq::<ValueV>::empty());
    while i < rows.len()
        invariant
            i <= rows.len(),
            rv == group_view(rows@),
            ev_rows(e@, rv, i as int, row_view(out@), ctx@, env@) == ev_rows(
                e@,
                rv,
                0,
                Seq::empty(),
                ctx@,
                env@,
            ),
        decreases rows.len() - i,
    {
        let row: &[Value] = rows[i];
        assert(rv[i as int] == row_view(row@));
        let c = EvalCtx {
            row: Some(row),
            schema: ctx.schema,
            group: None,
            excluded: None,
            cols: ctx.cols,
            tick: i as u64,
        };
        match eval(e, &c, env) {
            Ok(v) => {
                let ghost before = row_view(out@);
                let ghost vv = v@;
                out.push(v);
                assert(row_view(out@) =~= before.push(vv));
            },
            Err(s) => {
                return Err(s);
            },
        }
        i += 1;
    }
    Ok(out)
}

/// Evaluate an expression in a scope.
pub fn eval(e: &Expr, ctx: &EvalCtx, env: &Env) -> (r: Result<Value, Stop>)
    ensures
        value_result(r) == ev(e@, ctx@, env@),
    decreases e, 0int,
{
    proof {
        lemma_expr_lists(*e);
    }
    match e {
        Expr::Null => Ok(Value::Null),
        Expr::Int(i) => Ok(Value::Int(*i)),
        Expr::Real(b) => Ok(Value::Real(*b)),
        Expr::Str(s) => Ok(Value::Text(s.clone())),
        Expr::Vector(v) => {
            let c = v.clone();
            assert(c@ =~= v@);
            Ok(Value::Vector(c))
        },
        Expr::Lit(v) => Ok(v.clone()),
        Expr::Param(i) => bound_param(env.params, *i),
        Expr::Column(n) => resolve_value(ctx, None, n),
        Expr::Qualified(t, n) => resolve_value(ctx, Some(t.as_str()), n),
        Expr::Unary { op, e } => match eval(e, ctx, env) {
            Ok(v) => apply_unary(*op, &v),
            Err(s) => Err(s),
        },
        Expr::IsNull { e, negated } => match eval(e, ctx, env) {
            Ok(v) => Ok(Value::Int(int_of_bool(v.is_null() != *negated))),
            Err(s) => Err(s),
        },
        Expr::Like { e, pattern, escape, negated, insensitive } => {
            proof {
                lemma_boxed(*escape);
            }
            let v = match eval(e, ctx, env) {
                Ok(v) => v,
                Err(s) => {
                    return Err(s);
                },
            };
            let p = match eval(pattern, ctx, env) {
                Ok(p) => p,
                Err(s) => {
                    return Err(s);
                },
            };
            let esc = match escape {
                Some(x) => match eval(x, ctx, env) {
                    Ok(x) => Some(x),
                    Err(s) => {
                        return Err(s);
                    },
                },
                None => None,
            };
            eval_like(env.reals, &v, &p, esc, *negated, *insensitive)
        },
        Expr::InList { e, list, negated } => match eval(e, ctx, env) {
            Ok(v) => if v.is_null() {
                Ok(Value::Null)
            } else {
                eval_in_list(&v, list, *negated, ctx, env)
            },
            Err(s) => Err(s),
        },
        Expr::Between { e, lo, hi, negated } => {
            let v = match eval(e, ctx, env) {
                Ok(v) => v,
                Err(s) => {
                    return Err(s);
                },
            };
            let l = match eval(lo, ctx, env) {
                Ok(v) => v,
                Err(s) => {
                    return Err(s);
                },
            };
            let h = match eval(hi, ctx, env) {
                Ok(v) => v,
                Err(s) => {
                    return Err(s);
                },
            };
            Ok(eval_between(&v, &l, &h, *negated, env.reals))
        },
        Expr::Case { operand, whens, els } => {
            proof {
                lemma_boxed(*operand);
                lemma_boxed(*els);
            }
            let op: Option<Value> = match operand {
                Some(x) => match eval(x, ctx, env) {
                    Ok(v) => Some(v),
                    Err(s) => {
                        return Err(s);
                    },
                },
                None => None,
            };
            match eval_case(&op, whens, ctx, env) {
                Some(r) => r,
                None => match els {
                    Some(y) => eval(y, ctx, env),
                    None => Ok(Value::Null),
                },
            }
        },
        Expr::Excluded(n) => resolve_excluded(ctx, n),
        Expr::Default => Err(sql_stop(owned("DEFAULT is only valid as an INSERT value"))),
        Expr::Binary { op, l, r } => {
            let a = match eval(l, ctx, env) {
                Ok(v) => v,
                Err(s) => {
                    return Err(s);
                },
            };
            let b = match eval(r, ctx, env) {
                Ok(v) => v,
                Err(s) => {
                    return Err(s);
                },
            };
            eval_binary(env.reals, *op, &a, &b)
        },
        Expr::Cast { e, target } => match eval(e, ctx, env) {
            Ok(v) => cast_value(env.reals, v, *target),
            Err(s) => Err(s),
        },
        Expr::Func { name, args } => match eval_args(args, ctx, env) {
            Ok(vals) => call_func(env, ctx.tick, name, &vals),
            Err(s) => Err(s),
        },
        Expr::Aggregate { func, arg, distinct, sep } => {
            proof {
                lemma_boxed(*sep);
                lemma_agg_arg(*arg);
            }
            let rows = match ctx.group {
                Some(g) => g,
                None => {
                    return Err(
                        sql_stop(owned("aggregate function not allowed in this context")),
                    );
                },
            };
            let sp: Option<Vec<char>> = match sep {
                Some(x) => match eval(x, ctx, env) {
                    Ok(v) => match v.render(env.reals) {
                        Ok(s) => s,
                        Err(e) => {
                            return Err(e);
                        },
                    },
                    Err(e) => {
                        return Err(e);
                    },
                },
                None => None,
            };
            match arg {
                AggArg::Star => if *func == AggFunc::Count {
                    Ok(Value::Int(rows.len() as i64))
                } else {
                    Err(sql_stop(owned("only COUNT(*) takes a star argument")))
                },
                AggArg::Expr(x) => {
                    let place = place_in(env, IN_GROUP, ctx.tick);
                    let inner = Env {
                        reals: env.reals,
                        now: env.now,
                        params: env.params,
                        session: env.session,
                        place: place.as_slice(),
                    };
                    assert(inner@ == within(env@, IN_GROUP, ctx@.tick));
                    match eval_members(x, rows, ctx, &inner) {
                        Ok(vals) => compute_aggregate(env.reals, *func, *distinct, sp, &vals),
                        Err(e) => Err(e),
                    }
                },
            }
        },
        Expr::ScalarSubquery(_) | Expr::Exists { .. } | Expr::InSubquery { .. } => Err(
            sql_stop(owned("subqueries are only supported in SELECT statements")),
        ),
    }
}

/// Whether an optional filter holds: absent counts as true, unknown as false.
pub open spec fn holds(filter: Option<ExprV>, c: CtxV, env: EnvV) -> Result<bool, StopV> {
    match filter {
        None => Ok(true),
        Some(e) => match ev(e, c, env) {
            Ok(v) => Ok(truth(v) == Some(true)),
            Err(s) => Err(s),
        },
    }
}

pub open spec fn bool_result(r: Result<bool, Stop>) -> Result<bool, StopV> {
    match r {
        Ok(b) => Ok(b),
        Err(s) => Err(s@),
    }
}

pub fn predicate(filter: &Option<Expr>, ctx: &EvalCtx, env: &Env) -> (r: Result<bool, Stop>)
    ensures
        bool_result(r) == holds(opt_expr_view(*filter), ctx@, env@),
{
    match filter {
        None => Ok(true),
        Some(e) => match eval(e, ctx, env) {
            Ok(v) => Ok(
                match v.as_bool() {
                    Some(b) => b,
                    None => false,
                },
            ),
            Err(s) => Err(s),
        },
    }
}

} // verus!
