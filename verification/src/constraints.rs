//! What rows must satisfy before they are written.
use vstd::prelude::*;
use crate::asks::{Reals, RealsV, Stop, StopV};
use crate::catalog::{
    columns_view, index_lists_view, key_columns, strings_view, unique_keys, ColumnV, PolicyCommand,
    SchemaV, TableSchema,
};
use crate::env::{fail, place_in, within, Env, EnvV, IN_CHECK};
use crate::error::{constraint_err, err, EngineError, EngineStatus};
use crate::eval::{cell, cell_at, ev, eval, row_ctx, EvalCtx};
use crate::grammar::stored_expr;
use crate::ops::{key_of_row, row_key};
use crate::pexpr::parse_expr;
use crate::policy::{guard_of, let_through, read_guard, require, Guard, GuardV};
use crate::sql::{exprs_view, Expr, ExprV};
use crate::store::{versions_view, writer_sees, PENDING, RowVersion, VersionV};
use crate::text::{concat2, concat4, nat_string, nat_text, owned, same_chars};
use crate::value::{class_name, row_view, rows_view, truth, ColumnType, RowV, Value, ValueV};

verus! {

pub open spec fn constraint_fail(m: Seq<char>) -> StopV {
    fail(constraint_err(m))
}

pub open spec fn conflict_fail(m: Seq<char>) -> StopV {
    fail(err(EngineStatus::ErrConflict, m))
}

pub fn constraint_stop(m: String) -> (s: Stop)
    ensures
        s@ == constraint_fail(m@),
{
    Stop::Fail(EngineError::constraint(m))
}

pub fn conflict_stop(m: String) -> (s: Stop)
    ensures
        s@ == conflict_fail(m@),
{
    Stop::Fail(EngineError::new(EngineStatus::ErrConflict, m))
}

pub open spec fn unit_result(r: Result<(), Stop>) -> Result<(), StopV> {
    match r {
        Ok(_) => Ok(()),
        Err(s) => Err(s@),
    }
}

// ---- one row --------------------------------------------------------------------------------------

/// From column `i` on: no `NULL` where none may be.
pub open spec fn nulls_allowed(cols: Seq<ColumnV>, row: RowV, table: Seq<char>, i: int) -> Result<
    (),
    StopV,
>
    decreases cols.len() - i,
{
    if i < 0 || i >= cols.len() {
        Ok(())
    } else if cols[i].not_null && cell(row, i) is Null {
        Err(constraint_fail("NOT NULL constraint failed: "@ + table + "."@ + cols[i].name))
    } else {
        nulls_allowed(cols, row, table, i + 1)
    }
}

pub fn check_not_null(schema: &TableSchema, row: &[Value], table: &str) -> (r: Result<(), Stop>)
    ensures
        unit_result(r) == nulls_allowed(schema@.columns, row_view(row@), table@, 0),
{
    let ghost cols = schema@.columns;
    let ghost rv = row_view(row@);
    let mut i: usize = 0;
    while i < schema.columns.len()
        invariant
            i <= schema.columns.len(),
            cols == columns_view(schema.columns@),
            cols == schema@.columns,
            rv == row_view(row@),
            nulls_allowed(cols, rv, table@, i as int) == nulls_allowed(cols, rv, table@, 0),
        decreases schema.columns.len() - i,
    {
        assert(cols[i as int] == schema.columns@[i as int]@);
        if schema.columns[i].not_null && cell_at(row, i).is_null() {
            return Err(
                constraint_stop(
                    concat4(
                        "NOT NULL constraint failed: ",
                        table,
                        ".",
                        &schema.columns[i].name,
                    ),
                ),
            );
        }
        i += 1;
    }
    Ok(())
}

/// What is wrong with a cell of a vector column of dimension `d`.
pub open spec fn dimension_of(v: ValueV, d: u32, table: Seq<char>, name: Seq<char>) -> Result<
    (),
    StopV,
> {
    match v {
        ValueV::Null => Ok(()),
        ValueV::Vector(c) => if c.len() == d {
            Ok(())
        } else {
            Err(
                constraint_fail(
                    "vector dimension mismatch on "@ + table + "."@ + name + (": expected "@
                        + nat_text(d as nat) + ", got "@ + nat_text(c.len())),
                ),
            )
        },
        _ => Err(
            constraint_fail(
                "column "@ + table + "."@ + name + (" is vector("@ + nat_text(d as nat)
                    + ") but value is "@ + class_name(v)),
            ),
        ),
    }
}

pub fn check_dimension(v: &Value, d: u32, table: &str, name: &str) -> (r: Result<(), Stop>)
    ensures
        unit_result(r) == dimension_of(v@, d, table@, name@),
{
    match v {
        Value::Null => Ok(()),
        Value::Vector(c) => if c.len() as u64 == d as u64 {
            Ok(())
        } else {
            let where_ = concat4("vector dimension mismatch on ", table, ".", name);
            let what = concat4(
                ": expected ",
                &nat_string(d as u64),
                ", got ",
                &nat_string(c.len() as u64),
            );
            Err(constraint_stop(concat2(&where_, &what)))
        },
        _ => {
            let where_ = concat4("column ", table, ".", name);
            let what = concat4(
                " is vector(",
                &nat_string(d as u64),
                ") but value is ",
                v.class_name(),
            );
            Err(constraint_stop(concat2(&where_, &what)))
        },
    }
}

/// From column `i` on: every vector has its column's dimension.
pub open spec fn dimensions_fit(cols: Seq<ColumnV>, row: RowV, table: Seq<char>, i: int) -> Result<
    (),
    StopV,
>
    decreases cols.len() - i,
{
    if i < 0 || i >= cols.len() {
        Ok(())
    } else {
        match cols[i].ty {
            ColumnType::Vector(d) => match dimension_of(cell(row, i), d, table, cols[i].name) {
                Err(e) => Err(e),
                Ok(_) => dimensions_fit(cols, row, table, i + 1),
            },
            _ => dimensions_fit(cols, row, table, i + 1),
        }
    }
}

pub fn check_vector_dims(schema: &TableSchema, row: &[Value], table: &str) -> (r: Result<(), Stop>)
    ensures
        unit_result(r) == dimensions_fit(schema@.columns, row_view(row@), table@, 0),
{
    let ghost cols = schema@.columns;
    let ghost rv = row_view(row@);
    let mut i: usize = 0;
    while i < schema.columns.len()
        invariant
            i <= schema.columns.len(),
            cols == columns_view(schema.columns@),
            cols == schema@.columns,
            rv == row_view(row@),
            dimensions_fit(cols, rv, table@, i as int) == dimensions_fit(cols, rv, table@, 0),
        decreases schema.columns.len() - i,
    {
        assert(cols[i as int] == schema.columns@[i as int]@);
        if let ColumnType::Vector(d) = schema.columns[i].ty {
            check_dimension(&cell_at(row, i), d, table, &schema.columns[i].name)?;
        }
        i += 1;
    }
    Ok(())
}

/// The texts of expressions kept with a table, read.
pub open spec fn read_checks_from(texts: Seq<Seq<char>>, t: RealsV, i: int, acc: Seq<ExprV>) -> Result<
    Seq<ExprV>,
    StopV,
>
    decreases texts.len() - i,
{
    if i < 0 || i >= texts.len() {
        Ok(acc)
    } else {
        match stored_expr(texts[i], t) {
            Err(e) => Err(e),
            Ok(x) => read_checks_from(texts, t, i + 1, acc.push(x)),
        }
    }
}

pub open spec fn read_checks(texts: Seq<Seq<char>>, t: RealsV) -> Result<Seq<ExprV>, StopV> {
    read_checks_from(texts, t, 0, Seq::empty())
}

pub fn parse_checks(texts: &Vec<String>, reals: &Reals) -> (r: Result<Vec<Expr>, Stop>)
    ensures
        read_checks(strings_view(texts@), reals@) == (match r {
            Ok(v) => Ok(exprs_view(v@)),
            Err(s) => Err(s@),
        }),
{
    let ghost tv = strings_view(texts@);
    let mut out: Vec<Expr> = Vec::new();
    assert(exprs_view(out@) =~= Seq::<ExprV>::empty());
    let mut i: usize = 0;
    while i < texts.len()
        invariant
            i <= texts.len(),
            tv == strings_view(texts@),
            read_checks_from(tv, reals@, i as int, exprs_view(out@)) == read_checks(tv, reals@),
        decreases texts.len() - i,
    {
        assert(tv[i as int] == texts@[i as int]@);
        let e = parse_expr(&texts[i], reals)?;
        let ghost before = exprs_view(out@);
        let ghost evw = e@;
        out.push(e);
        assert(exprs_view(out@) =~= before.push(evw));
        i += 1;
    }
    Ok(out)
}

/// An environment without parameters.
pub open spec fn unbound(env: EnvV) -> EnvV {
    EnvV { params: Seq::empty(), ..env }
}

/// From check `i` on: none is false of the row. One that is unknown is none that
/// fails.
pub open spec fn checks_hold(
    checks: Seq<ExprV>,
    schema: SchemaV,
    row: RowV,
    tick: u64,
    env: EnvV,
    i: int,
) -> Result<(), StopV>
    decreases checks.len() - i,
{
    if i < 0 || i >= checks.len() {
        Ok(())
    } else {
        match ev(checks[i], row_ctx(row, schema, tick), unbound(within(env, IN_CHECK, i as u64))) {
            Err(e) => Err(e),
            Ok(v) => if truth(v) == Some(false) {
                Err(constraint_fail("CHECK constraint failed: "@ + schema.name))
            } else {
                checks_hold(checks, schema, row, tick, env, i + 1)
            },
        }
    }
}

pub fn check_row_constraints(
    checks: &Vec<Expr>,
    schema: &TableSchema,
    row: &[Value],
    tick: u64,
    env: &Env,
) -> (r: Result<(), Stop>)
    ensures
        unit_result(r) == checks_hold(
            exprs_view(checks@),
            schema@,
            row_view(row@),
            tick,
            env@,
            0,
        ),
{
    let ghost cv = exprs_view(checks@);
    let ghost rv = row_view(row@);
    let none: Vec<Value> = Vec::new();
    assert(row_view(none@) =~= Seq::<ValueV>::empty());
    let ctx = EvalCtx::row(row, schema, tick);
    let mut i: usize = 0;
    while i < checks.len()
        invariant
            i <= checks.len(),
            cv == exprs_view(checks@),
            rv == row_view(row@),
            row_view(none@) == Seq::<ValueV>::empty(),
            ctx@ == row_ctx(rv, schema@, tick),
            checks_hold(cv, schema@, rv, tick, env@, i as int) == checks_hold(
                cv,
                schema@,
                rv,
                tick,
                env@,
                0,
            ),
        decreases checks.len() - i,
    {
        assert(cv[i as int] == checks@[i as int]@);
        let place = place_in(env, IN_CHECK, i as u64);
        let bare = Env {
            reals: env.reals,
            now: env.now,
            params: none.as_slice(),
            session: env.session,
            place: place.as_slice(),
        };
        assert(bare@ == unbound(within(env@, IN_CHECK, i as u64)));
        let v = eval(&checks[i], &ctx, &bare)?;
        if v.as_bool() == Some(false) {
            return Err(constraint_stop(concat2("CHECK constraint failed: ", &schema.name)));
        }
        i += 1;
    }
    Ok(())
}

/// What the rows of a statement are held to: the table's `CHECK`s and its policies.
pub struct Rules {
    pub checks: Vec<Expr>,
    pub guard: Guard,
}

pub struct RulesV {
    pub checks: Seq<ExprV>,
    pub guard: GuardV,
}

impl View for Rules {
    type V = RulesV;

    open spec fn view(&self) -> RulesV {
        RulesV { checks: exprs_view(self.checks@), guard: self.guard@ }
    }
}

pub open spec fn rules_of(schema: SchemaV, cmd: PolicyCommand, env: EnvV) -> Result<RulesV, StopV> {
    match read_checks(schema.checks, env.reals) {
        Err(e) => Err(e),
        Ok(checks) => match guard_of(schema, cmd, env) {
            Err(e) => Err(e),
            Ok(guard) => Ok(RulesV { checks, guard }),
        },
    }
}

pub open spec fn rules_result(r: Result<Rules, Stop>) -> Result<RulesV, StopV> {
    match r {
        Ok(x) => Ok(x@),
        Err(s) => Err(s@),
    }
}

pub fn read_rules(schema: &TableSchema, cmd: PolicyCommand, env: &Env) -> (r: Result<Rules, Stop>)
    ensures
        rules_result(r) == rules_of(schema@, cmd, env@),
{
    let checks = parse_checks(&schema.checks, env.reals)?;
    let guard = read_guard(schema, cmd, env)?;
    Ok(Rules { checks, guard })
}

/// What a whole row that is to be written must satisfy.
pub open spec fn row_valid(
    schema: SchemaV,
    table: Seq<char>,
    rules: RulesV,
    row: RowV,
    tick: u64,
    env: EnvV,
) -> Result<(), StopV> {
    match nulls_allowed(schema.columns, row, table, 0) {
        Err(e) => Err(e),
        Ok(_) => match dimensions_fit(schema.columns, row, table, 0) {
            Err(e) => Err(e),
            Ok(_) => match checks_hold(rules.checks, schema, row, tick, env, 0) {
                Err(e) => Err(e),
                Ok(_) => let_through(rules.guard.check, schema, table, row, tick, env),
            },
        },
    }
}

pub fn check_row(
    schema: &TableSchema,
    table: &str,
    rules: &Rules,
    row: &[Value],
    tick: u64,
    env: &Env,
) -> (r: Result<(), Stop>)
    ensures
        unit_result(r) == row_valid(
            schema@,
            table@,
            rules@,
            row_view(row@),
            tick,
            env@,
        ),
{
    check_not_null(schema, row, table)?;
    check_vector_dims(schema, row, table)?;
    check_row_constraints(&rules.checks, schema, row, tick, env)?;
    require(&rules.guard.check, schema, table, row, tick, env)
}

// ---- keys -----------------------------------------------------------------------------------------

/// The cells at some places.
pub open spec fn cells_at(row: RowV, cols: Seq<usize>) -> RowV {
    Seq::new(cols.len(), |i: int| cell(row, cols[i] as int))
}

/// What tells rows apart by some of their columns.
pub open spec fn key_at(row: RowV, cols: Seq<usize>) -> Seq<char> {
    row_key(cells_at(row, cols))
}

pub fn composite_key(row: &[Value], cols: &Vec<usize>) -> (k: Vec<char>)
    ensures
        k@ == key_at(row_view(row@), cols@),
{
    let mut cells: Vec<Value> = Vec::new();
    let mut i: usize = 0;
    let ghost rv = row_view(row@);
    assert(row_view(cells@) =~= cells_at(rv, cols@).take(0));
    while i < cols.len()
        invariant
            i <= cols.len(),
            rv == row_view(row@),
            row_view(cells@) == cells_at(rv, cols@).take(i as int),
        decreases cols.len() - i,
    {
        let ghost before = row_view(cells@);
        let v = cell_at(row, cols[i]);
        let ghost vv = v@;
        cells.push(v);
        assert(row_view(cells@) =~= before.push(vv));
        assert(cells_at(rv, cols@).take(i + 1) =~= before.push(vv));
        i += 1;
    }
    assert(cells_at(rv, cols@).take(i as int) =~= cells_at(rv, cols@));
    key_of_row(&cells)
}

pub open spec fn has_null(row: RowV, cols: Seq<usize>) -> bool {
    exists|k: int| 0 <= k < cols.len() && cell(row, #[trigger] cols[k] as int) is Null
}

pub fn any_null(row: &[Value], cols: &Vec<usize>) -> (r: bool)
    ensures
        r == has_null(row_view(row@), cols@),
{
    let mut i: usize = 0;
    while i < cols.len()
        invariant
            i <= cols.len(),
            forall|k: int|
                0 <= k < i ==> !(cell(row_view(row@), #[trigger] cols@[k] as int) is Null),
        decreases cols.len() - i,
    {
        if cell_at(row, cols[i]).is_null() {
            assert(cell(row_view(row@), cols@[i as int] as int) is Null);
            return true;
        }
        i += 1;
    }
    false
}

pub open spec fn keys_view(v: Seq<Vec<char>>) -> Seq<Seq<char>> {
    Seq::new(v.len(), |i: int| v[i]@)
}

pub fn has_key_in(v: &Vec<Vec<char>>, k: &Vec<char>) -> (r: bool)
    ensures
        r == keys_view(v@).contains(k@),
{
    let ghost kv = keys_view(v@);
    let mut i: usize = 0;
    while i < v.len()
        invariant
            i <= v.len(),
            kv == keys_view(v@),
            forall|j: int| 0 <= j < i ==> #[trigger] kv[j] != k@,
        decreases v.len() - i,
    {
        assert(kv[i as int] == v@[i as int]@);
        if same_chars(&v[i], k) {
            assert(kv.contains(k@));
            return true;
        }
        i += 1;
    }
    false
}

pub fn has_vid(v: &Vec<u64>, x: u64) -> (r: bool)
    ensures
        r == v@.contains(x),
{
    let mut i: usize = 0;
    while i < v.len()
        invariant
            i <= v.len(),
            forall|j: int| 0 <= j < i ==> v@[j] != x,
        decreases v.len() - i,
    {
        if v[i] == x {
            assert(v@[i as int] == x);
            return true;
        }
        i += 1;
    }
    false
}

/// The name of the column at a place.
pub open spec fn name_at(schema: SchemaV, i: usize) -> Seq<char> {
    if (i as int) < schema.columns.len() {
        schema.columns[i as int].name
    } else {
        Seq::empty()
    }
}

pub open spec fn names_joined_from(schema: SchemaV, cols: Seq<usize>, i: int, acc: Seq<char>) -> Seq<
    char,
>
    decreases cols.len() - i,
{
    if i < 0 || i >= cols.len() {
        acc
    } else {
        names_joined_from(
            schema,
            cols,
            i + 1,
            if i == 0 {
                name_at(schema, cols[i])
            } else {
                acc + ","@ + name_at(schema, cols[i])
            },
        )
    }
}

/// The names of some columns, with commas between them.
pub open spec fn names_joined(schema: SchemaV, cols: Seq<usize>) -> Seq<char> {
    names_joined_from(schema, cols, 0, Seq::empty())
}

pub fn pk_names(schema: &TableSchema, cols: &Vec<usize>) -> (r: String)
    ensures
        r@ == names_joined(schema@, cols@),
{
    let mut out = String::new();
    let mut i: usize = 0;
    while i < cols.len()
        invariant
            i <= cols.len(),
            names_joined_from(schema@, cols@, i as int, out@) == names_joined(schema@, cols@),
        decreases cols.len() - i,
    {
        let c: usize = cols[i];
        let n = if c < schema.columns.len() {
            assert(schema@.columns[c as int] == schema.columns@[c as int]@);
            schema.columns[c].name.clone()
        } else {
            String::new()
        };
        out = if i == 0 {
            n
        } else {
            crate::text::concat3(&out, ",", &n)
        };
        i += 1;
    }
    out
}

/// The keys of the rows that the writer `me` sees as live, those of `exclude` left
/// out, and, where `known`, those with a `NULL` in the key.
pub open spec fn taken_from(
    rows: Seq<VersionV>,
    cols: Seq<usize>,
    exclude: Seq<u64>,
    lsn: u64,
    me: u64,
    known: bool,
    i: int,
    acc: Seq<Seq<char>>,
) -> Seq<Seq<char>>
    decreases rows.len() - i,
{
    if i < 0 || i >= rows.len() {
        acc
    } else {
        let v = rows[i];
        taken_from(
            rows,
            cols,
            exclude,
            lsn,
            me,
            known,
            i + 1,
            if exclude.contains(v.vid) || !writer_sees(v, lsn, me) || (known && has_null(
                v.values,
                cols,
            )) {
                acc
            } else {
                acc.push(key_at(v.values, cols))
            },
        )
    }
}

pub fn taken_keys(
    rows: &Vec<RowVersion>,
    cols: &Vec<usize>,
    exclude: &Vec<u64>,
    lsn: u64,
    me: u64,
    known: bool,
) -> (r: Vec<Vec<char>>)
    ensures
        keys_view(r@) == taken_from(
            versions_view(rows@),
            cols@,
            exclude@,
            lsn,
            me,
            known,
            0,
            Seq::empty(),
        ),
{
    let ghost rv = versions_view(rows@);
    let mut out: Vec<Vec<char>> = Vec::new();
    assert(keys_view(out@) =~= Seq::<Seq<char>>::empty());
    let mut i: usize = 0;
    while i < rows.len()
        invariant
            i <= rows.len(),
            rv == versions_view(rows@),
            taken_from(rv, cols@, exclude@, lsn, me, known, i as int, keys_view(out@))
                == taken_from(rv, cols@, exclude@, lsn, me, known, 0, Seq::empty()),
        decreases rows.len() - i,
    {
        assert(rv[i as int] == rows@[i as int]@);
        let v = &rows[i];
        if !(has_vid(exclude, v.vid) || !v.visible_to_writer(lsn, me) || (known && any_null(
            &v.values,
            cols,
        ))) {
            let ghost before = keys_view(out@);
            let k = composite_key(&v.values, cols);
            let ghost kv = k@;
            out.push(k);
            assert(keys_view(out@) =~= before.push(kv));
        }
        i += 1;
    }
    out
}

/// A live version that another writer has not committed yet.
pub open spec fn others_insert(v: VersionV, lsn: u64, me: u64) -> bool {
    !writer_sees(v, lsn, me) && v.create_lsn == PENDING && v.owner != me && v.delete_lsn == 0
}

/// The keys that other writers are inserting, the rows of `exclude` left out.
pub open spec fn contended_from(
    rows: Seq<VersionV>,
    cols: Seq<usize>,
    exclude: Seq<u64>,
    lsn: u64,
    me: u64,
    i: int,
    acc: Seq<Seq<char>>,
) -> Seq<Seq<char>>
    decreases rows.len() - i,
{
    if i < 0 || i >= rows.len() {
        acc
    } else {
        let v = rows[i];
        contended_from(
            rows,
            cols,
            exclude,
            lsn,
            me,
            i + 1,
            if !exclude.contains(v.vid) && others_insert(v, lsn, me) {
                acc.push(key_at(v.values, cols))
            } else {
                acc
            },
        )
    }
}

pub fn contended_keys(
    rows: &Vec<RowVersion>,
    cols: &Vec<usize>,
    exclude: &Vec<u64>,
    lsn: u64,
    me: u64,
) -> (r: Vec<Vec<char>>)
    ensures
        keys_view(r@) == contended_from(
            versions_view(rows@),
            cols@,
            exclude@,
            lsn,
            me,
            0,
            Seq::empty(),
        ),
{
    let ghost rv = versions_view(rows@);
    let mut out: Vec<Vec<char>> = Vec::new();
    assert(keys_view(out@) =~= Seq::<Seq<char>>::empty());
    let mut i: usize = 0;
    while i < rows.len()
        invariant
            i <= rows.len(),
            rv == versions_view(rows@),
            contended_from(rv, cols@, exclude@, lsn, me, i as int, keys_view(out@))
                == contended_from(rv, cols@, exclude@, lsn, me, 0, Seq::empty()),
        decreases rows.len() - i,
    {
        assert(rv[i as int] == rows@[i as int]@);
        let v = &rows[i];
        if !has_vid(exclude, v.vid) && !v.visible_to_writer(lsn, me) && v.create_lsn == PENDING
            && v.owner != me && v.delete_lsn == 0 {
            let ghost before = keys_view(out@);
            let k = composite_key(&v.values, cols);
            let ghost kv = k@;
            out.push(k);
            assert(keys_view(out@) =~= before.push(kv));
        }
        i += 1;
    }
    out
}

pub open spec fn unique_fail(table: Seq<char>, names: Seq<char>) -> StopV {
    constraint_fail("UNIQUE constraint failed: "@ + table + "."@ + names)
}

/// From row `i` on: no row has a key that is taken or that a row before it has.
/// Rows with a `NULL` in the key are not compared.
pub open spec fn rows_fresh(
    rows: Seq<RowV>,
    cols: Seq<usize>,
    taken: Seq<Seq<char>>,
    breach: StopV,
    i: int,
) -> Result<(), StopV>
    decreases rows.len() - i,
{
    if i < 0 || i >= rows.len() {
        Ok(())
    } else if has_null(rows[i], cols) {
        rows_fresh(rows, cols, taken, breach, i + 1)
    } else if taken.contains(key_at(rows[i], cols)) {
        Err(breach)
    } else {
        rows_fresh(rows, cols, taken.push(key_at(rows[i], cols)), breach, i + 1)
    }
}

/// From unique set `k` on: the new rows keep it. The primary key is looked after
/// elsewhere.
pub open spec fn sets_kept(
    sets: Seq<Seq<usize>>,
    k: int,
    old: Seq<VersionV>,
    schema: SchemaV,
    table: Seq<char>,
    rows: Seq<RowV>,
    exclude: Seq<u64>,
    lsn: u64,
    me: u64,
) -> Result<(), StopV>
    decreases sets.len() - k,
{
    if k < 0 || k >= sets.len() {
        Ok(())
    } else if sets[k] == key_columns(schema.columns) {
        sets_kept(sets, k + 1, old, schema, table, rows, exclude, lsn, me)
    } else {
        let taken = taken_from(old, sets[k], exclude, lsn, me, true, 0, Seq::empty());
        match rows_fresh(
            rows,
            sets[k],
            taken,
            unique_fail(table, names_joined(schema, sets[k])),
            0,
        ) {
            Err(e) => Err(e),
            Ok(_) => sets_kept(sets, k + 1, old, schema, table, rows, exclude, lsn, me),
        }
    }
}

fn unique_stop(table: &str, names: &str) -> (s: Stop)
    ensures
        s@ == unique_fail(table@, names@),
{
    constraint_stop(concat4("UNIQUE constraint failed: ", table, ".", names))
}

fn check_fresh(
    rows: &Vec<Vec<Value>>,
    cols: &Vec<usize>,
    taken: Vec<Vec<char>>,
    table: &str,
    names: &str,
) -> (r: Result<(), Stop>)
    ensures
        unit_result(r) == rows_fresh(
            rows_view(rows@),
            cols@,
            keys_view(taken@),
            unique_fail(table@, names@),
            0,
        ),
{
    let ghost rv = rows_view(rows@);
    let ghost t0 = keys_view(taken@);
    let ghost breach = unique_fail(table@, names@);
    let mut seen = taken;
    let mut i: usize = 0;
    while i < rows.len()
        invariant
            i <= rows.len(),
            rv == rows_view(rows@),
            t0 == keys_view(taken@),
            breach == unique_fail(table@, names@),
            rows_fresh(rv, cols@, keys_view(seen@), breach, i as int) == rows_fresh(
                rv,
                cols@,
                t0,
                breach,
                0,
            ),
        decreases rows.len() - i,
    {
        assert(rv[i as int] == row_view(rows@[i as int]@));
        if !any_null(&rows[i], cols) {
            let k = composite_key(&rows[i], cols);
            if has_key_in(&seen, &k) {
                return Err(unique_stop(table, names));
            }
            let ghost before = keys_view(seen@);
            let ghost kv = k@;
            seen.push(k);
            assert(keys_view(seen@) =~= before.push(kv));
        }
        i += 1;
    }
    Ok(())
}

fn same_places(a: &Vec<usize>, b: &Vec<usize>) -> (r: bool)
    ensures
        r == (a@ == b@),
{
    if a.len() != b.len() {
        return false;
    }
    let mut i: usize = 0;
    while i < a.len()
        invariant
            i <= a.len(),
            a.len() == b.len(),
            forall|j: int| 0 <= j < i ==> a@[j] == b@[j],
        decreases a.len() - i,
    {
        if a[i] != b[i] {
            return false;
        }
        i += 1;
    }
    assert(a@ =~= b@);
    true
}

/// Hold the new rows to every unique set but the primary key.
pub fn check_secondary_uniques(
    old: &Vec<RowVersion>,
    schema: &TableSchema,
    table: &str,
    rows: &Vec<Vec<Value>>,
    exclude: &Vec<u64>,
    lsn: u64,
    me: u64,
) -> (r: Result<(), Stop>)
    ensures
        unit_result(r) == sets_kept(
            unique_keys(schema@),
            0,
            versions_view(old@),
            schema@,
            table@,
            rows_view(rows@),
            exclude@,
            lsn,
            me,
        ),
{
    let ghost ov = versions_view(old@);
    let ghost rv = rows_view(rows@);
    let sets = schema.unique_sets();
    let ghost sv = index_lists_view(sets@);
    let pk = schema.primary_key_indices();
    let mut k: usize = 0;
    while k < sets.len()
        invariant
            k <= sets.len(),
            ov == versions_view(old@),
            rv == rows_view(rows@),
            sv == index_lists_view(sets@),
            sv == unique_keys(schema@),
            pk@ == key_columns(schema@.columns),
            sets_kept(sv, k as int, ov, schema@, table@, rv, exclude@, lsn, me) == sets_kept(
                sv,
                0,
                ov,
                schema@,
                table@,
                rv,
                exclude@,
                lsn,
                me,
            ),
        decreases sets.len() - k,
    {
        assert(sv[k as int] == sets@[k as int]@);
        if !same_places(&sets[k], &pk) {
            let taken = taken_keys(old, &sets[k], exclude, lsn, me, true);
            let names = pk_names(schema, &sets[k]);
            check_fresh(rows, &sets[k], taken, table, &names)?;
        }
        k += 1;
    }
    Ok(())
}

// ---- conflicts ------------------------------------------------------------------------------------

/// Whether a version that `me` means to change was changed by another since `me`
/// began, or is being changed by another.
pub open spec fn contested(v: VersionV, snapshot: u64, me: u64) -> bool {
    (v.delete_lsn != 0 && v.delete_lsn != PENDING && v.delete_lsn > snapshot) || (v.delete_lsn
        == PENDING && v.owner != me)
}

pub open spec fn changed_fail() -> StopV {
    conflict_fail("write conflict: row modified by a concurrent transaction"@)
}

pub fn check_no_conflict(v: &RowVersion, snapshot: u64, me: u64) -> (r: Result<(), Stop>)
    ensures
        unit_result(r) == (if contested(v@, snapshot, me) {
            Err(changed_fail())
        } else {
            Ok(())
        }),
{
    let committed = v.delete_lsn != 0 && v.delete_lsn != PENDING && v.delete_lsn > snapshot;
    let pending = v.delete_lsn == PENDING && v.owner != me;
    if committed || pending {
        return Err(
            conflict_stop(owned("write conflict: row modified by a concurrent transaction")),
        );
    }
    Ok(())
}

} // verus!
