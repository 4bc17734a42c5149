//! Queries over several sources: joins, derived tables, common table expressions,
//! views, set operations, `DISTINCT` and subqueries.
//!
//! Subqueries refer to no outer column; each is run once and folded to a literal.
//! A view stands for a derived table. Views can only refer to other views, so what
//! is left to unfold is counted: `depth` bounds it.
use vstd::prelude::*;
use crate::asks::{Stop, StopV};
use crate::catalog::strings_view;
use crate::env::{sql_fail, sql_stop, Env, EnvV};
use crate::eval::{group_view, rel_cols_view, RelCol, RelColV};
use crate::inspect::{aggregated, dealiased_keys, is_aggregated};
use crate::policy::{readable, screen};
use crate::query::{
    apply_offset_limit, count_of, eval_count, heads, keep_rows, kept_from, output_columns, picked,
    project_items, projected, set_result, window, ResultSet, ResultV,
};
use crate::relation::{clone_rows, dedup_rows, distinct_rows, relation_result, Relation, RelationV};
use crate::scope::{in_row, places_view, Scope, ScopeV};
use crate::select::{
    entries_from, entries_result, entries_view, group_entries, group_rows, groups_of, order_entries,
    ordered_entries, seen, visible_rows, Entry, EntryV, Sight,
};
use crate::sorting::{by_cells, sort_by_cells, sort_keys_view, sorted_places, CellKey, SortKey};
use crate::sql::{
    exprs_view, items_view, keys_view, lemma_select_lists, opt_expr_view, Expr, ExprV, ItemV, KeyV,
    OrderKey, SelItem, SelectStmt, SelectV,
};
use crate::store::{Store, StoreV};
use crate::text::{concat2, names_match, owned, same_name};
use crate::value::{clone_row, row_view, rows_view, RowV, Value};

verus! {

/// What a query runs against.
#[derive(Clone, Copy)]
pub struct World<'a> {
    pub store: &'a Store,
    pub sight: Sight,
    pub env: &'a Env<'a>,
}

pub struct WorldV {
    pub store: StoreV,
    pub sight: Sight,
    pub env: EnvV,
}

impl<'a> View for World<'a> {
    type V = WorldV;

    open spec fn view(&self) -> WorldV {
        WorldV { store: self.store@, sight: self.sight, env: self.env@ }
    }
}

// ---- relations from results ----------------------------------------------------------------------

pub open spec fn retagged(cols: Seq<RelColV>, src: Seq<char>) -> Seq<RelColV> {
    Seq::new(
        cols.len(),
        |i: int| RelColV { table: Some(src), name: cols[i].name, ty: cols[i].ty },
    )
}

/// A result as a relation under a name.
pub open spec fn as_relation(alias: Seq<char>, r: ResultV) -> RelationV {
    let n = if r.types.len() < r.columns.len() {
        r.types.len()
    } else {
        r.columns.len()
    };
    RelationV {
        cols: Seq::new(
            n,
            |i: int| RelColV { table: Some(alias), name: r.columns[i], ty: r.types[i] },
        ),
        rows: r.rows,
    }
}

pub fn relation_from_result(alias: &str, rs: ResultSet) -> (r: Relation)
    ensures
        r@ == as_relation(alias@, rs@),
{
    let ghost rv = rs@;
    let mut cols: Vec<RelCol> = Vec::new();
    let mut i: usize = 0;
    while i < rs.columns.len() && i < rs.types.len()
        invariant
            i <= rs.columns.len(),
            i <= rs.types.len(),
            rv == rs@,
            cols.len() == i,
            forall|k: int|
                0 <= k < i ==> (#[trigger] cols@[k])@ == (RelColV {
                    table: Some(alias@),
                    name: rv.columns[k],
                    ty: rv.types[k],
                }),
        decreases rs.columns.len() - i,
    {
        assert(rv.columns[i as int] == rs.columns@[i as int]@);
        cols.push(
            RelCol { table: Some(owned(alias)), name: rs.columns[i].clone(), ty: rs.types[i] },
        );
        i += 1;
    }
    assert(rel_cols_view(cols@) =~= as_relation(alias@, rv).cols);
    Relation { cols, rows: rs.rows }
}

pub fn retag(cols: &Vec<RelCol>, src: &str) -> (r: Vec<RelCol>)
    ensures
        rel_cols_view(r@) == retagged(rel_cols_view(cols@), src@),
{
    let ghost cv = rel_cols_view(cols@);
    let mut out: Vec<RelCol> = Vec::new();
    let mut i: usize = 0;
    while i < cols.len()
        invariant
            i <= cols.len(),
            cv == rel_cols_view(cols@),
            out.len() == i,
            forall|k: int| 0 <= k < i ==> (#[trigger] out@[k])@ == retagged(cv, src@)[k],
        decreases cols.len() - i,
    {
        assert(cv[i as int] == cols@[i as int]@);
        out.push(RelCol { table: Some(owned(src)), name: cols[i].name.clone(), ty: cols[i].ty });
        i += 1;
    }
    assert(rel_cols_view(out@) =~= retagged(cv, src@));
    out
}

/// A common table expression, materialised.
pub struct Cte {
    pub name: String,
    pub rel: Relation,
}

pub struct CteRelV {
    pub name: Seq<char>,
    pub rel: RelationV,
}

impl View for Cte {
    type V = CteRelV;

    open spec fn view(&self) -> CteRelV {
        CteRelV { name: self.name@, rel: self.rel@ }
    }
}

pub open spec fn cte_rels_view(v: Seq<Cte>) -> Seq<CteRelV> {
    Seq::new(v.len(), |i: int| v[i]@)
}

/// The last of the first `n` common table expressions with a name.
pub open spec fn cte_named(ctes: Seq<CteRelV>, name: Seq<char>, n: int) -> Option<RelationV>
    decreases n,
{
    if n <= 0 || n > ctes.len() {
        None
    } else if same_name(ctes[n - 1].name, name) {
        Some(ctes[n - 1].rel)
    } else {
        cte_named(ctes, name, n - 1)
    }
}

pub fn find_cte<'a>(ctes: &'a Vec<Cte>, name: &str) -> (r: Option<&'a Relation>)
    ensures
        match r {
            Some(x) => cte_named(cte_rels_view(ctes@), name@, ctes@.len() as int) == Some(x@),
            None => cte_named(cte_rels_view(ctes@), name@, ctes@.len() as int) is None,
        },
{
    let ghost cv = cte_rels_view(ctes@);
    let mut n: usize = ctes.len();
    while n > 0
        invariant
            n <= ctes.len(),
            cv == cte_rels_view(ctes@),
            cte_named(cv, name@, n as int) == cte_named(cv, name@, ctes@.len() as int),
        decreases n,
    {
        assert(cv[n - 1] == ctes@[n - 1]@);
        if names_match(&ctes[n - 1].name, name) {
            return Some(&ctes[n - 1].rel);
        }
        n -= 1;
    }
    None
}

pub open spec fn table_cols(schema: crate::catalog::SchemaV, src: Seq<char>) -> Seq<RelColV> {
    Seq::new(
        schema.columns.len(),
        |i: int|
            RelColV { table: Some(src), name: schema.columns[i].name, ty: schema.columns[i].ty },
    )
}

/// A table's rows that the principal may read, under a name.
pub open spec fn table_relation(w: WorldV, t: crate::store::TableV, src: Seq<char>) -> Result<
    RelationV,
    StopV,
> {
    match readable(t.schema, seen(t, w.sight), w.env) {
        Err(e) => Err(e),
        Ok(rows) => Ok(RelationV { cols: table_cols(t.schema, src), rows }),
    }
}

pub fn scan_table(w: &World, t: &crate::store::Table, src: &str) -> (r: Result<Relation, Stop>)
    ensures
        relation_result(r) == table_relation(w@, t@, src@),
{
    let refs = screen(&t.schema, visible_rows(t, &w.sight), w.env)?;
    let mut cols: Vec<RelCol> = Vec::new();
    let mut i: usize = 0;
    while i < t.schema.columns.len()
        invariant
            i <= t.schema.columns.len(),
            cols.len() == i,
            forall|k: int|
                0 <= k < i ==> (#[trigger] cols@[k])@ == table_cols(t@.schema, src@)[k],
        decreases t.schema.columns.len() - i,
    {
        assert(t@.schema.columns[i as int] == t.schema.columns@[i as int]@);
        cols.push(
            RelCol {
                table: Some(owned(src)),
                name: t.schema.columns[i].name.clone(),
                ty: t.schema.columns[i].ty,
            },
        );
        i += 1;
    }
    assert(rel_cols_view(cols@) =~= table_cols(t@.schema, src@));
    let ghost gv = group_view(refs@);
    let mut rows: Vec<Vec<Value>> = Vec::new();
    let mut k: usize = 0;
    while k < refs.len()
        invariant
            k <= refs.len(),
            gv == group_view(refs@),
            rows.len() == k,
            forall|q: int| 0 <= q < k ==> row_view((#[trigger] rows@[q])@) == gv[q],
        decreases refs.len() - k,
    {
        assert(gv[k as int] == row_view(refs@[k as int]@));
        rows.push(clone_row(refs[k]));
        k += 1;
    }
    assert(rows_view(rows@) =~= gv);
    Ok(Relation { cols, rows })
}

// ---- the pieces of a core ------------------------------------------------------------------------

/// The rows from `i` on projected one by one, behind `acc`.
pub open spec fn plain_entries_from(
    rows: Seq<RowV>,
    items: Seq<ItemV>,
    s: ScopeV,
    env: EnvV,
    i: int,
    acc: Seq<EntryV>,
) -> Result<Seq<EntryV>, StopV>
    decreases rows.len() - i,
{
    if i < 0 || i >= rows.len() {
        Ok(acc)
    } else {
        match projected(items, s, false, in_row(s, rows[i], i), env) {
            Err(e) => Err(e),
            Ok(out) => plain_entries_from(
                rows,
                items,
                s,
                env,
                i + 1,
                acc.push(EntryV { out, rows: seq![rows[i]] }),
            ),
        }
    }
}

/// The clauses of a query with its subqueries folded.
pub struct ClausesV {
    pub filter: Option<ExprV>,
    pub items: Seq<ItemV>,
    pub group_by: Seq<ExprV>,
    pub having: Option<ExprV>,
}

/// A core over its source: filter, group, project, order, remove duplicates, cut.
/// Without `tail` neither order nor window apply.
pub open spec fn core_over(
    rel: RelationV,
    c: ClausesV,
    q: SelectV,
    tail: bool,
    env: EnvV,
) -> Result<ResultV, StopV> {
    let s = ScopeV { schema: None, cols: Some(rel.cols) };
    let kept = kept_from(rel.rows, s, c.filter, env, 0, Seq::empty());
    match kept {
        Err(e) => Err(e),
        Ok(rows) => {
            let entries = if aggregated(c.items, c.group_by, c.having) {
                match groups_of(rows, s, c.group_by, env) {
                    Err(e) => Err(e),
                    Ok(gs) => entries_from(
                        gs,
                        c.items,
                        c.having,
                        s,
                        false,
                        env,
                        0,
                        Seq::empty(),
                    ),
                }
            } else {
                plain_entries_from(rows, c.items, s, env, 0, Seq::empty())
            };
            match entries {
                Err(e) => Err(e),
                Ok(es) => {
                    let keys = if tail {
                        dealiased_keys(c.items, q.order_by)
                    } else {
                        Seq::empty()
                    };
                    match ordered_entries(es, keys, s, env) {
                        Err(e) => Err(e),
                        Ok(sorted) => {
                            let unique = if q.distinct {
                                distinct_rows(sorted)
                            } else {
                                sorted
                            };
                            let h = heads(c.items, s);
                            if tail {
                                match count_of(q.offset, env) {
                                    Err(e) => Err(e),
                                    Ok(off) => match count_of(q.limit, env) {
                                        Err(e) => Err(e),
                                        Ok(lim) => Ok(
                                            ResultV {
                                                columns: h.names,
                                                types: h.types,
                                                rows: window(unique, lim, off),
                                            },
                                        ),
                                    },
                                }
                            } else {
                                Ok(ResultV { columns: h.names, types: h.types, rows: unique })
                            }
                        },
                    }
                },
            }
        },
    }
}

fn plain_entries<'a>(rows: &Vec<&'a [Value]>, items: &Vec<SelItem>, scope: &Scope, env: &Env) -> (r:
    Result<Vec<Entry<'a>>, Stop>)
    ensures
        entries_result(r) == plain_entries_from(
            group_view(rows@),
            items_view(items@),
            scope@,
            env@,
            0,
            Seq::empty(),
        ),
{
    let ghost rv = group_view(rows@);
    let ghost iv = items_view(items@);
    let mut out: Vec<Entry<'a>> = Vec::new();
    assert(entries_view(out@) =~= Seq::<EntryV>::empty());
    let mut i: usize = 0;
    while i < rows.len()
        invariant
            i <= rows.len(),
            rv == group_view(rows@),
            iv == items_view(items@),
            plain_entries_from(rv, iv, scope@, env@, i as int, entries_view(out@))
                == plain_entries_from(rv, iv, scope@, env@, 0, Seq::empty()),
        decreases rows.len() - i,
    {
        let row: &'a [Value] = rows[i];
        assert(rv[i as int] == row_view(row@));
        match project_items(items, scope, false, &scope.in_row(row, i), env) {
            Err(s) => {
                return Err(s);
            },
            Ok(v) => {
                let ghost before = entries_view(out@);
                let ghost vv = row_view(v@);
                let mut one: Vec<&'a [Value]> = Vec::new();
                one.push(row);
                assert(group_view(one@) =~= seq![rv[i as int]]);
                out.push(Entry { out: v, rows: one });
                assert(entries_view(out@) =~= before.push(
                    EntryV { out: vv, rows: seq![rv[i as int]] },
                ));
            },
        }
        i += 1;
    }
    Ok(out)
}

/// The clauses of a query with its subqueries folded.
pub struct Clauses {
    pub filter: Option<Expr>,
    pub items: Vec<SelItem>,
    pub group_by: Vec<Expr>,
    pub having: Option<Expr>,
}

impl View for Clauses {
    type V = ClausesV;

    open spec fn view(&self) -> ClausesV {
        ClausesV {
            filter: opt_expr_view(self.filter),
            items: items_view(self.items@),
            group_by: exprs_view(self.group_by@),
            having: opt_expr_view(self.having),
        }
    }
}

fn order_keys<'a>(items: &'a Vec<SelItem>, keys: &'a Vec<OrderKey>, tail: bool) -> (r: Vec<
    SortKey<'a>,
>)
    ensures
        sort_keys_view(r@) == (if tail {
            dealiased_keys(items_view(items@), keys_view(keys@))
        } else {
            Seq::empty()
        }),
{
    if tail {
        crate::inspect::resolved_order_keys(items, keys)
    } else {
        let out: Vec<SortKey<'a>> = Vec::new();
        assert(sort_keys_view(out@) =~= Seq::<KeyV>::empty());
        out
    }
}

/// Run a core over its source.
pub fn run_core(rel: &Relation, c: &Clauses, sel: &SelectStmt, tail: bool, env: &Env) -> (r: Result<
    ResultSet,
    Stop,
>)
    ensures
        set_result(r) == core_over(rel@, c@, sel@, tail, env@),
{
    proof {
        lemma_select_lists(*sel);
    }
    let scope = Scope { schema: None, cols: Some(rel.cols.as_slice()) };
    assert(scope@ == ScopeV { schema: None, cols: Some(rel@.cols) });
    let mut refs: Vec<&[Value]> = Vec::new();
    let mut i: usize = 0;
    while i < rel.rows.len()
        invariant
            i <= rel.rows.len(),
            refs.len() == i,
            forall|k: int| 0 <= k < i ==> row_view((#[trigger] refs@[k])@) == rel@.rows[k],
        decreases rel.rows.len() - i,
    {
        assert(rel@.rows[i as int] == row_view(rel.rows@[i as int]@));
        refs.push(rel.rows[i].as_slice());
        i += 1;
    }
    assert(group_view(refs@) =~= rel@.rows);
    let kept = match keep_rows(&refs, &scope, &c.filter, env) {
        Ok(v) => v,
        Err(s) => {
            return Err(s);
        },
    };
    let entries = if is_aggregated(&c.items, &c.group_by, &c.having) {
        match group_rows(&kept, &scope, &c.group_by, env) {
            Err(s) => {
                return Err(s);
            },
            Ok(gs) => group_entries(gs, &c.items, &c.having, &scope, false, env),
        }
    } else {
        plain_entries(&kept, &c.items, &scope, env)
    };
    let es = match entries {
        Ok(e) => e,
        Err(s) => {
            return Err(s);
        },
    };
    let keys = order_keys(&c.items, &sel.order_by, tail);
    let sorted = match order_entries(es, &keys, &scope, env) {
        Ok(v) => v,
        Err(s) => {
            return Err(s);
        },
    };
    let unique = if sel.distinct {
        dedup_rows(&sorted)
    } else {
        sorted
    };
    let h = output_columns(&c.items, &scope);
    if tail {
        let off = match eval_count(&sel.offset, env) {
            Ok(o) => o,
            Err(s) => {
                return Err(s);
            },
        };
        let lim = match eval_count(&sel.limit, env) {
            Ok(o) => o,
            Err(s) => {
                return Err(s);
            },
        };
        Ok(
            ResultSet {
                columns: h.names,
                types: h.types,
                rows: apply_offset_limit(unique, lim, off),
            },
        )
    } else {
        Ok(ResultSet { columns: h.names, types: h.types, rows: unique })
    }
}

// ---- order and window of a set operation ------------------------------------------------------

/// The place of an output column by its name, from `i` on.
pub open spec fn output_pos(columns: Seq<Seq<char>>, name: Seq<char>, i: int) -> Option<int>
    decreases columns.len() - i,
{
    if i < 0 || i >= columns.len() {
        None
    } else if same_name(columns[i], name) {
        Some(i)
    } else {
        output_pos(columns, name, i + 1)
    }
}

/// The output column an order key of a set operation refers to: by its place
/// counted from one, or by its name.
pub open spec fn output_key(columns: Seq<Seq<char>>, e: ExprV) -> Result<int, StopV> {
    match e {
        ExprV::Int(n) => if 1 <= n <= columns.len() {
            Ok(n - 1)
        } else {
            Err(sql_fail("ORDER BY position out of range"@))
        },
        ExprV::Column(name) | ExprV::Qualified(_, name) => match output_pos(columns, name, 0) {
            Some(i) => Ok(i),
            None => Err(sql_fail("ORDER BY column not in result: "@ + name)),
        },
        _ => Err(sql_fail("ORDER BY in a set operation must name an output column"@)),
    }
}

pub open spec fn output_keys_from(
    columns: Seq<Seq<char>>,
    keys: Seq<KeyV>,
    i: int,
    acc: Seq<CellKey>,
) -> Result<Seq<CellKey>, StopV>
    decreases keys.len() - i,
{
    if i < 0 || i >= keys.len() {
        Ok(acc)
    } else {
        match output_key(columns, keys[i].expr) {
            Err(e) => Err(e),
            Ok(at) => output_keys_from(
                columns,
                keys,
                i + 1,
                acc.push(
                    CellKey {
                        at: at as usize,
                        asc: keys[i].asc,
                        nulls_first: keys[i].nulls_first,
                    },
                ),
            ),
        }
    }
}

/// A set operation's result, ordered and cut by the outer clauses.
pub open spec fn finished(r: ResultV, q: SelectV, env: EnvV) -> Result<ResultV, StopV> {
    let sorted = if q.order_by.len() == 0 {
        Ok(r.rows)
    } else {
        match output_keys_from(r.columns, q.order_by, 0, Seq::empty()) {
            Err(e) => Err(e),
            Ok(keys) => match sorted_places(by_cells(r.rows, keys), r.rows.len() as int) {
                Err(e) => Err(e),
                Ok(o) => Ok(picked(r.rows, o)),
            },
        }
    };
    match sorted {
        Err(e) => Err(e),
        Ok(rows) => match count_of(q.offset, env) {
            Err(e) => Err(e),
            Ok(off) => match count_of(q.limit, env) {
                Err(e) => Err(e),
                Ok(lim) => Ok(ResultV { rows: window(rows, lim, off), ..r }),
            },
        },
    }
}

fn find_output(columns: &Vec<String>, name: &str) -> (r: Option<usize>)
    ensures
        match r {
            Some(i) => output_pos(strings_view(columns@), name@, 0) == Some(i as int) && i
                < columns.len(),
            None => output_pos(strings_view(columns@), name@, 0) is None,
        },
{
    let ghost cv = strings_view(columns@);
    let mut i: usize = 0;
    while i < columns.len()
        invariant
            i <= columns.len(),
            cv == strings_view(columns@),
            output_pos(cv, name@, i as int) == output_pos(cv, name@, 0),
        decreases columns.len() - i,
    {
        assert(cv[i as int] == columns@[i as int]@);
        if names_match(&columns[i], name) {
            return Some(i);
        }
        i += 1;
    }
    None
}

fn place_of_key(columns: &Vec<String>, e: &Expr) -> (r: Result<usize, Stop>)
    ensures
        output_key(strings_view(columns@), e@) == (match r {
            Ok(i) => Ok(i as int),
            Err(s) => Err(s@),
        }),
{
    match e {
        Expr::Int(n) => if 1 <= *n && (*n as u64) <= columns.len() as u64 {
            Ok((*n - 1) as usize)
        } else {
            Err(sql_stop(owned("ORDER BY position out of range")))
        },
        Expr::Column(name) => match find_output(columns, name) {
            Some(i) => Ok(i),
            None => Err(sql_stop(concat2("ORDER BY column not in result: ", name))),
        },
        Expr::Qualified(_, name) => match find_output(columns, name) {
            Some(i) => Ok(i),
            None => Err(sql_stop(concat2("ORDER BY column not in result: ", name))),
        },
        _ => Err(sql_stop(owned("ORDER BY in a set operation must name an output column"))),
    }
}

fn output_keys(columns: &Vec<String>, keys: &Vec<OrderKey>) -> (r: Result<Vec<CellKey>, Stop>)
    ensures
        output_keys_from(strings_view(columns@), keys_view(keys@), 0, Seq::empty()) == (match r {
            Ok(v) => Ok(v@),
            Err(s) => Err(s@),
        }),
{
    let ghost cv = strings_view(columns@);
    let ghost kv = keys_view(keys@);
    let mut out: Vec<CellKey> = Vec::new();
    let mut i: usize = 0;
    while i < keys.len()
        invariant
            i <= keys.len(),
            cv == strings_view(columns@),
            kv == keys_view(keys@),
            output_keys_from(cv, kv, i as int, out@) == output_keys_from(cv, kv, 0, Seq::empty()),
        decreases keys.len() - i,
    {
        assert(kv[i as int] == crate::sql::key_view(keys@[i as int]));
        match place_of_key(columns, &keys[i].expr) {
            Err(s) => {
                return Err(s);
            },
            Ok(at) => {
                out.push(
                    CellKey { at, asc: keys[i].asc, nulls_first: keys[i].nulls_first },
                );
            },
        }
        i += 1;
    }
    Ok(out)
}

/// Order and cut the result of a set operation.
pub fn apply_output_order_limit(rs: ResultSet, sel: &SelectStmt, env: &Env) -> (r: Result<
    ResultSet,
    Stop,
>)
    ensures
        set_result(r) == finished(rs@, sel@, env@),
{
    proof {
        lemma_select_lists(*sel);
    }
    let ghost rv = rows_view(rs.rows@);
    let sorted = if sel.order_by.len() == 0 {
        clone_rows(&rs.rows)
    } else {
        let keys = match output_keys(&rs.columns, &sel.order_by) {
            Ok(k) => k,
            Err(s) => {
                return Err(s);
            },
        };
        let order = sort_by_cells(&rs.rows, &keys);
        let ghost ov = places_view(order@);
        let mut out: Vec<Vec<Value>> = Vec::new();
        let mut k: usize = 0;
        while k < order.len()
            invariant
                k <= order.len(),
                rv == rows_view(rs.rows@),
                ov == places_view(order@),
                out.len() == k,
                forall|j: int| 0 <= j < order.len() ==> order@[j] < rs.rows.len(),
                forall|j: int| 0 <= j < k ==> row_view((#[trigger] out@[j])@) == rv[ov[j]],
            decreases order.len() - k,
        {
            assert(ov[k as int] == order@[k as int] as int);
            assert(rv[ov[k as int]] == row_view(rs.rows@[order@[k as int] as int]@));
            out.push(clone_row(&rs.rows[order[k]]));
            k += 1;
        }
        assert(rows_view(out@) =~= picked(rv, ov));
        out
    };
    let off = match eval_count(&sel.offset, env) {
        Ok(o) => o,
        Err(s) => {
            return Err(s);
        },
    };
    let lim = match eval_count(&sel.limit, env) {
        Ok(o) => o,
        Err(s) => {
            return Err(s);
        },
    };
    Ok(
        ResultSet {
            columns: rs.columns,
            types: rs.types,
            rows: apply_offset_limit(sorted, lim, off),
        },
    )
}

} // verus!
