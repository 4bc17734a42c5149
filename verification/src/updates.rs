//! `UPDATE` and `DELETE`.
use vstd::prelude::*;
use crate::asks::{Stop, StopV};
use crate::catalog::{key_columns, unique_keys, PolicyCommand, SchemaV, TableSchema};
use crate::constraints::{
    changed_fail, check_no_conflict, check_row, check_secondary_uniques, composite_key,
    conflict_fail, conflict_stop, constraint_stop, contended_from, contended_keys, contested,
    has_key_in, key_at, keys_view, names_joined, pk_names, read_rules, row_valid, rules_of,
    sets_kept, taken_from, taken_keys, unique_fail, unit_result, Rules, RulesV,
};
use crate::env::{sql_fail, sql_stop, Env, EnvV};
use crate::eval::{
    holds, predicate, rel_cols_view, rel_ctx, row_ctx, CtxV, EvalCtx, RelCol, RelColV,
};
use crate::inserts::{assign, assigned_from};
use crate::policy::{admits, guard_of, passes, read_guard, Guard, GuardV};
use crate::relation::{Relation, RelationV};
use crate::relational::{cte_rels_view, Cte, CteRelV, World};
use crate::runner::{build_from, source_of};
use crate::select::Sight;
use crate::sql::{
    lemma_from, opt_expr_view, opt_from_view, opt_items_view, sets_view, Expr, ExprV, FromClause,
    FromV, ItemV, SelItem,
};
use crate::store::{
    table_pos, versions_view, writer_sees, RowVersion, Store, StoreV, Table, TableV, VersionV,
};
use crate::text::{concat2, concat3, concat4, owned};
use crate::value::{clone_row, row_view, rows_view, RowV, Value};
use crate::writes::{
    appended, finish, fresh_draft, put_draft, superseded, targets_from, world_of, wrote, Draft,
    DraftV, Mutation, MutationV, WriteCtx, WriteV,
};

verus! {

// ---- which rows -----------------------------------------------------------------------------------

/// The columns of a table under its name.
pub open spec fn own_cols(schema: SchemaV, name: Seq<char>) -> Seq<RelColV> {
    Seq::new(
        schema.columns.len(),
        |i: int|
            RelColV {
                table: Some(name),
                name: schema.columns[i].name,
                ty: schema.columns[i].ty,
            },
    )
}

fn own_columns(schema: &TableSchema, name: &str) -> (r: Vec<RelCol>)
    ensures
        rel_cols_view(r@) == own_cols(schema@, name@),
{
    let mut out: Vec<RelCol> = Vec::new();
    let ghost want = own_cols(schema@, name@);
    let mut i: usize = 0;
    assert(rel_cols_view(out@) =~= want.take(0));
    while i < schema.columns.len()
        invariant
            i <= schema.columns.len(),
            want == own_cols(schema@, name@),
            rel_cols_view(out@) == want.take(i as int),
        decreases schema.columns.len() - i,
    {
        assert(schema@.columns[i as int] == schema.columns@[i as int]@);
        let ghost before = rel_cols_view(out@);
        let c = RelCol {
            table: Some(owned(name)),
            name: schema.columns[i].name.clone(),
            ty: schema.columns[i].ty,
        };
        let ghost cv = c@;
        out.push(c);
        assert(rel_cols_view(out@) =~= before.push(cv));
        assert(want.take(i + 1) =~= before.push(cv));
        i += 1;
    }
    assert(want.take(i as int) =~= want);
    out
}

/// The further sources of a statement: their columns behind the table's own, and
/// their rows.
#[verifier::opaque]
pub open spec fn sources_of(
    s: StoreV,
    schema: SchemaV,
    name: Seq<char>,
    f: Option<FromV>,
    wc: WriteV,
) -> Result<Option<RelationV>, StopV> {
    match f {
        None => Ok(None),
        Some(x) => match source_of(world_of(s, wc), s.views.len(), x, Seq::empty()) {
            Err(e) => Err(e),
            Ok(r) => Ok(
                Some(RelationV { cols: own_cols(schema, name) + r.cols, rows: r.rows }),
            ),
        },
    }
}

pub open spec fn opt_relation(o: Option<Relation>) -> Option<RelationV> {
    match o {
        Some(r) => Some(r@),
        None => None,
    }
}

fn read_sources(
    store: &Store,
    schema: &TableSchema,
    name: &str,
    f: &Option<FromClause>,
    wc: &WriteCtx,
) -> (r: Result<Option<Relation>, Stop>)
    ensures
        sources_of(store@, schema@, name@, opt_from_view(*f), wc@) == (match r {
            Ok(o) => Ok(opt_relation(o)),
            Err(s) => Err(s@),
        }),
{
    reveal(sources_of);
    proof {
        lemma_from(*f);
    }
    match f {
        None => Ok(None),
        Some(x) => {
            let w = World {
                store,
                sight: Sight {
                    snapshot: wc.snapshot,
                    writer: Some(wc.owner),
                    ef_search: wc.ef_search,
                },
                env: wc.env,
            };
            let depth: usize = store.views.len();
            assert(store@.views.len() == depth);
            let none: Vec<Cte> = Vec::new();
            assert(cte_rels_view(none@) =~= Seq::<CteRelV>::empty());
            let rel = build_from(&w, depth, x, &none)?;
            let ghost rc = rel_cols_view(rel.cols@);
            let mut more = rel.cols;
            let mut cols = own_columns(schema, name);
            let ghost oc = rel_cols_view(cols@);
            cols.append(&mut more);
            assert(rel_cols_view(cols@) =~= oc + rc);
            Ok(Some(Relation { cols, rows: rel.rows }))
        },
    }
}

/// What a statement reads of its table row: with further sources, against the row
/// `j` of theirs.
pub open spec fn reading(
    schema: SchemaV,
    src: Option<RelationV>,
    values: RowV,
    j: int,
    tick: u64,
) -> CtxV {
    match src {
        None => row_ctx(values, schema, tick),
        Some(r) => rel_ctx(values + r.rows[j], r.cols, tick),
    }
}

/// The first row of the sources from `j` on with which the condition holds.
pub open spec fn partner_from(
    filter: Option<ExprV>,
    schema: SchemaV,
    src: RelationV,
    values: RowV,
    tick: u64,
    env: EnvV,
    j: int,
) -> Result<Option<int>, StopV>
    decreases src.rows.len() - j,
{
    if j < 0 || j >= src.rows.len() {
        Ok(None)
    } else {
        match holds(filter, reading(schema, Some(src), values, j, tick), env) {
            Err(e) => Err(e),
            Ok(true) => Ok(Some(j)),
            Ok(false) => partner_from(filter, schema, src, values, tick, env, j + 1),
        }
    }
}

/// Whether a row is meant, and with which row of the sources.
pub open spec fn meant(
    filter: Option<ExprV>,
    schema: SchemaV,
    src: Option<RelationV>,
    values: RowV,
    tick: u64,
    env: EnvV,
) -> Result<Option<int>, StopV> {
    match src {
        None => match holds(filter, row_ctx(values, schema, tick), env) {
            Err(e) => Err(e),
            Ok(true) => Ok(Some(0)),
            Ok(false) => Ok(None),
        },
        Some(r) => partner_from(filter, schema, r, values, tick, env, 0),
    }
}

pub open spec fn place_result(r: Result<Option<usize>, Stop>) -> Result<Option<int>, StopV> {
    match r {
        Ok(Some(j)) => Ok(Some(j as int)),
        Ok(None) => Ok(None),
        Err(s) => Err(s@),
    }
}

fn side_by_side(a: &[Value], b: &[Value]) -> (r: Vec<Value>)
    ensures
        row_view(r@) == row_view(a@) + row_view(b@),
{
    let mut out = clone_row(a);
    let mut more = clone_row(b);
    out.append(&mut more);
    assert(row_view(out@) =~= row_view(a@) + row_view(b@));
    out
}

fn find_partner(
    filter: &Option<Expr>,
    schema: &TableSchema,
    src: &Option<Relation>,
    values: &Vec<Value>,
    tick: u64,
    env: &Env,
) -> (r: Result<Option<usize>, Stop>)
    ensures
        place_result(r) == meant(
            opt_expr_view(*filter),
            schema@,
            opt_relation(*src),
            row_view(values@),
            tick,
            env@,
        ),
        match (r, *src) {
            (Ok(Some(j)), Some(s)) => j < s.rows.len(),
            _ => true,
        },
{
    match src {
        None => {
            let ctx = EvalCtx::row(values, schema, tick);
            if predicate(filter, &ctx, env)? {
                Ok(Some(0))
            } else {
                Ok(None)
            }
        },
        Some(rel) => {
            let ghost f = opt_expr_view(*filter);
            let ghost vv = row_view(values@);
            let mut j: usize = 0;
            while j < rel.rows.len()
                invariant
                    j <= rel.rows.len(),
                    *src == Some(*rel),
                    f == opt_expr_view(*filter),
                    vv == row_view(values@),
                    partner_from(f, schema@, rel@, vv, tick, env@, j as int) == partner_from(
                        f,
                        schema@,
                        rel@,
                        vv,
                        tick,
                        env@,
                        0,
                    ),
                decreases rel.rows.len() - j,
            {
                assert(rel@.rows[j as int] == row_view(rel.rows@[j as int]@));
                let row = side_by_side(values, &rel.rows[j]);
                let ctx = EvalCtx::rel(&row, &rel.cols, tick);
                if predicate(filter, &ctx, env)? {
                    return Ok(Some(j));
                }
                j += 1;
            }
            Ok(None)
        },
    }
}

/// Whether a row is touched: the policies let the principal at it, and it is meant.
pub open spec fn touched(
    guard: GuardV,
    filter: Option<ExprV>,
    schema: SchemaV,
    src: Option<RelationV>,
    values: RowV,
    tick: u64,
    env: EnvV,
) -> Result<Option<int>, StopV> {
    match passes(guard.using, schema, values, tick, env) {
        Err(e) => Err(e),
        Ok(false) => Ok(None),
        Ok(true) => meant(filter, schema, src, values, tick, env),
    }
}

fn find_touched(
    guard: &Guard,
    filter: &Option<Expr>,
    schema: &TableSchema,
    src: &Option<Relation>,
    values: &Vec<Value>,
    tick: u64,
    env: &Env,
) -> (r: Result<Option<usize>, Stop>)
    ensures
        place_result(r) == touched(
            guard@,
            opt_expr_view(*filter),
            schema@,
            opt_relation(*src),
            row_view(values@),
            tick,
            env@,
        ),
        match (r, *src) {
            (Ok(Some(j)), Some(s)) => j < s.rows.len(),
            _ => true,
        },
{
    if !admits(&guard.using, schema, values, tick, env)? {
        return Ok(None);
    }
    find_partner(filter, schema, src, values, tick, env)
}

// ---- UPDATE ---------------------------------------------------------------------------------------

/// A version to be replaced, and the values that replace it.
pub struct Change {
    pub vid: u64,
    pub values: Vec<Value>,
}

pub open spec fn changes_view(v: Seq<Change>) -> Seq<(u64, RowV)> {
    Seq::new(v.len(), |i: int| (v[i].vid, row_view(v[i].values@)))
}

pub open spec fn set_names(sets: Seq<(Seq<char>, ExprV)>) -> Seq<Seq<char>> {
    Seq::new(sets.len(), |i: int| sets[i].0)
}

/// What an `UPDATE` makes of one version; nothing where it is not meant.
pub open spec fn changed_row(
    v: VersionV,
    tick: u64,
    schema: SchemaV,
    name: Seq<char>,
    sets: Seq<(Seq<char>, ExprV)>,
    src: Option<RelationV>,
    filter: Option<ExprV>,
    rules: RulesV,
    wc: WriteV,
) -> Result<Option<RowV>, StopV> {
    if !writer_sees(v, wc.snapshot, wc.owner) {
        Ok(None)
    } else {
        match touched(rules.guard, filter, schema, src, v.values, tick, wc.env) {
            Err(e) => Err(e),
            Ok(None) => Ok(None),
            Ok(Some(j)) => if contested(v, wc.snapshot, wc.owner) {
                Err(changed_fail())
            } else {
                match assigned_from(
                    sets,
                    schema,
                    reading(schema, src, v.values, j, tick),
                    wc.env,
                    0,
                    v.values,
                ) {
                    Err(e) => Err(e),
                    Ok(row) => match row_valid(schema, name, rules, row, tick, wc.env) {
                        Err(e) => Err(e),
                        Ok(_) => Ok(Some(row)),
                    },
                }
            },
        }
    }
}

pub open spec fn changes_from(
    rows: Seq<VersionV>,
    schema: SchemaV,
    name: Seq<char>,
    sets: Seq<(Seq<char>, ExprV)>,
    src: Option<RelationV>,
    filter: Option<ExprV>,
    rules: RulesV,
    wc: WriteV,
    i: int,
    acc: Seq<(u64, RowV)>,
) -> Result<Seq<(u64, RowV)>, StopV>
    decreases rows.len() - i,
{
    if i < 0 || i >= rows.len() {
        Ok(acc)
    } else {
        match changed_row(rows[i], i as u64, schema, name, sets, src, filter, rules, wc) {
            Err(e) => Err(e),
            Ok(None) => changes_from(
                rows,
                schema,
                name,
                sets,
                src,
                filter,
                rules,
                wc,
                i + 1,
                acc,
            ),
            Ok(Some(row)) => changes_from(
                rows,
                schema,
                name,
                sets,
                src,
                filter,
                rules,
                wc,
                i + 1,
                acc.push((rows[i].vid, row)),
            ),
        }
    }
}

/// The changes that an `UPDATE` makes.
pub open spec fn changes_of(
    s: StoreV,
    t: TableV,
    name: Seq<char>,
    sets: Seq<(Seq<char>, ExprV)>,
    from: Option<FromV>,
    filter: Option<ExprV>,
    wc: WriteV,
) -> Result<Seq<(u64, RowV)>, StopV> {
    match targets_from(set_names(sets), t.schema, 0, Seq::empty()) {
        Err(e) => Err(e),
        Ok(_) => match rules_of(t.schema, PolicyCommand::Update, wc.env) {
            Err(e) => Err(e),
            Ok(rules) => match sources_of(s, t.schema, name, from, wc) {
                Err(e) => Err(e),
                Ok(src) => changes_from(
                    t.rows,
                    t.schema,
                    name,
                    sets,
                    src,
                    filter,
                    rules,
                    wc,
                    0,
                    Seq::empty(),
                ),
            },
        },
    }
}

pub open spec fn changes_result(r: Result<Vec<Change>, Stop>) -> Result<Seq<(u64, RowV)>, StopV> {
    match r {
        Ok(v) => Ok(changes_view(v@)),
        Err(s) => Err(s@),
    }
}

/// Every assigned column exists.
fn check_targets(sets: &Vec<(String, Expr)>, schema: &TableSchema) -> (r: Result<(), Stop>)
    ensures
        match r {
            Ok(_) => targets_from(set_names(sets_view(sets@)), schema@, 0, Seq::empty()) is Ok,
            Err(s) => targets_from(set_names(sets_view(sets@)), schema@, 0, Seq::empty()) == Err::<
                Seq<usize>,
                StopV,
            >(s@),
        },
{
    let ghost nv = set_names(sets_view(sets@));
    let mut got: Vec<usize> = Vec::new();
    let mut i: usize = 0;
    while i < sets.len()
        invariant
            i <= sets.len(),
            nv == set_names(sets_view(sets@)),
            targets_from(nv, schema@, i as int, got@) == targets_from(
                nv,
                schema@,
                0,
                Seq::empty(),
            ),
        decreases sets.len() - i,
    {
        assert(nv[i as int] == sets@[i as int].0@);
        match schema.column_index(&sets[i].0) {
            Some(p) => {
                got.push(p);
            },
            None => {
                return Err(sql_stop(concat2("no such column: ", &sets[i].0)));
            },
        }
        i += 1;
    }
    Ok(())
}

pub open spec fn opt_row_result(r: Result<Option<Vec<Value>>, Stop>) -> Result<Option<RowV>, StopV> {
    match r {
        Ok(Some(v)) => Ok(Some(row_view(v@))),
        Ok(None) => Ok(None),
        Err(s) => Err(s@),
    }
}

fn change_row(
    v: &RowVersion,
    tick: u64,
    schema: &TableSchema,
    name: &str,
    sets: &Vec<(String, Expr)>,
    src: &Option<Relation>,
    filter: &Option<Expr>,
    rules: &Rules,
    wc: &WriteCtx,
) -> (r: Result<Option<Vec<Value>>, Stop>)
    ensures
        opt_row_result(r) == changed_row(
            v@,
            tick,
            schema@,
            name@,
            sets_view(sets@),
            opt_relation(*src),
            opt_expr_view(*filter),
            rules@,
            wc@,
        ),
{
    if !v.visible_to_writer(wc.snapshot, wc.owner) {
        return Ok(None);
    }
    match find_touched(&rules.guard, filter, schema, src, &v.values, tick, wc.env)? {
        None => Ok(None),
        Some(j) => {
            check_no_conflict(v, wc.snapshot, wc.owner)?;
            let row = match src {
                None => {
                    let ctx = EvalCtx::row(&v.values, schema, tick);
                    assign(sets, schema, &ctx, wc.env, clone_row(&v.values))?
                },
                Some(rel) => {
                    assert(rel@.rows[j as int] == row_view(rel.rows@[j as int]@));
                    let both = side_by_side(&v.values, &rel.rows[j]);
                    let ctx = EvalCtx::rel(&both, &rel.cols, tick);
                    assign(sets, schema, &ctx, wc.env, clone_row(&v.values))?
                },
            };
            check_row(schema, name, rules, &row, tick, wc.env)?;
            Ok(Some(row))
        },
    }
}

/// Work out the changes of an `UPDATE`.
pub fn compute_updates(
    store: &Store,
    t: &Table,
    name: &str,
    sets: &Vec<(String, Expr)>,
    from: &Option<FromClause>,
    filter: &Option<Expr>,
    wc: &WriteCtx,
) -> (r: Result<Vec<Change>, Stop>)
    ensures
        changes_result(r) == changes_of(
            store@,
            t@,
            name@,
            sets_view(sets@),
            opt_from_view(*from),
            opt_expr_view(*filter),
            wc@,
        ),
{
    check_targets(sets, &t.schema)?;
    let rules = read_rules(&t.schema, PolicyCommand::Update, wc.env)?;
    let src = read_sources(store, &t.schema, name, from, wc)?;
    let ghost rows = t@.rows;
    let ghost sv = sets_view(sets@);
    let ghost xv = opt_relation(src);
    let ghost fv = opt_expr_view(*filter);
    let ghost cv = rules@;
    let ghost whole = changes_of(
        store@,
        t@,
        name@,
        sv,
        opt_from_view(*from),
        fv,
        wc@,
    );
    let mut out: Vec<Change> = Vec::new();
    assert(changes_view(out@) =~= Seq::<(u64, RowV)>::empty());
    let mut i: usize = 0;
    while i < t.rows.len()
        invariant
            i <= t.rows.len(),
            rows == versions_view(t.rows@),
            sv == sets_view(sets@),
            xv == opt_relation(src),
            fv == opt_expr_view(*filter),
            cv == rules@,
            whole == changes_of(store@, t@, name@, sv, opt_from_view(*from), fv, wc@),
            changes_from(
                rows,
                t@.schema,
                name@,
                sv,
                xv,
                fv,
                cv,
                wc@,
                i as int,
                changes_view(out@),
            ) == whole,
        decreases t.rows.len() - i,
    {
        assert(rows[i as int] == t.rows@[i as int]@);
        match change_row(
            &t.rows[i],
            i as u64,
            &t.schema,
            name,
            sets,
            &src,
            filter,
            &rules,
            wc,
        )? {
            None => {},
            Some(values) => {
                let ghost before = changes_view(out@);
                let ghost vv = row_view(values@);
                let vid: u64 = t.rows[i].vid;
                out.push(Change { vid, values });
                assert(changes_view(out@) =~= before.push((vid, vv)));
            },
        }
        i += 1;
    }
    Ok(out)
}

pub open spec fn change_vids(c: Seq<(u64, RowV)>) -> Seq<u64> {
    Seq::new(c.len(), |i: int| c[i].0)
}

pub open spec fn change_rows(c: Seq<(u64, RowV)>) -> Seq<RowV> {
    Seq::new(c.len(), |i: int| c[i].1)
}

/// From row `i` on: no row has a primary key that is being written by another,
/// that is taken, or that a row before it has.
pub open spec fn keys_fresh(
    rows: Seq<RowV>,
    pk: Seq<usize>,
    contended: Seq<Seq<char>>,
    taken: Seq<Seq<char>>,
    name: Seq<char>,
    names: Seq<char>,
    i: int,
) -> Result<(), StopV>
    decreases rows.len() - i,
{
    if i < 0 || i >= rows.len() {
        Ok(())
    } else {
        let key = key_at(rows[i], pk);
        if contended.contains(key) {
            Err(
                conflict_fail(
                    "write conflict: "@ + name + "."@ + (names
                        + " is being written by a concurrent transaction"@),
                ),
            )
        } else if taken.contains(key) {
            Err(unique_fail(name, names))
        } else {
            keys_fresh(rows, pk, contended, taken.push(key), name, names, i + 1)
        }
    }
}

/// The changed rows keep the primary key and every unique set.
pub open spec fn uniques_kept(
    s: StoreV,
    t: TableV,
    name: Seq<char>,
    changes: Seq<(u64, RowV)>,
    owner: u64,
) -> Result<(), StopV> {
    let vids = change_vids(changes);
    let rows = change_rows(changes);
    let pk = key_columns(t.schema.columns);
    let lsn = s.committed_lsn;
    match if pk.len() == 0 {
        Ok(())
    } else {
        keys_fresh(
            rows,
            pk,
            contended_from(t.rows, pk, vids, lsn, owner, 0, Seq::empty()),
            taken_from(t.rows, pk, vids, lsn, owner, false, 0, Seq::empty()),
            name,
            names_joined(t.schema, pk),
            0,
        )
    } {
        Err(e) => Err(e),
        Ok(_) => sets_kept(
            unique_keys(t.schema),
            0,
            t.rows,
            t.schema,
            name,
            rows,
            vids,
            lsn,
            owner,
        ),
    }
}

fn check_keys(
    rows: &Vec<Vec<Value>>,
    pk: &Vec<usize>,
    contended: &Vec<Vec<char>>,
    taken: Vec<Vec<char>>,
    name: &str,
    names: &str,
) -> (r: Result<(), Stop>)
    ensures
        unit_result(r) == keys_fresh(
            rows_view(rows@),
            pk@,
            keys_view(contended@),
            keys_view(taken@),
            name@,
            names@,
            0,
        ),
{
    let ghost rv = rows_view(rows@);
    let ghost cv = keys_view(contended@);
    let ghost t0 = keys_view(taken@);
    let mut seen = taken;
    let mut i: usize = 0;
    while i < rows.len()
        invariant
            i <= rows.len(),
            rv == rows_view(rows@),
            cv == keys_view(contended@),
            t0 == keys_view(taken@),
            keys_fresh(rv, pk@, cv, keys_view(seen@), name@, names@, i as int) == keys_fresh(
                rv,
                pk@,
                cv,
                t0,
                name@,
                names@,
                0,
            ),
        decreases rows.len() - i,
    {
        assert(rv[i as int] == row_view(rows@[i as int]@));
        let key = composite_key(&rows[i], pk);
        if has_key_in(contended, &key) {
            let head = concat3("write conflict: ", name, ".");
            let tail = concat2(names, " is being written by a concurrent transaction");
            return Err(conflict_stop(concat2(&head, &tail)));
        }
        if has_key_in(&seen, &key) {
            return Err(
                constraint_stop(concat4("UNIQUE constraint failed: ", name, ".", names)),
            );
        }
        let ghost before = keys_view(seen@);
        let ghost kv = key@;
        seen.push(key);
        assert(keys_view(seen@) =~= before.push(kv));
        i += 1;
    }
    Ok(())
}

fn split_changes(c: &Vec<Change>) -> (r: (Vec<u64>, Vec<Vec<Value>>))
    ensures
        r.0@ == change_vids(changes_view(c@)),
        rows_view(r.1@) == change_rows(changes_view(c@)),
{
    let ghost cv = changes_view(c@);
    let mut vids: Vec<u64> = Vec::new();
    let mut rows: Vec<Vec<Value>> = Vec::new();
    let mut i: usize = 0;
    assert(vids@ =~= change_vids(cv).take(0));
    assert(rows_view(rows@) =~= change_rows(cv).take(0));
    while i < c.len()
        invariant
            i <= c.len(),
            cv == changes_view(c@),
            vids@ == change_vids(cv).take(i as int),
            rows_view(rows@) == change_rows(cv).take(i as int),
        decreases c.len() - i,
    {
        let ghost before = rows_view(rows@);
        vids.push(c[i].vid);
        rows.push(clone_row(&c[i].values));
        proof {
            assert(cv[i as int] == (c@[i as int].vid, row_view(c@[i as int].values@)));
            assert(vids@ =~= change_vids(cv).take(i + 1));
            assert(rows_view(rows@) =~= before.push(cv[i as int].1));
            assert(rows_view(rows@) =~= change_rows(cv).take(i + 1));
        }
        i += 1;
    }
    assert(change_vids(cv).take(i as int) =~= change_vids(cv));
    assert(change_rows(cv).take(i as int) =~= change_rows(cv));
    (vids, rows)
}

pub fn check_update_uniques(
    store: &Store,
    t: &Table,
    name: &str,
    changes: &Vec<Change>,
    owner: u64,
) -> (r: Result<(), Stop>)
    ensures
        unit_result(r) == uniques_kept(store@, t@, name@, changes_view(changes@), owner),
{
    let (vids, rows) = split_changes(changes);
    let pk = t.schema.primary_key_indices();
    let lsn: u64 = store.committed_lsn;
    if pk.len() > 0 {
        let contended = contended_keys(&t.rows, &pk, &vids, lsn, owner);
        let taken = taken_keys(&t.rows, &pk, &vids, lsn, owner, false);
        let names = pk_names(&t.schema, &pk);
        check_keys(&rows, &pk, &contended, taken, name, &names)?;
    }
    check_secondary_uniques(&t.rows, &t.schema, name, &rows, &vids, lsn, owner)
}

pub open spec fn changes_put_from(
    d: DraftV,
    name: Seq<char>,
    changes: Seq<(u64, RowV)>,
    owner: u64,
    i: int,
) -> Result<DraftV, StopV>
    decreases changes.len() - i,
{
    if i < 0 || i >= changes.len() {
        Ok(d)
    } else {
        match appended(
            superseded(d, name, changes[i].0, owner),
            name,
            changes[i].1,
            owner,
        ) {
            Err(e) => Err(e),
            Ok(e) => changes_put_from(e, name, changes, owner, i + 1),
        }
    }
}

/// The draft of an `UPDATE`.
pub open spec fn update_draft(
    s: StoreV,
    t: TableV,
    name: Seq<char>,
    sets: Seq<(Seq<char>, ExprV)>,
    from: Option<FromV>,
    filter: Option<ExprV>,
    wc: WriteV,
) -> Result<DraftV, StopV> {
    match changes_of(s, t, name, sets, from, filter, wc) {
        Err(e) => Err(e),
        Ok(changes) => match uniques_kept(s, t, name, changes, wc.owner) {
            Err(e) => Err(e),
            Ok(_) => changes_put_from(fresh_draft(t), name, changes, wc.owner, 0),
        },
    }
}

/// What an `UPDATE` does to a store.
pub open spec fn updated(
    s: StoreV,
    name: Seq<char>,
    sets: Seq<(Seq<char>, ExprV)>,
    from: Option<FromV>,
    filter: Option<ExprV>,
    returning: Option<Seq<ItemV>>,
    wc: WriteV,
) -> Result<(StoreV, MutationV), StopV> {
    match table_pos(s, name) {
        None => Err(sql_fail("no such table: "@ + name)),
        Some(i) => match update_draft(s, s.tables[i], name, sets, from, filter, wc) {
            Err(e) => Err(e),
            Ok(d) => finish(s, i, d, d.rows.len(), returning, wc.env),
        },
    }
}

fn apply_updates(t: &Table, name: &str, changes: &Vec<Change>, owner: u64) -> (r: Result<
    Draft,
    Stop,
>)
    ensures
        changes_put_from(fresh_draft(t@), name@, changes_view(changes@), owner, 0) == (match r {
            Ok(d) => Ok(d@),
            Err(s) => Err(s@),
        }),
{
    let ghost cv = changes_view(changes@);
    let mut d = Draft::new(t);
    let ghost d0 = d@;
    let mut i: usize = 0;
    while i < changes.len()
        invariant
            i <= changes.len(),
            cv == changes_view(changes@),
            d0 == fresh_draft(t@),
            changes_put_from(d@, name@, cv, owner, i as int) == changes_put_from(
                d0,
                name@,
                cv,
                owner,
                0,
            ),
        decreases changes.len() - i,
    {
        assert(cv[i as int] == (changes@[i as int].vid, row_view(changes@[i as int].values@)));
        d.supersede(name, changes[i].vid, owner);
        let _ = d.append_version(name, clone_row(&changes[i].values), owner)?;
        i += 1;
    }
    Ok(d)
}

/// `UPDATE`.
pub fn run_update(
    store: &mut Store,
    table: &str,
    sets: &Vec<(String, Expr)>,
    from: &Option<FromClause>,
    filter: &Option<Expr>,
    returning: &Option<Vec<SelItem>>,
    wc: &WriteCtx,
) -> (r: Result<Mutation, Stop>)
    ensures
        wrote(
            r,
            old(store)@,
            final(store)@,
            updated(
                old(store)@,
                table@,
                sets_view(sets@),
                opt_from_view(*from),
                opt_expr_view(*filter),
                opt_items_view(*returning),
                wc@,
            ),
        ),
{
    match store.find_table(table) {
        None => Err(sql_stop(concat2("no such table: ", table))),
        Some(i) => {
            assert(store@.tables[i as int] == store.tables@[i as int]@);
            let changes = compute_updates(
                store,
                &store.tables[i],
                table,
                sets,
                from,
                filter,
                wc,
            )?;
            check_update_uniques(store, &store.tables[i], table, &changes, wc.owner)?;
            let d = apply_updates(&store.tables[i], table, &changes, wc.owner)?;
            assert(d@.rows.len() == d.rows@.len());
            let n: usize = d.rows.len();
            put_draft(store, i, d, n, returning, wc.env)
        },
    }
}

// ---- DELETE ---------------------------------------------------------------------------------------

/// The draft of a `DELETE` with the rows before `i` done. The rows that go are
/// those that the statement shows.
pub open spec fn deletes_from(
    rows: Seq<VersionV>,
    schema: SchemaV,
    guard: GuardV,
    src: Option<RelationV>,
    filter: Option<ExprV>,
    wc: WriteV,
    i: int,
    acc: Seq<(u64, RowV)>,
) -> Result<Seq<(u64, RowV)>, StopV>
    decreases rows.len() - i,
{
    if i < 0 || i >= rows.len() {
        Ok(acc)
    } else if !writer_sees(rows[i], wc.snapshot, wc.owner) {
        deletes_from(rows, schema, guard, src, filter, wc, i + 1, acc)
    } else {
        match touched(guard, filter, schema, src, rows[i].values, i as u64, wc.env) {
            Err(e) => Err(e),
            Ok(None) => deletes_from(rows, schema, guard, src, filter, wc, i + 1, acc),
            Ok(Some(_)) => if contested(rows[i], wc.snapshot, wc.owner) {
                Err(changed_fail())
            } else {
                deletes_from(
                    rows,
                    schema,
                    guard,
                    src,
                    filter,
                    wc,
                    i + 1,
                    acc.push((rows[i].vid, rows[i].values)),
                )
            },
        }
    }
}

pub open spec fn deletes_put_from(
    d: DraftV,
    name: Seq<char>,
    victims: Seq<(u64, RowV)>,
    owner: u64,
    i: int,
) -> DraftV
    decreases victims.len() - i,
{
    if i < 0 || i >= victims.len() {
        d
    } else {
        deletes_put_from(
            superseded(d, name, victims[i].0, owner),
            name,
            victims,
            owner,
            i + 1,
        )
    }
}

/// The draft of a `DELETE`.
pub open spec fn delete_draft(
    s: StoreV,
    t: TableV,
    name: Seq<char>,
    using: Option<FromV>,
    filter: Option<ExprV>,
    wc: WriteV,
) -> Result<DraftV, StopV> {
    match guard_of(t.schema, PolicyCommand::Delete, wc.env) {
        Err(e) => Err(e),
        Ok(guard) => match sources_of(s, t.schema, name, using, wc) {
            Err(e) => Err(e),
            Ok(src) => match deletes_from(
                t.rows,
                t.schema,
                guard,
                src,
                filter,
                wc,
                0,
                Seq::empty(),
            ) {
                Err(e) => Err(e),
                Ok(victims) => Ok(
                    DraftV {
                        rows: change_rows(victims),
                        ..deletes_put_from(fresh_draft(t), name, victims, wc.owner, 0)
                    },
                ),
            },
        },
    }
}

/// What a `DELETE` does to a store.
pub open spec fn deleted(
    s: StoreV,
    name: Seq<char>,
    using: Option<FromV>,
    filter: Option<ExprV>,
    returning: Option<Seq<ItemV>>,
    wc: WriteV,
) -> Result<(StoreV, MutationV), StopV> {
    match table_pos(s, name) {
        None => Err(sql_fail("no such table: "@ + name)),
        Some(i) => match delete_draft(s, s.tables[i], name, using, filter, wc) {
            Err(e) => Err(e),
            Ok(d) => finish(s, i, d, d.rows.len(), returning, wc.env),
        },
    }
}

fn compute_deletes(
    t: &Table,
    guard: &Guard,
    src: &Option<Relation>,
    filter: &Option<Expr>,
    wc: &WriteCtx,
) -> (r: Result<Vec<Change>, Stop>)
    ensures
        changes_result(r) == deletes_from(
            t@.rows,
            t@.schema,
            guard@,
            opt_relation(*src),
            opt_expr_view(*filter),
            wc@,
            0,
            Seq::empty(),
        ),
{
    let ghost rows = t@.rows;
    let ghost xv = opt_relation(*src);
    let ghost fv = opt_expr_view(*filter);
    let mut out: Vec<Change> = Vec::new();
    assert(changes_view(out@) =~= Seq::<(u64, RowV)>::empty());
    let mut i: usize = 0;
    while i < t.rows.len()
        invariant
            i <= t.rows.len(),
            rows == versions_view(t.rows@),
            rows == t@.rows,
            xv == opt_relation(*src),
            fv == opt_expr_view(*filter),
            deletes_from(rows, t@.schema, guard@, xv, fv, wc@, i as int, changes_view(out@))
                == deletes_from(rows, t@.schema, guard@, xv, fv, wc@, 0, Seq::empty()),
        decreases t.rows.len() - i,
    {
        assert(rows[i as int] == t.rows@[i as int]@);
        let v = &t.rows[i];
        if v.visible_to_writer(wc.snapshot, wc.owner) {
            match find_touched(guard, filter, &t.schema, src, &v.values, i as u64, wc.env)? {
                None => {},
                Some(_) => {
                    check_no_conflict(v, wc.snapshot, wc.owner)?;
                    let ghost before = changes_view(out@);
                    let vid: u64 = v.vid;
                    out.push(Change { vid, values: clone_row(&v.values) });
                    assert(changes_view(out@) =~= before.push((vid, row_view(v.values@))));
                },
            }
        }
        i += 1;
    }
    Ok(out)
}

fn apply_deletes(t: &Table, name: &str, victims: &Vec<Change>, owner: u64) -> (d: Draft)
    ensures
        d@ == (DraftV {
            rows: change_rows(changes_view(victims@)),
            ..deletes_put_from(fresh_draft(t@), name@, changes_view(victims@), owner, 0)
        }),
{
    let ghost vv = changes_view(victims@);
    let mut d = Draft::new(t);
    let ghost d0 = d@;
    let mut i: usize = 0;
    while i < victims.len()
        invariant
            i <= victims.len(),
            vv == changes_view(victims@),
            deletes_put_from(d@, name@, vv, owner, i as int) == deletes_put_from(
                d0,
                name@,
                vv,
                owner,
                0,
            ),
        decreases victims.len() - i,
    {
        assert(vv[i as int] == (victims@[i as int].vid, row_view(victims@[i as int].values@)));
        d.supersede(name, victims[i].vid, owner);
        i += 1;
    }
    let (_, rows) = split_changes(victims);
    d.rows = rows;
    d
}

/// `DELETE`.
pub fn run_delete(
    store: &mut Store,
    table: &str,
    using: &Option<FromClause>,
    filter: &Option<Expr>,
    returning: &Option<Vec<SelItem>>,
    wc: &WriteCtx,
) -> (r: Result<Mutation, Stop>)
    ensures
        wrote(
            r,
            old(store)@,
            final(store)@,
            deleted(
                old(store)@,
                table@,
                opt_from_view(*using),
                opt_expr_view(*filter),
                opt_items_view(*returning),
                wc@,
            ),
        ),
{
    match store.find_table(table) {
        None => Err(sql_stop(concat2("no such table: ", table))),
        Some(i) => {
            assert(store@.tables[i as int] == store.tables@[i as int]@);
            let guard = read_guard(&store.tables[i].schema, PolicyCommand::Delete, wc.env)?;
            let src = read_sources(store, &store.tables[i].schema, table, using, wc)?;
            let victims = compute_deletes(&store.tables[i], &guard, &src, filter, wc)?;
            let d = apply_deletes(&store.tables[i], table, &victims, wc.owner);
            assert(d@.rows.len() == d.rows@.len());
            let n: usize = d.rows.len();
            put_draft(store, i, d, n, returning, wc.env)
        },
    }
}

} // verus!
